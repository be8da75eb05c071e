use vstd::prelude::*;

use crate::error::BitCaskError;

verus! {

/// A log file's number within its directory.
pub type FileId = usize;

/// A size in bytes, as stored in a record header.
pub type ByteSize = u64;

/// A position in bytes within one log file.
pub type ByteOffset = u64;

/// A key: an opaque byte sequence, compared bytewise.
pub type Key = Vec<u8>;

/// A value: an opaque byte sequence.
pub type Value = Vec<u8>;

/// The public face of a key-value store: what a host object wrapping
/// the engine — typically behind a readers-writer lock — offers its
/// callers. The engine itself carries the verified contracts on its
/// own methods; a host implements this trait by delegating to it.
pub trait KVStorage: Clone + Send + 'static {
    /// The value last put under this key, or nothing.
    fn get(&self, key: &Key) -> Option<Value>;

    /// Store a value under a key, honouring the conditional mode if
    /// one is given.
    fn put_with_option(&mut self, key: &Key, value: &Value, option: Option<PutOption>) -> Result<
        (),
        BitCaskError,
    >;

    /// Store a value under a key unconditionally.
    fn put(&mut self, key: &Key, value: &Value) -> Result<(), BitCaskError> {
        self.put_with_option(key, value, PutOption::none())
    }

    /// Erase a key.
    fn delete(&mut self, key: &Key) -> Result<(), BitCaskError>;

    /// How many keys the store tracks.
    fn size(&self) -> usize;
}

/// The conditional modes of a write: NX succeeds only where the key is
/// absent, XX only where it is present.
pub struct PutOption {
    pub nx: bool,
    pub xx: bool,
}

impl PutOption {
    /// The unconditional mode: no option at all.
    pub fn none() -> (r: Option<PutOption>)
        ensures
            r is None,
    {
        None
    }

    /// The NX (not-exists) mode.
    pub fn nx() -> (r: Option<PutOption>)
        ensures
            r matches Some(o) && o.nx && !o.xx,
    {
        Some(PutOption { nx: true, xx: false })
    }

    /// The XX (exists) mode.
    pub fn xx() -> (r: Option<PutOption>)
        ensures
            r matches Some(o) && !o.nx && o.xx,
    {
        Some(PutOption { nx: false, xx: true })
    }
}

} // verus!
