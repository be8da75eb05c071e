use vstd::prelude::*;

verus! {

/// The error taxonomy of the store.
///
/// `IoError` and `UnexpectedError` carry a human-readable cause; they are
/// produced by the host layer around the engine, never by the verified
/// core, which works on in-memory buffers. `CorruptedData` reports a
/// short read, a checksum mismatch, or an ill-formed file set during
/// recovery. `KeyExists` and `KeyNotFound` are the failures of the
/// conditional write modes.
#[derive(Debug, Clone, PartialEq, Eq)]
pub enum BitCaskError {
    IoError(String),
    CorruptedData(String),
    UnexpectedError(String),
    KeyExists,
    KeyNotFound,
}

impl BitCaskError {
    /// A short description of the error, usable where the host layer
    /// wants to display it.
    pub fn message(&self) -> (r: String)
        ensures
            self is KeyExists ==> r@ == "Key already exists"@,
            self is KeyNotFound ==> r@ == "Key does not exist"@,
    {
        match self {
            BitCaskError::IoError(cause) => cause.clone(),
            BitCaskError::CorruptedData(cause) => cause.clone(),
            BitCaskError::UnexpectedError(cause) => cause.clone(),
            BitCaskError::KeyExists => "Key already exists".to_owned(),
            BitCaskError::KeyNotFound => "Key does not exist".to_owned(),
        }
    }
}

} // verus!
