use vstd::prelude::*;

use crate::bitcask::{ByteOffset, ByteSize, FileId, Value};
use crate::bytes::copy_range;
use crate::error::BitCaskError;
use crate::log_entry::{
    lemma_parse_serialize, lemma_parse_stable, rec_norm, rec_wf, spec_parse_at, spec_rec_size,
    spec_serialize, DiskLogEntry, RecView,
};
use crate::memory_index::{MemIndexEntry, MemIndexStorage};

verus! {

/// The extension of every log file name; recovery ignores files that
/// do not carry it.
pub const EXT: &'static str = "bitcask";

/// The rollover threshold: once the active file grows past this many
/// bytes, the next append goes to a fresh file.
pub const MAX_FILE_SIZE: u64 = 1024 * 1024 * 1024;

/// One numbered, append-only log file, modelled as its number and its
/// byte contents. The host layer keeps the bytes mirrored in an actual
/// file of the same number.
#[derive(Debug)]
pub struct LogFile {
    pub file_id: FileId,
    pub data: Vec<u8>,
}

/// The effect of replaying one record on the index: a value record
/// maps its key to the value's location, a tombstone removes the key.
pub open spec fn apply_record(
    m: Map<Seq<u8>, MemIndexEntry>,
    fid: FileId,
    pos: int,
    r: RecView,
) -> Map<Seq<u8>, MemIndexEntry> {
    match r.value {
        Some(v) => m.insert(
            r.key,
            MemIndexEntry {
                file_id: fid,
                value_offset: (pos + 20 + r.key.len()) as u64,
                value_size: v.len() as u64,
            },
        ),
        None => m.remove(r.key),
    }
}

/// Replay the records of one file from byte position `pos` into the
/// accumulated index `m`. The replay succeeds only where records tile
/// the remaining bytes exactly; a trailing fragment or a checksum
/// mismatch yields nothing.
pub open spec fn spec_scan_from(
    fid: FileId,
    bytes: Seq<u8>,
    pos: int,
    m: Map<Seq<u8>, MemIndexEntry>,
) -> Option<Map<Seq<u8>, MemIndexEntry>>
    decreases bytes.len() - pos,
{
    if pos == bytes.len() {
        Some(m)
    } else {
        match spec_parse_at(bytes, pos) {
            None => None,
            Some(r) => spec_scan_from(fid, bytes, pos + spec_rec_size(r), apply_record(m, fid, pos, r)),
        }
    }
}

/// Replay a whole file.
pub open spec fn spec_scan(fid: FileId, bytes: Seq<u8>, m: Map<Seq<u8>, MemIndexEntry>) -> Option<
    Map<Seq<u8>, MemIndexEntry>,
> {
    spec_scan_from(fid, bytes, 0, m)
}

/// Every entry a replay produces either was in the accumulator
/// already, or points at a nonempty value region that lies within this
/// file.
pub proof fn lemma_scan_entries_valid(
    fid: FileId,
    bytes: Seq<u8>,
    pos: int,
    m0: Map<Seq<u8>, MemIndexEntry>,
    m: Map<Seq<u8>, MemIndexEntry>,
)
    requires
        spec_scan_from(fid, bytes, pos, m0) == Some(m),
    ensures
        forall|k: Seq<u8>| #[trigger]
            m.contains_key(k) ==> (m0.contains_key(k) && m[k] == m0[k]) || (m[k].file_id == fid
                && m[k].value_size > 0 && m[k].value_offset + m[k].value_size <= bytes.len()),
    decreases bytes.len() - pos,
{
    if pos == bytes.len() {
    } else {
        let r = spec_parse_at(bytes, pos)->Some_0;
        lemma_parse_stable(bytes, Seq::<u8>::empty(), pos);
        let m1 = apply_record(m0, fid, pos, r);
        lemma_scan_entries_valid(fid, bytes, pos + spec_rec_size(r), m1, m);
    }
}

/// Appending one well-formed record to a file that replays cleanly
/// extends the replay by exactly that record's effect, applied at the
/// old end of the file.
pub proof fn lemma_scan_append(
    fid: FileId,
    bytes: Seq<u8>,
    pos: int,
    m0: Map<Seq<u8>, MemIndexEntry>,
    m: Map<Seq<u8>, MemIndexEntry>,
    r: RecView,
)
    requires
        spec_scan_from(fid, bytes, pos, m0) == Some(m),
        0 <= pos <= bytes.len(),
        rec_wf(r),
    ensures
        spec_scan_from(fid, bytes + spec_serialize(r), pos, m0) == Some(
            apply_record(m, fid, bytes.len() as int, rec_norm(r)),
        ),
    decreases bytes.len() - pos,
{
    let all = bytes + spec_serialize(r);
    lemma_parse_serialize(bytes, r);
    if pos == bytes.len() {
        assert(m == m0);
        assert(spec_parse_at(all, pos) == Some(rec_norm(r)));
        assert(pos + spec_rec_size(rec_norm(r)) == all.len());
        let applied = apply_record(m0, fid, pos, rec_norm(r));
        assert(spec_scan_from(fid, all, all.len() as int, applied) == Some(applied));
        assert(spec_scan_from(fid, all, pos, m0) == Some(applied));
    } else {
        let r0 = spec_parse_at(bytes, pos)->Some_0;
        lemma_parse_stable(bytes, spec_serialize(r), pos);
        assert(spec_parse_at(all, pos) == Some(r0));
        lemma_scan_append(fid, bytes, pos + spec_rec_size(r0), apply_record(m0, fid, pos, r0), m, r);
    }
}

impl LogFile {
    /// A fresh, empty log file with the given number.
    pub fn new(file_id: FileId) -> (f: Self)
        ensures
            f.file_id == file_id,
            f.data@ == Seq::<u8>::empty(),
    {
        LogFile { file_id, data: Vec::new() }
    }

    /// A log file over bytes the host layer read back from disk;
    /// `populate_mem_index` replays them.
    pub fn open(file_id: FileId, data: Vec<u8>) -> (f: Self)
        ensures
            f.file_id == file_id,
            f.data@ == data@,
    {
        LogFile { file_id, data }
    }

    /// Read exactly `size` bytes starting at byte `offset`: the
    /// positioned read of the get path. No record is parsed and no
    /// checksum is validated here.
    pub fn read_value(&self, offset: ByteOffset, size: ByteSize) -> (r: Result<Value, BitCaskError>)
        ensures
            match r {
                Ok(v) => offset + size <= self.data@.len() && v@ == self.data@.subrange(
                    offset as int,
                    offset + size,
                ),
                Err(e) => offset + size > self.data@.len() && e is IoError,
            },
    {
        let n = self.data.len();
        if offset > n as u64 || size > n as u64 - offset {
            return Err(BitCaskError::IoError("value read reaches past end of file".to_owned()));
        }
        Ok(copy_range(&self.data, offset as usize, size as usize))
    }

    /// Append one serialized record and return the byte offset of its
    /// value region. The host layer appends the same bytes to the
    /// actual file and flushes before the write is reported done.
    pub fn append_new_entry(&mut self, entry: &DiskLogEntry) -> (value_offset: u64)
        requires
            old(self).data@.len() + spec_rec_size(entry@) <= usize::MAX,
            rec_wf(entry@),
        ensures
            final(self).file_id == old(self).file_id,
            final(self).data@ == old(self).data@ + spec_serialize(entry@),
            value_offset == old(self).data@.len() + 20 + entry@.key.len(),
    {
        let end = self.data.len() as u64;
        let value_offset = end + entry.value_byte_offset();
        entry.serialize(&mut self.data);
        value_offset
    }

    /// Replay this file into the index, oldest record first: a value
    /// record (re)points its key at the value's location here, a
    /// tombstone removes the key. Fails with a corruption error —
    /// leaving the index where it stopped — exactly where the bytes do
    /// not replay: a truncated record or a checksum mismatch.
    pub fn populate_mem_index(&self, mem_index: &mut MemIndexStorage) -> (r: Result<
        (),
        BitCaskError,
    >)
        requires
            old(mem_index).wf(),
        ensures
            final(mem_index).wf(),
            match r {
                Ok(()) => spec_scan(self.file_id, self.data@, old(mem_index).as_map()) == Some(
                    final(mem_index).as_map(),
                ),
                Err(e) => spec_scan(self.file_id, self.data@, old(mem_index).as_map()) is None
                    && e is CorruptedData,
            },
    {
        let file_size = self.data.len();
        let mut cursor: usize = 0;
        while cursor < file_size
            invariant
                mem_index.wf(),
                cursor <= file_size,
                file_size == self.data@.len(),
                spec_scan_from(self.file_id, self.data@, cursor as int, mem_index.as_map())
                    == spec_scan(self.file_id, self.data@, old(mem_index).as_map()),
            decreases file_size - cursor,
        {
            let (entry, next) = match DiskLogEntry::deserialize(&self.data, cursor) {
                Ok(p) => p,
                Err(e) => {
                    return Err(e);
                },
            };
            if entry.is_tombstone() {
                mem_index.delete(&entry.key);
            } else {
                let value_offset = cursor as u64 + entry.value_byte_offset();
                let value_size = entry.value_byte_size();
                let mem_entry = MemIndexEntry { file_id: self.file_id, value_offset, value_size };
                mem_index.put(entry.key, mem_entry);
            }
            cursor = next;
        }
        Ok(())
    }
}

} // verus!
