use vstd::prelude::*;

use crate::bitcask::{FileId, Key, Value};
use crate::bytes::{clone_bytes, copy_range};
use crate::checksum::crc32_of;
use crate::error::BitCaskError;
use crate::log_entry::{
    rec_norm, rec_wf, spec_rec_size, spec_serialize, spec_value_len, DiskLogEntry, RecView,
};
use crate::log_file::{
    apply_record, lemma_scan_append, lemma_scan_entries_valid, spec_scan, LogFile,
    MAX_FILE_SIZE,
};
use crate::memory_index::{MemIndexEntry, MemIndexStorage};

verus! {

/// Replay the files from position `i` on, oldest (lowest-numbered)
/// first, into the accumulated index `m`.
pub open spec fn spec_scan_files(
    files: Seq<LogFile>,
    i: int,
    m: Map<Seq<u8>, MemIndexEntry>,
) -> Option<Map<Seq<u8>, MemIndexEntry>>
    decreases files.len() - i,
{
    if i < 0 || i >= files.len() {
        Some(m)
    } else {
        match spec_scan(files[i].file_id, files[i].data@, m) {
            None => None,
            Some(m2) => spec_scan_files(files, i + 1, m2),
        }
    }
}

/// Whether an index entry points at an actual value region of the
/// files: into a file that exists, within that file's bytes, with a
/// nonzero length. A tombstone entry points nowhere.
pub open spec fn entry_in_bounds(files: Seq<LogFile>, e: MemIndexEntry) -> bool {
    e.value_size > 0 ==> {
        &&& e.file_id < files.len()
        &&& e.value_offset + e.value_size <= files[e.file_id as int].data@.len()
    }
}

/// Every entry a replay of numbered files produces has a nonzero value
/// length and points into the file it was read from.
pub proof fn lemma_scan_files_valid(
    files: Seq<LogFile>,
    i: int,
    m0: Map<Seq<u8>, MemIndexEntry>,
    m: Map<Seq<u8>, MemIndexEntry>,
)
    requires
        spec_scan_files(files, i, m0) == Some(m),
        forall|j: int| 0 <= j < files.len() ==> (#[trigger] files[j]).file_id == j,
    ensures
        forall|k: Seq<u8>| #[trigger]
            m.contains_key(k) ==> (m0.contains_key(k) && m[k] == m0[k]) || (m[k].value_size > 0
                && entry_in_bounds(files, m[k])),
    decreases files.len() - i,
{
    if i < 0 || i >= files.len() {
    } else {
        let m1 = spec_scan(files[i].file_id, files[i].data@, m0)->Some_0;
        lemma_scan_entries_valid(files[i].file_id, files[i].data@, 0, m0, m1);
        lemma_scan_files_valid(files, i + 1, m1, m);
    }
}

/// Extending the last file by one well-formed record extends the
/// replay of the whole set by that record's effect.
pub proof fn lemma_scan_files_last_extended(
    files: Seq<LogFile>,
    files2: Seq<LogFile>,
    i: int,
    m0: Map<Seq<u8>, MemIndexEntry>,
    m: Map<Seq<u8>, MemIndexEntry>,
    r: RecView,
)
    requires
        files.len() == files2.len(),
        files.len() >= 1,
        0 <= i < files.len(),
        forall|j: int| 0 <= j < files.len() - 1 ==> files2[j] == files[j],
        files2.last().file_id == files.last().file_id,
        files2.last().data@ == files.last().data@ + spec_serialize(r),
        rec_wf(r),
        spec_scan_files(files, i, m0) == Some(m),
    ensures
        spec_scan_files(files2, i, m0) == Some(
            apply_record(m, files.last().file_id, files.last().data@.len() as int, rec_norm(r)),
        ),
    decreases files.len() - i,
{
    if i == files.len() - 1 {
        let m1 = spec_scan(files[i].file_id, files[i].data@, m0)->Some_0;
        assert(m1 == m);
        lemma_scan_append(files[i].file_id, files[i].data@, 0, m0, m, r);
        assert(files2[i] == files2.last());
        assert(spec_scan_files(files2, i + 1, spec_scan(files2[i].file_id, files2[i].data@, m0)->Some_0)
            == spec_scan(files2[i].file_id, files2[i].data@, m0));
    } else {
        assert(files2[i] == files[i]);
        let m1 = spec_scan(files[i].file_id, files[i].data@, m0)->Some_0;
        lemma_scan_files_last_extended(files, files2, i + 1, m1, m, r);
    }
}

/// Appending a fresh empty file does not change what the set replays
/// to.
pub proof fn lemma_scan_files_push_empty(
    files: Seq<LogFile>,
    i: int,
    m0: Map<Seq<u8>, MemIndexEntry>,
    f: LogFile,
)
    requires
        f.data@.len() == 0,
        0 <= i,
    ensures
        spec_scan_files(files.push(f), i, m0) == spec_scan_files(files, i, m0),
    decreases files.len() + 1 - i,
{
    let files2 = files.push(f);
    if i >= files2.len() {
    } else if i == files2.len() - 1 {
        assert(files2[i] == f);
        assert(spec_scan(f.file_id, f.data@, m0) == Some(m0));
        assert(spec_scan_files(files2, i + 1, m0) == Some(m0));
        assert(spec_scan_files(files, i, m0) == Some(m0));
    } else {
        assert(files2[i] == files[i]);
        match spec_scan(files[i].file_id, files[i].data@, m0) {
            None => {},
            Some(m1) => {
                lemma_scan_files_push_empty(files, i + 1, m1, f);
            },
        }
    }
}

/// Two sets of files equal in numbers and bytes replay identically.
pub proof fn lemma_scan_files_congruent(
    fa: Seq<LogFile>,
    fb: Seq<LogFile>,
    i: int,
    m: Map<Seq<u8>, MemIndexEntry>,
)
    requires
        fa.len() == fb.len(),
        forall|j: int|
            0 <= j < fa.len() ==> (#[trigger] fa[j]).file_id == fb[j].file_id && fa[j].data@
                == fb[j].data@,
    ensures
        spec_scan_files(fa, i, m) == spec_scan_files(fb, i, m),
    decreases fa.len() - i,
{
    if i < 0 || i >= fa.len() {
    } else {
        match spec_scan(fa[i].file_id, fa[i].data@, m) {
            None => {},
            Some(m1) => {
                lemma_scan_files_congruent(fa, fb, i + 1, m1);
            },
        }
    }
}

/// Position of some file carrying the given number.
fn find_file_with_id(files: &Vec<LogFile>, id: FileId) -> (r: Option<usize>)
    ensures
        match r {
            Some(i) => i < files@.len() && files@[i as int].file_id == id,
            None => forall|p: int| 0 <= p < files@.len() ==> (#[trigger] files@[p]).file_id != id,
        },
{
    let n = files.len();
    let mut i: usize = 0;
    while i < n
        invariant
            n == files@.len(),
            i <= n,
            forall|p: int| 0 <= p < i ==> (#[trigger] files@[p]).file_id != id,
        decreases n - i,
    {
        if files[i].file_id == id {
            return Some(i);
        }
        i = i + 1;
    }
    None
}

/// A bytewise copy of a log file.
fn clone_file(f: &LogFile) -> (g: LogFile)
    ensures
        g.file_id == f.file_id,
        g.data@ == f.data@,
{
    let len = f.data.len();
    let data = copy_range(&f.data, 0, len);
    assert(data@ =~= f.data@);
    LogFile { file_id: f.file_id, data }
}

/// The set of log files of one directory: the store's only persistent
/// state. The file numbered highest is the active one; all others are
/// immutable by policy. The tracked size of the active file drives
/// rollover.
#[derive(Debug)]
pub struct DiskLogFileStorage {
    pub(crate) files: Vec<LogFile>,
    pub(crate) current_file_size: u64,
    pub(crate) immutable: bool,
}

impl DiskLogFileStorage {
    /// The files, oldest first.
    pub closed spec fn log_files(self) -> Seq<LogFile> {
        self.files@
    }

    /// The tracked byte length of the active file.
    pub closed spec fn tracked_size(self) -> u64 {
        self.current_file_size
    }

    /// Whether this set is the transient, never-appended-to set of a
    /// compaction.
    pub closed spec fn is_immutable(self) -> bool {
        self.immutable
    }

    /// Well-formedness: at least one file, file numbers equal to
    /// positions, and — for a set that accepts appends — a tracked
    /// size that equals the active file's byte length.
    pub open spec fn wf(self) -> bool {
        &&& self.log_files().len() >= 1
        &&& forall|i: int|
            0 <= i < self.log_files().len() ==> (#[trigger] self.log_files()[i]).file_id == i
        &&& !self.is_immutable() ==> self.tracked_size() == self.log_files().last().data@.len()
    }

    /// The active (highest-numbered) file's position.
    pub open spec fn active_index(self) -> int {
        self.log_files().len() - 1
    }

    /// Whether some file of `files` carries the number `j` and the
    /// bytes `d`.
    pub open spec fn is_copy_of_some(files: Seq<LogFile>, j: int, d: Seq<u8>) -> bool {
        exists|i: int|
            0 <= i < files.len() && (#[trigger] files[i]).file_id == j && files[i].data@ == d
    }

    /// Arrange the given files in ascending file-number order, oldest
    /// first, and replay each into the index. Fails with a corruption
    /// error where the numbers do not form the range `0..len` — the
    /// numbers of a directory's files are expected to be contiguous —
    /// or where a file does not replay.
    pub fn to_disk_log_files(files: &Vec<LogFile>, mem_index: &mut MemIndexStorage) -> (r: Result<
        Vec<LogFile>,
        BitCaskError,
    >)
        requires
            old(mem_index).wf(),
        ensures
            final(mem_index).wf(),
            match r {
                Ok(v) => {
                    &&& v@.len() == files@.len()
                    &&& forall|j: int|
                        0 <= j < v@.len() ==> (#[trigger] v@[j]).file_id == j && Self::is_copy_of_some(
                            files@,
                            j,
                            v@[j].data@,
                        )
                    &&& spec_scan_files(v@, 0, old(mem_index).as_map()) == Some(
                        final(mem_index).as_map(),
                    )
                },
                Err(e) => e is CorruptedData,
            },
            (forall|i: int| 0 <= i < files@.len() ==> (#[trigger] files@[i]).file_id == i) ==> (
            r is Err <==> spec_scan_files(files@, 0, old(mem_index).as_map()) is None),
    {
        let n = files.len();
        let ghost input_arranged = forall|i: int|
            0 <= i < files@.len() ==> (#[trigger] files@[i]).file_id == i;
        let mut arranged: Vec<LogFile> = Vec::new();
        let mut j: usize = 0;
        while j < n
            invariant
                n == files@.len(),
                j <= n,
                arranged@.len() == j,
                mem_index.wf(),
                *mem_index == *old(mem_index),
                input_arranged == (forall|i: int|
                    0 <= i < files@.len() ==> (#[trigger] files@[i]).file_id == i),
                forall|q: int|
                    0 <= q < j ==> (#[trigger] arranged@[q]).file_id == q && Self::is_copy_of_some(
                        files@,
                        q,
                        arranged@[q].data@,
                    ),
                input_arranged ==> forall|q: int|
                    0 <= q < j ==> (#[trigger] arranged@[q]).data@ == files@[q].data@,
            decreases n - j,
        {
            let i = match find_file_with_id(files, j) {
                Some(i) => i,
                None => {
                    proof {
                        if input_arranged {
                            assert(files@[j as int].file_id == j as int);
                            assert(false);
                        }
                    }
                    return Err(
                        BitCaskError::CorruptedData(
                            "log file numbers are not contiguous".to_owned(),
                        ),
                    );
                },
            };
            let f = clone_file(&files[i]);
            arranged.push(f);
            proof {
                assert(arranged@[j as int].file_id == j as int && arranged@[j as int].data@
                    == files@[i as int].data@);
            }
            j = j + 1;
        }
        let ghost arr = arranged@;
        let mut scanned: usize = 0;
        while scanned < n
            invariant
                mem_index.wf(),
                scanned <= n,
                n == files@.len(),
                arranged@ == arr,
                arr.len() == n,
                input_arranged == (forall|i: int|
                    0 <= i < files@.len() ==> (#[trigger] files@[i]).file_id == i),
                forall|q: int| 0 <= q < n ==> (#[trigger] arr[q]).file_id == q,
                input_arranged ==> forall|q: int|
                    0 <= q < n ==> (#[trigger] arr[q]).data@ == files@[q].data@,
                spec_scan_files(arr, scanned as int, mem_index.as_map()) == spec_scan_files(
                    arr,
                    0,
                    old(mem_index).as_map(),
                ),
            decreases n - scanned,
        {
            let file_ref = &arranged[scanned];
            let scan_result = file_ref.populate_mem_index(mem_index);
            match scan_result {
                Ok(()) => {},
                Err(e) => {
                    proof {
                        assert(spec_scan_files(arr, 0, old(mem_index).as_map()) is None);
                        if input_arranged {
                            lemma_scan_files_congruent(arr, files@, 0, old(mem_index).as_map());
                        }
                    }
                    return Err(e);
                },
            }
            scanned = scanned + 1;
        }
        proof {
            if input_arranged {
                lemma_scan_files_congruent(arr, files@, 0, old(mem_index).as_map());
            }
        }
        Ok(arranged)
    }

    /// A set holding one empty file numbered zero: the state of a
    /// store whose directory held no log file.
    fn new() -> (s: Self)
        ensures
            s.wf(),
            !s.is_immutable(),
            s.log_files().len() == 1,
            s.log_files()[0].file_id == 0,
            s.log_files()[0].data@ == Seq::<u8>::empty(),
            s.tracked_size() == 0,
    {
        let mut files: Vec<LogFile> = Vec::new();
        files.push(LogFile::new(0));
        DiskLogFileStorage { files, current_file_size: 0, immutable: false }
    }

    /// Build the set from the log files of a directory and replay them
    /// into the index, oldest first; with no files at all, start from
    /// scratch with an empty file numbered zero. The last file's
    /// length seeds the tracked size.
    pub fn from_disk(files: &Vec<LogFile>, mem_index: &mut MemIndexStorage) -> (r: Result<
        Self,
        BitCaskError,
    >)
        requires
            old(mem_index).wf(),
        ensures
            final(mem_index).wf(),
            match r {
                Ok(s) => {
                    &&& s.wf()
                    &&& !s.is_immutable()
                    &&& spec_scan_files(s.log_files(), 0, old(mem_index).as_map()) == Some(
                        final(mem_index).as_map(),
                    )
                    &&& files@.len() == 0 ==> s.log_files().len() == 1 && s.log_files()[0].data@.len()
                        == 0 && *final(mem_index) == *old(mem_index)
                    &&& files@.len() > 0 ==> s.log_files().len() == files@.len() && forall|j: int|
                        0 <= j < files@.len() ==> Self::is_copy_of_some(
                            files@,
                            j,
                            (#[trigger] s.log_files()[j]).data@,
                        )
                },
                Err(e) => e is CorruptedData,
            },
            files@.len() == 0 ==> r is Ok,
            (files@.len() > 0 && (forall|i: int|
                0 <= i < files@.len() ==> (#[trigger] files@[i]).file_id == i)) ==> {
                &&& (r is Err <==> spec_scan_files(files@, 0, old(mem_index).as_map()) is None)
                &&& (r matches Ok(s) ==> forall|j: int|
                    0 <= j < files@.len() ==> (#[trigger] s.log_files()[j]).data@
                        == files@[j].data@)
            },
    {
        if files.len() == 0 {
            let s = Self::new();
            proof {
                assert(spec_scan(0usize, s.log_files()[0].data@, old(mem_index).as_map()) == Some(
                    old(mem_index).as_map(),
                ));
                assert(spec_scan_files(s.log_files(), 1, old(mem_index).as_map()) == Some(
                    old(mem_index).as_map(),
                ));
            }
            return Ok(s);
        }
        let arranged = match Self::to_disk_log_files(files, mem_index) {
            Ok(v) => v,
            Err(e) => {
                return Err(e);
            },
        };
        let last = arranged.len() - 1;
        let current_file_size = arranged[last].data.len() as u64;
        Ok(DiskLogFileStorage { files: arranged, current_file_size, immutable: false })
    }

    /// Build the transient set a compaction reads from: the given
    /// immutable files, replayed into a local index. Such a set is
    /// never appended to.
    pub fn immutable_initialization(
        immutable_files: &Vec<LogFile>,
        mem_index: &mut MemIndexStorage,
    ) -> (r: Result<Self, BitCaskError>)
        requires
            old(mem_index).wf(),
            immutable_files@.len() >= 1,
        ensures
            final(mem_index).wf(),
            match r {
                Ok(s) => {
                    &&& s.wf()
                    &&& s.is_immutable()
                    &&& s.log_files().len() == immutable_files@.len()
                    &&& spec_scan_files(s.log_files(), 0, old(mem_index).as_map()) == Some(
                        final(mem_index).as_map(),
                    )
                },
                Err(e) => e is CorruptedData,
            },
            (forall|i: int|
                0 <= i < immutable_files@.len() ==> (#[trigger] immutable_files@[i]).file_id
                    == i) ==> {
                &&& (r is Err <==> spec_scan_files(immutable_files@, 0, old(mem_index).as_map())
                    is None)
                &&& (r matches Ok(s) ==> forall|j: int|
                    0 <= j < immutable_files@.len() ==> (#[trigger] s.log_files()[j]).data@
                        == immutable_files@[j].data@)
            },
    {
        let files = match Self::to_disk_log_files(immutable_files, mem_index) {
            Ok(v) => v,
            Err(e) => {
                return Err(e);
            },
        };
        Ok(DiskLogFileStorage { files, current_file_size: 0, immutable: true })
    }

    /// Fetch the value bytes an index entry points at: one positioned
    /// read in the entry's file. Fails only where the entry points
    /// outside the set or outside the file.
    pub fn get(&self, mem_index_entry: &MemIndexEntry) -> (r: Result<Value, BitCaskError>)
        ensures
            match r {
                Ok(v) => {
                    &&& (mem_index_entry.file_id as int) < self.log_files().len()
                    &&& mem_index_entry.value_offset + mem_index_entry.value_size
                        <= self.log_files()[mem_index_entry.file_id as int].data@.len()
                    &&& v@ == self.log_files()[mem_index_entry.file_id as int].data@.subrange(
                        mem_index_entry.value_offset as int,
                        mem_index_entry.value_offset + mem_index_entry.value_size,
                    )
                },
                Err(e) => {
                    ||| (mem_index_entry.file_id as int) >= self.log_files().len()
                        && e is UnexpectedError
                    ||| (mem_index_entry.file_id as int) < self.log_files().len()
                        && mem_index_entry.value_offset + mem_index_entry.value_size
                        > self.log_files()[mem_index_entry.file_id as int].data@.len()
                        && e is IoError
                },
            },
    {
        if mem_index_entry.file_id >= self.files.len() {
            return Err(BitCaskError::UnexpectedError("no log file with this number".to_owned()));
        }
        self.files[mem_index_entry.file_id].read_value(
            mem_index_entry.value_offset,
            mem_index_entry.value_size,
        )
    }

    /// Append a value record for this key and return where its value
    /// now lives. The record's checksum is the CRC-32 of the value.
    pub fn put(&mut self, key: &Key, value: &Value) -> (r: Result<MemIndexEntry, BitCaskError>)
        requires
            old(self).wf(),
            !old(self).is_immutable(),
            old(self).log_files().last().data@.len() + 20 + key@.len() + value@.len()
                <= usize::MAX,
        ensures
            r matches Ok(e) && appended(
                *old(self),
                *final(self),
                (RecView { check_sum: crc32_of(value@), key: key@, value: Some(value@) }),
                e,
            ),
    {
        let entry = DiskLogEntry::new_entry(clone_bytes(key), clone_bytes(value));
        Ok(self.append_log_entry(entry))
    }

    /// Append a tombstone record for this key: the write-path delete.
    /// Tombstones are appended even for keys never written.
    pub fn delete(&mut self, key: &Key) -> (r: Result<MemIndexEntry, BitCaskError>)
        requires
            old(self).wf(),
            !old(self).is_immutable(),
            old(self).log_files().last().data@.len() + 20 + key@.len() <= usize::MAX,
        ensures
            r matches Ok(e) && appended(
                *old(self),
                *final(self),
                (RecView { check_sum: 0u32, key: key@, value: None }),
                e,
            ),
    {
        let entry = DiskLogEntry::new_tombstone(clone_bytes(key));
        Ok(self.append_log_entry(entry))
    }

    /// Append one record to the active file, track its size, and roll
    /// over to a fresh file where the threshold is exceeded — the
    /// tracked size is a hint; the file's own length is consulted
    /// before rolling.
    fn append_log_entry(&mut self, entry: DiskLogEntry) -> (r: MemIndexEntry)
        requires
            old(self).wf(),
            !old(self).is_immutable(),
            rec_wf(entry@),
            old(self).log_files().last().data@.len() + spec_rec_size(entry@) <= usize::MAX,
        ensures
            appended(*old(self), *final(self), entry@, r),
    {
        let last = self.files.len() - 1;
        let mut disk_log_file = match self.files.pop() {
            Some(f) => f,
            None => {
                proof {
                    assert(false);
                }
                LogFile::new(0)
            },
        };
        let file_id = disk_log_file.file_id;
        let value_offset = disk_log_file.append_new_entry(&entry);
        let value_size = entry.value_byte_size();
        self.current_file_size = self.current_file_size + entry.total_byte_size();
        self.files.push(disk_log_file);
        proof {
            assert(self.files@ =~= old(self).files@.update(
                last as int,
                self.files@[last as int],
            ));
        }
        if self.current_file_size > MAX_FILE_SIZE {
            self.check_file_size();
        }
        MemIndexEntry { file_id, value_offset, value_size }
    }

    /// Consult the active file's actual length and create a fresh
    /// active file where it exceeds the threshold.
    fn check_file_size(&mut self)
        requires
            old(self).wf(),
            !old(self).is_immutable(),
        ensures
            final(self).wf(),
            !final(self).is_immutable(),
            if old(self).log_files().last().data@.len() > MAX_FILE_SIZE {
                &&& final(self).log_files().len() == old(self).log_files().len() + 1
                &&& (forall|i: int|
                    0 <= i < old(self).log_files().len() ==> final(self).log_files()[i] == old(
                        self,
                    ).log_files()[i])
                &&& final(self).log_files().last().file_id == old(self).log_files().len()
                &&& final(self).log_files().last().data@.len() == 0
                &&& final(self).tracked_size() == 0
            } else {
                *final(self) == *old(self)
            },
    {
        let last = self.files.len() - 1;
        let file_size = self.files[last].data.len() as u64;
        if file_size > MAX_FILE_SIZE {
            self.create_new_file();
        }
    }

    /// Create the next log file — numbered one past the current
    /// active file — and make it active.
    pub fn create_new_file(&mut self)
        requires
            old(self).wf(),
            !old(self).is_immutable(),
        ensures
            final(self).wf(),
            !final(self).is_immutable(),
            final(self).log_files().len() == old(self).log_files().len() + 1,
            forall|i: int|
                0 <= i < old(self).log_files().len() ==> final(self).log_files()[i] == old(
                    self,
                ).log_files()[i],
            final(self).log_files().last().file_id == old(self).log_files().len(),
            final(self).log_files().last().data@.len() == 0,
            final(self).tracked_size() == 0,
    {
        let last_file_id = self.files[self.files.len() - 1].file_id;
        let new_file_id = last_file_id + 1;
        self.files.push(LogFile::new(new_file_id));
        self.current_file_size = 0;
    }

    /// The numbers of the immutable files: every file but the active
    /// one. Compaction takes them as its snapshot.
    pub fn get_immutable_files(&self) -> (v: Vec<FileId>)
        requires
            self.wf(),
        ensures
            v@.len() == self.log_files().len() - 1,
            forall|i: int| 0 <= i < v@.len() ==> v@[i] == i,
    {
        let n = self.files.len() - 1;
        let mut v: Vec<FileId> = Vec::new();
        let mut i: usize = 0;
        while i < n
            invariant
                i <= n,
                v@.len() == i,
                forall|j: int| 0 <= j < i ==> v@[j] == j,
            decreases n - i,
        {
            v.push(i);
            i = i + 1;
        }
        v
    }

    /// The file at a position.
    pub fn file_at(&self, i: usize) -> (f: &LogFile)
        requires
            i < self.log_files().len(),
        ensures
            *f == self.log_files()[i as int],
    {
        &self.files[i]
    }

    /// The tracked byte length of the active file.
    pub fn current_size(&self) -> (n: u64)
        ensures
            n == self.tracked_size(),
    {
        self.current_file_size
    }

    /// How many log files the set holds.
    pub fn file_count(&self) -> (n: usize)
        ensures
            n == self.log_files().len(),
    {
        self.files.len()
    }

    /// The number of the active file.
    pub fn active_file_id(&self) -> (id: FileId)
        requires
            self.wf(),
        ensures
            id == self.log_files().len() - 1,
    {
        self.files[self.files.len() - 1].file_id
    }

    /// A bytewise copy of every file, oldest first: what the host
    /// layer would find in the store's directory.
    pub fn export_files(&self) -> (v: Vec<LogFile>)
        ensures
            v@.len() == self.log_files().len(),
            forall|i: int|
                0 <= i < v@.len() ==> (#[trigger] v@[i]).file_id == self.log_files()[i].file_id
                    && v@[i].data@ == self.log_files()[i].data@,
    {
        let n = self.files.len();
        let mut v: Vec<LogFile> = Vec::new();
        let mut i: usize = 0;
        while i < n
            invariant
                n == self.log_files().len(),
                i <= n,
                v@.len() == i,
                forall|j: int|
                    0 <= j < i ==> (#[trigger] v@[j]).file_id == self.log_files()[j].file_id
                        && v@[j].data@ == self.log_files()[j].data@,
            decreases n - i,
        {
            v.push(clone_file(&self.files[i]));
            i = i + 1;
        }
        v
    }
}

/// What one append does to a file set: the record's bytes land at the
/// end of the active file, the returned entry points at the value
/// region just written, and — where the tracked size has passed the
/// threshold — a fresh, empty active file is created.
pub open spec fn appended(
    pre: DiskLogFileStorage,
    post: DiskLogFileStorage,
    r: RecView,
    ret: MemIndexEntry,
) -> bool {
    let n = pre.log_files().len() as int;
    let active0 = pre.log_files().last();
    &&& post.wf()
    &&& !post.is_immutable()
    &&& ret.file_id as int == n - 1
    &&& ret.value_offset == active0.data@.len() + 20 + r.key.len()
    &&& ret.value_size == spec_value_len(r)
    &&& forall|i: int| 0 <= i < n - 1 ==> post.log_files()[i] == pre.log_files()[i]
    &&& post.log_files()[n - 1].file_id == active0.file_id
    &&& post.log_files()[n - 1].data@ == active0.data@ + spec_serialize(r)
    &&& if pre.tracked_size() + spec_rec_size(r) > MAX_FILE_SIZE {
        &&& post.log_files().len() == n + 1
        &&& post.log_files().last().file_id as int == n
        &&& post.log_files().last().data@.len() == 0
        &&& post.tracked_size() == 0
    } else {
        &&& post.log_files().len() == n
        &&& post.tracked_size() == pre.tracked_size() + spec_rec_size(r)
    }
}

} // verus!
