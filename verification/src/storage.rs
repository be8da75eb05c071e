use vstd::prelude::*;

use crate::bitcask::{FileId, Key, PutOption, Value};
use crate::bytes::clone_bytes;
use crate::checksum::crc32_of;
use crate::disk_logs::{
    appended, entry_in_bounds, lemma_scan_files_congruent, lemma_scan_files_last_extended,
    lemma_scan_files_push_empty, lemma_scan_files_valid, spec_scan_files, DiskLogFileStorage,
};
use crate::error::BitCaskError;
use crate::log_entry::{
    rec_norm, rec_wf, spec_rec_size, spec_serialize, spec_value_len, DiskLogEntry, RecView,
};
use crate::log_file::{apply_record, lemma_scan_append, spec_scan, LogFile, MAX_FILE_SIZE};
use crate::memory_index::{
    has_key, lemma_lex_irrefl, lex_lt, sorted, MemIndexEntry, MemIndexStorage,
};

verus! {

/// The value bytes an index entry points at within a set of files.
pub open spec fn files_entry_value(files: Seq<LogFile>, e: MemIndexEntry) -> Seq<u8> {
    files[e.file_id as int].data@.subrange(e.value_offset as int, e.value_offset + e.value_size)
}

/// Key–value pairs in strictly ascending key order: the layout of a
/// compacted file.
pub open spec fn kvs_sorted(kvs: Seq<(Seq<u8>, Seq<u8>)>) -> bool {
    forall|i: int, j: int|
        0 <= i < j < kvs.len() ==> lex_lt((#[trigger] kvs[i]).0, (#[trigger] kvs[j]).0)
}

/// Whether some pair of `kvs` carries the key `k`.
pub open spec fn kvs_has_key(kvs: Seq<(Seq<u8>, Seq<u8>)>, k: Seq<u8>) -> bool {
    exists|i: int| 0 <= i < kvs.len() && (#[trigger] kvs[i]).0 == k
}

/// The bytes of one value record per pair, in order: what a compacted
/// file holds.
pub open spec fn spec_records_bytes(kvs: Seq<(Seq<u8>, Seq<u8>)>) -> Seq<u8>
    decreases kvs.len(),
{
    if kvs.len() == 0 {
        Seq::<u8>::empty()
    } else {
        spec_records_bytes(kvs.drop_last()) + spec_serialize(
            RecView {
                check_sum: crc32_of(kvs.last().1),
                key: kvs.last().0,
                value: Some(kvs.last().1),
            },
        )
    }
}

/// Whether `kvs` is the one-record-per-key image of the replayed map
/// `m`, read from the files `src`: one pair per key of `m`, in
/// strictly ascending key order, each carrying the value bytes its
/// entry points at.
pub open spec fn image_of(
    src: Seq<LogFile>,
    m: Map<Seq<u8>, MemIndexEntry>,
    kvs: Seq<(Seq<u8>, Seq<u8>)>,
) -> bool {
    &&& kvs_sorted(kvs)
    &&& forall|j: int|
        0 <= j < kvs.len() ==> m.contains_key((#[trigger] kvs[j]).0) && kvs[j].1
            == files_entry_value(src, m[kvs[j].0])
    &&& forall|k: Seq<u8>| #[trigger] m.contains_key(k) ==> kvs_has_key(kvs, k)
}

/// Whether the one-file image of `m` fits the address space: the
/// condition under which a compaction is owed success. The image is
/// semantically unique, so quantifying over all of its presentations
/// costs nothing.
pub open spec fn image_fits(src: Seq<LogFile>, m: Map<Seq<u8>, MemIndexEntry>) -> bool {
    forall|kvs: Seq<(Seq<u8>, Seq<u8>)>| #[trigger]
        image_of(src, m, kvs) ==> spec_records_bytes(kvs).len() <= usize::MAX
}

/// A prefix of the pairs yields no more bytes than all of them.
pub proof fn lemma_records_bytes_prefix(kvs: Seq<(Seq<u8>, Seq<u8>)>, i: int)
    requires
        0 <= i <= kvs.len(),
    ensures
        spec_records_bytes(kvs.take(i)).len() <= spec_records_bytes(kvs).len(),
        i < kvs.len() ==> spec_records_bytes(kvs.take(i)).len() + 20 + kvs[i].0.len()
            + kvs[i].1.len() <= spec_records_bytes(kvs).len(),
    decreases kvs.len() - i,
{
    if i == kvs.len() {
        assert(kvs.take(i) =~= kvs);
    } else {
        lemma_records_bytes_prefix(kvs, i + 1);
        let next = kvs.take(i + 1);
        assert(next.drop_last() =~= kvs.take(i));
        assert(next.last() == kvs[i]);
        assert(spec_serialize(
            (RecView { check_sum: crc32_of(kvs[i].1), key: kvs[i].0, value: Some(kvs[i].1) }),
        ).len() == 20 + kvs[i].0.len() + kvs[i].1.len());
        assert(spec_records_bytes(next).len() == spec_records_bytes(kvs.take(i)).len() + 20
            + kvs[i].0.len() + kvs[i].1.len());
    }
}

/// Two file sets with the same bytes agree on whether an image fits.
proof fn lemma_image_fits_congruent(
    src1: Seq<LogFile>,
    src2: Seq<LogFile>,
    m: Map<Seq<u8>, MemIndexEntry>,
)
    requires
        src1.len() == src2.len(),
        forall|j: int| 0 <= j < src1.len() ==> (#[trigger] src1[j]).data@ == src2[j].data@,
        forall|k: Seq<u8>| #[trigger]
            m.contains_key(k) ==> (m[k].file_id as int) < src1.len(),
    ensures
        image_fits(src1, m) == image_fits(src2, m),
{
    assert forall|kvs: Seq<(Seq<u8>, Seq<u8>)>| #[trigger]
        image_of(src1, m, kvs) implies image_of(src2, m, kvs) by {
        assert forall|j: int|
            0 <= j < kvs.len() && m.contains_key((#[trigger] kvs[j]).0) implies files_entry_value(
            src1,
            m[kvs[j].0],
        ) == files_entry_value(src2, m[kvs[j].0]) by {
            let e = m[kvs[j].0];
            assert(src1[e.file_id as int].data@ == src2[e.file_id as int].data@);
        }
    }
    assert forall|kvs: Seq<(Seq<u8>, Seq<u8>)>| #[trigger]
        image_of(src2, m, kvs) implies image_of(src1, m, kvs) by {
        assert forall|j: int|
            0 <= j < kvs.len() && m.contains_key((#[trigger] kvs[j]).0) implies files_entry_value(
            src1,
            m[kvs[j].0],
        ) == files_entry_value(src2, m[kvs[j].0]) by {
            let e = m[kvs[j].0];
            assert(src1[e.file_id as int].data@ == src2[e.file_id as int].data@);
        }
    }
    if image_fits(src1, m) {
        assert forall|kvs: Seq<(Seq<u8>, Seq<u8>)>| #[trigger]
            image_of(src2, m, kvs) implies spec_records_bytes(kvs).len() <= usize::MAX by {
            assert(image_of(src1, m, kvs));
        }
        assert(image_fits(src2, m));
    }
    if image_fits(src2, m) {
        assert forall|kvs: Seq<(Seq<u8>, Seq<u8>)>| #[trigger]
            image_of(src1, m, kvs) implies spec_records_bytes(kvs).len() <= usize::MAX by {
            assert(image_of(src2, m, kvs));
        }
        assert(image_fits(src1, m));
    }
}

/// Whether some file after the first carries exactly these bytes:
/// how the finish phase accounts for a file it carried over.
pub open spec fn holds_bytes(files: Seq<LogFile>, d: Seq<u8>) -> bool {
    exists|j: int| 1 <= j < files.len() && (#[trigger] files[j]).data@ == d
}

/// The storage engine: one set of log files on disk and one in-memory
/// index over them. Every operation keeps the index equal to what a
/// replay of the files yields for live keys.
#[derive(Debug)]
pub struct LogStorage {
    disk_log: DiskLogFileStorage,
    mem_index: MemIndexStorage,
}

impl LogStorage {
    /// The file set underneath.
    pub closed spec fn disk(self) -> DiskLogFileStorage {
        self.disk_log
    }

    /// The index underneath.
    pub closed spec fn index(self) -> MemIndexStorage {
        self.mem_index
    }

    /// The index as a mapping: every key with a record, tombstoned
    /// keys included.
    pub open spec fn index_map(self) -> Map<Seq<u8>, MemIndexEntry> {
        self.index().as_map()
    }

    /// The index's pairs in ascending key order.
    pub open spec fn index_pairs(self) -> Seq<(Key, MemIndexEntry)> {
        self.index().pairs()
    }

    /// The log files, oldest first.
    pub open spec fn files(self) -> Seq<LogFile> {
        self.disk().log_files()
    }

    /// The tracked byte length of the active file.
    pub open spec fn active_size(self) -> u64 {
        self.disk().tracked_size()
    }

    /// The index restricted to live keys: those whose entry points at
    /// a value rather than a tombstone.
    pub open spec fn live_index(self) -> Map<Seq<u8>, MemIndexEntry> {
        Map::new(
            |k: Seq<u8>| self.index_map().contains_key(k) && self.index_map()[k].value_size > 0,
            |k: Seq<u8>| self.index_map()[k],
        )
    }

    /// The value bytes an index entry points at.
    pub open spec fn entry_value(self, e: MemIndexEntry) -> Seq<u8> {
        self.files()[e.file_id as int].data@.subrange(
            e.value_offset as int,
            e.value_offset + e.value_size,
        )
    }

    /// The store's logical contents: each live key mapped to its most
    /// recently written value.
    pub open spec fn view_map(self) -> Map<Seq<u8>, Seq<u8>> {
        Map::new(
            |k: Seq<u8>| self.live_index().contains_key(k),
            |k: Seq<u8>| self.entry_value(self.index_map()[k]),
        )
    }

    /// The engine's invariant: the file set and the index are each
    /// well-formed, every index entry points into the files, and a
    /// replay of the files from nothing yields exactly the live part
    /// of the index. The last clause is what makes recovery and
    /// compaction agree with the running engine.
    pub open spec fn wf(self) -> bool {
        &&& self.disk().wf()
        &&& !self.disk().is_immutable()
        &&& self.index().wf()
        &&& spec_scan_files(self.files(), 0, Map::empty()) == Some(self.live_index())
        &&& forall|k: Seq<u8>| #[trigger]
            self.index_map().contains_key(k) ==> entry_in_bounds(
                self.files(),
                self.index_map()[k],
            )
    }

    /// Whether one more record for this key and value fits the active
    /// file's address space.
    pub open spec fn can_append(self, k: Seq<u8>, v_len: int) -> bool {
        self.files().last().data@.len() + 20 + k.len() + v_len <= usize::MAX
    }

    /// Open a store over the log files of a directory — none at all
    /// means a fresh store — replaying them into a fresh index.
    pub fn new(files: &Vec<LogFile>) -> (r: Result<Self, BitCaskError>)
        ensures
            match r {
                Ok(s) => {
                    &&& s.wf()
                    &&& s.live_index() == s.index_map()
                    &&& spec_scan_files(s.files(), 0, Map::<Seq<u8>, MemIndexEntry>::empty())
                        == Some(s.index_map())
                    &&& files@.len() == 0 ==> s.index_map()
                        == Map::<Seq<u8>, MemIndexEntry>::empty() && s.files().len() == 1
                        && s.files()[0].data@.len() == 0
                },
                Err(e) => e is CorruptedData,
            },
            files@.len() == 0 ==> r is Ok,
            (files@.len() > 0 && (forall|i: int|
                0 <= i < files@.len() ==> (#[trigger] files@[i]).file_id == i)) ==> {
                &&& (r is Err <==> spec_scan_files(
                    files@,
                    0,
                    Map::<Seq<u8>, MemIndexEntry>::empty(),
                ) is None)
                &&& (r matches Ok(s) ==> s.files().len() == files@.len() && forall|j: int|
                    0 <= j < files@.len() ==> (#[trigger] s.files()[j]).data@ == files@[j].data@)
            },
    {
        let mut mem_index = MemIndexStorage::new();
        let disk_log = match DiskLogFileStorage::from_disk(files, &mut mem_index) {
            Ok(d) => d,
            Err(e) => {
                return Err(e);
            },
        };
        let s = LogStorage { disk_log, mem_index };
        proof {
            lemma_scan_files_valid(
                s.files(),
                0,
                Map::<Seq<u8>, MemIndexEntry>::empty(),
                s.index_map(),
            );
            assert(s.live_index() =~= s.index_map());
        }
        Ok(s)
    }

    /// Look a key up: absent where the index has no entry or a
    /// tombstone entry, else the bytes of one positioned read at the
    /// entry's location.
    pub fn get(&self, key: &Key) -> (r: Option<Value>)
        requires
            self.wf(),
        ensures
            match r {
                Some(v) => self.view_map().contains_key(key@) && v@ == self.view_map()[key@],
                None => !self.view_map().contains_key(key@),
            },
    {
        let mem_index_entry = self.mem_index.get(key);
        match mem_index_entry {
            Some(mem_index_entry) => {
                if mem_index_entry.is_tombstone() {
                    return None;
                }
                let res = self.disk_log.get(&mem_index_entry);
                match res {
                    Ok(value) => Some(value),
                    Err(_) => {
                        proof {
                            assert(entry_in_bounds(self.files(), mem_index_entry));
                            assert(false);
                        }
                        None
                    },
                }
            },
            None => None,
        }
    }

    /// The number of keys the store tracks: all keys with at least one
    /// record, keys whose latest record is a tombstone included.
    pub fn size(&self) -> (n: usize)
        requires
            self.wf(),
        ensures
            n == self.index_map().dom().len(),
            n == self.index_pairs().len(),
    {
        self.mem_index.size()
    }

    /// Write this key and value unconditionally: append a value
    /// record, then point the index at it. A nonempty value becomes
    /// the key's current value; an empty value has value size zero on
    /// disk and therefore erases the key, exactly as a delete does.
    pub fn put_without_option(&mut self, key: &Key, value: &Value) -> (r: Result<
        (),
        BitCaskError,
    >)
        requires
            old(self).wf(),
            old(self).can_append(key@, value@.len() as int),
        ensures
            final(self).wf(),
            r is Ok,
            written(*old(self), *final(self), key@, value@),
    {
        let index_entry = match self.disk_log.put(key, value) {
            Ok(e) => e,
            Err(e) => {
                proof {
                    assert(false);
                }
                return Err(e);
            },
        };
        let ghost pre = *old(self);
        let ghost rec = RecView { check_sum: crc32_of(value@), key: key@, value: Some(value@) };
        self.mem_index.put(clone_bytes(key), index_entry);
        proof {
            lemma_append_restores(pre, *self, rec, index_entry);
        }
        Ok(())
    }

    /// Write only where the key is currently absent; a live key fails
    /// with `KeyExists` and changes nothing.
    pub fn put_nx(&mut self, key: &Key, value: &Value) -> (r: Result<(), BitCaskError>)
        requires
            old(self).wf(),
            old(self).can_append(key@, value@.len() as int),
        ensures
            final(self).wf(),
            if old(self).view_map().contains_key(key@) {
                r matches Err(e) && e is KeyExists && *final(self) == *old(self)
            } else {
                r is Ok && written(*old(self), *final(self), key@, value@)
            },
    {
        let index_entry = self.mem_index.get(key);
        if let Some(index_entry) = index_entry {
            if !index_entry.is_tombstone() {
                return Err(BitCaskError::KeyExists);
            }
        }
        self.put_without_option(key, value)
    }

    /// Write only where the key is currently present; an absent or
    /// tombstoned key fails with `KeyNotFound` and changes nothing.
    pub fn put_xx(&mut self, key: &Key, value: &Value) -> (r: Result<(), BitCaskError>)
        requires
            old(self).wf(),
            old(self).can_append(key@, value@.len() as int),
        ensures
            final(self).wf(),
            if !old(self).view_map().contains_key(key@) {
                r matches Err(e) && e is KeyNotFound && *final(self) == *old(self)
            } else {
                r is Ok && written(*old(self), *final(self), key@, value@)
            },
    {
        let index_entry = self.mem_index.get(key);
        if let Some(index_entry) = index_entry {
            if index_entry.is_tombstone() {
                return Err(BitCaskError::KeyNotFound);
            }
        } else {
            return Err(BitCaskError::KeyNotFound);
        }
        self.put_without_option(key, value)
    }

    /// Write this key and value, honouring the conditional mode if one
    /// is given: NX writes only absent keys, XX only present ones.
    pub fn put(&mut self, key: &Key, value: &Value, option: Option<PutOption>) -> (r: Result<
        (),
        BitCaskError,
    >)
        requires
            old(self).wf(),
            old(self).can_append(key@, value@.len() as int),
        ensures
            final(self).wf(),
            match option {
                Some(o) => if o.nx {
                    if old(self).view_map().contains_key(key@) {
                        r matches Err(e) && e is KeyExists && *final(self) == *old(self)
                    } else {
                        r is Ok && written(*old(self), *final(self), key@, value@)
                    }
                } else if o.xx {
                    if !old(self).view_map().contains_key(key@) {
                        r matches Err(e) && e is KeyNotFound && *final(self) == *old(self)
                    } else {
                        r is Ok && written(*old(self), *final(self), key@, value@)
                    }
                } else {
                    r is Ok && written(*old(self), *final(self), key@, value@)
                },
                None => r is Ok && written(*old(self), *final(self), key@, value@),
            },
    {
        match option {
            Some(option) => {
                if option.nx {
                    return self.put_nx(key, value);
                }
                if option.xx {
                    return self.put_xx(key, value);
                }
                self.put_without_option(key, value)
            },
            None => self.put_without_option(key, value),
        }
    }

    /// Erase the key: append a tombstone record, then point the index
    /// at it. The append happens even where the key was never written.
    pub fn delete(&mut self, key: &Key) -> (r: Result<(), BitCaskError>)
        requires
            old(self).wf(),
            old(self).can_append(key@, 0),
        ensures
            final(self).wf(),
            r is Ok,
            erased(*old(self), *final(self), key@),
    {
        let index_entry = match self.disk_log.delete(key) {
            Ok(e) => e,
            Err(e) => {
                proof {
                    assert(false);
                }
                return Err(e);
            },
        };
        let ghost pre = *old(self);
        let ghost rec = RecView { check_sum: 0u32, key: key@, value: None };
        self.mem_index.put(clone_bytes(key), index_entry);
        proof {
            lemma_append_restores(pre, *self, rec, index_entry);
        }
        Ok(())
    }

    /// The prepare phase of a compaction: roll the active file
    /// forward by creating a fresh, empty one, and hand back the
    /// numbers of the immutable files — everything before the new
    /// active file. That snapshot is frozen: all later writes land
    /// outside it.
    pub fn prepare_compaction(&mut self) -> (r: Result<Vec<FileId>, BitCaskError>)
        requires
            old(self).wf(),
        ensures
            final(self).wf(),
            final(self).view_map() == old(self).view_map(),
            final(self).index_map() == old(self).index_map(),
            final(self).files().len() == old(self).files().len() + 1,
            forall|i: int|
                0 <= i < old(self).files().len() ==> final(self).files()[i] == old(
                    self,
                ).files()[i],
            final(self).files().last().data@.len() == 0,
            r matches Ok(v) && v@.len() == old(self).files().len() && (forall|i: int|
                0 <= i < v@.len() ==> v@[i] == i),
    {
        self.disk_log.create_new_file();
        proof {
            let pre = *old(self);
            assert(self.files() =~= pre.files().push(self.files().last()));
            lemma_scan_files_push_empty(
                pre.files(),
                0,
                Map::<Seq<u8>, MemIndexEntry>::empty(),
                self.files().last(),
            );
            assert(self.live_index() =~= pre.live_index());
            assert forall|k: Seq<u8>| #[trigger]
                self.index_map().contains_key(k) implies entry_in_bounds(
                self.files(),
                self.index_map()[k],
            ) by {
                assert(entry_in_bounds(pre.files(), pre.index_map()[k]));
            }
            assert(self.view_map() =~= pre.view_map());
        }
        Ok(self.disk_log.get_immutable_files())
    }

    /// The finish phase of a compaction: adopt the compacted file as
    /// file zero, carry over any file written after the snapshot that
    /// actually holds bytes — renumbered to follow file zero, so the
    /// new directory's numbers stay contiguous — and reopen the whole
    /// set from scratch. Fails — leaving the store untouched — where
    /// the reopened set does not replay.
    pub fn finish_compaction(&mut self, immutable_count: usize, compacted: LogFile) -> (r: Result<
        (),
        BitCaskError,
    >)
        requires
            old(self).wf(),
            immutable_count as int <= old(self).files().len(),
            compacted.file_id == 0,
        ensures
            match r {
                Ok(()) => final(self).wf() && final(self).live_index() == final(self).index_map(),
                Err(e) => e is CorruptedData && *final(self) == *old(self),
            },
            r is Ok ==> {
                &&& final(self).files().len() >= 1
                &&& final(self).files()[0].file_id == 0
                &&& final(self).files()[0].data@ == compacted.data@
                &&& forall|i: int|
                    immutable_count <= i < old(self).files().len() && (#[trigger] old(
                        self,
                    ).files()[i]).data@.len() > 0 ==> holds_bytes(
                        final(self).files(),
                        old(self).files()[i].data@,
                    )
            },
            (forall|i: int|
                immutable_count <= i < old(self).files().len() ==> (#[trigger] old(
                    self,
                ).files()[i]).data@.len() == 0) ==> {
                &&& (r is Err <==> spec_scan(
                    0usize,
                    compacted.data@,
                    Map::<Seq<u8>, MemIndexEntry>::empty(),
                ) is None)
                &&& (r is Ok ==> {
                    &&& final(self).files().len() == 1
                    &&& final(self).files()[0].file_id == 0
                    &&& final(self).files()[0].data@ == compacted.data@
                    &&& Some(final(self).index_map()) == spec_scan(
                        0usize,
                        compacted.data@,
                        Map::<Seq<u8>, MemIndexEntry>::empty(),
                    )
                })
            },
    {
        let ghost all_quiet = forall|i: int|
            immutable_count <= i < old(self).files().len() ==> (#[trigger] old(
                self,
            ).files()[i]).data@.len() == 0;
        let ghost compacted_v = compacted;
        let mut new_files: Vec<LogFile> = Vec::new();
        new_files.push(compacted);
        let count = self.disk_log.file_count();
        let mut i: usize = immutable_count;
        while i < count
            invariant
                *self == *old(self),
                self.wf(),
                count == self.files().len(),
                immutable_count <= i <= count,
                new_files@.len() >= 1,
                new_files@[0] == compacted_v,
                all_quiet == (forall|j: int|
                    immutable_count <= j < self.files().len() ==> (#[trigger] self.files()[j]).data@.len()
                        == 0),
                all_quiet ==> new_files@.len() == 1,
                forall|j: int|
                    0 <= j < new_files@.len() ==> (#[trigger] new_files@[j]).file_id == j,
                forall|q: int|
                    immutable_count <= q < i && (#[trigger] self.files()[q]).data@.len() > 0
                        ==> holds_bytes(new_files@, self.files()[q].data@),
            decreases count - i,
        {
            let next_number = new_files.len();
            let file_ref = self.disk_log.file_at(i);
            let flen = file_ref.data.len();
            let ghost before = new_files@;
            if flen > 0 {
                let carried = LogFile::open(next_number, clone_bytes(&file_ref.data));
                new_files.push(carried);
                proof {
                    assert forall|q: int|
                        immutable_count <= q < i + 1 && (#[trigger] self.files()[q]).data@.len()
                            > 0 implies holds_bytes(new_files@, self.files()[q].data@) by {
                        if q < i {
                            let j = choose|j: int|
                                1 <= j < before.len() && (#[trigger] before[j]).data@
                                    == self.files()[q].data@;
                            assert(new_files@[j].data@ == self.files()[q].data@);
                        } else {
                            assert(new_files@[next_number as int].data@ == self.files()[q].data@);
                        }
                    }
                }
            }
            i = i + 1;
        }
        let mut mem_index = MemIndexStorage::new();
        match DiskLogFileStorage::from_disk(&new_files, &mut mem_index) {
            Ok(disk_log) => {
                self.disk_log = disk_log;
                self.mem_index = mem_index;
                proof {
                    lemma_scan_files_valid(
                        self.files(),
                        0,
                        Map::<Seq<u8>, MemIndexEntry>::empty(),
                        self.index_map(),
                    );
                    assert(self.live_index() =~= self.index_map());
                    assert forall|q: int|
                        immutable_count <= q < old(self).files().len() && (#[trigger] old(
                            self,
                        ).files()[q]).data@.len() > 0 implies holds_bytes(
                        self.files(),
                        old(self).files()[q].data@,
                    ) by {
                        let j = choose|j: int|
                            1 <= j < new_files@.len() && (#[trigger] new_files@[j]).data@ == old(
                                self,
                            ).files()[q].data@;
                        assert(self.files()[j].data@ == new_files@[j].data@);
                    }
                    if all_quiet {
                        assert(new_files@.len() == 1 && new_files@[0] == compacted_v);
                        assert(new_files@[0].file_id == 0);
                        assert(self.files()[0].data@ == compacted_v.data@);
                        assert(spec_scan_files(
                            new_files@,
                            0,
                            Map::<Seq<u8>, MemIndexEntry>::empty(),
                        ) is Some);
                        let mc = spec_scan(
                            0usize,
                            compacted_v.data@,
                            Map::<Seq<u8>, MemIndexEntry>::empty(),
                        );
                        if mc is None {
                            assert(spec_scan_files(
                                new_files@,
                                0,
                                Map::<Seq<u8>, MemIndexEntry>::empty(),
                            ) is None);
                            assert(false);
                        }
                        assert(spec_scan_files(new_files@, 1, mc->Some_0) == Some(mc->Some_0));
                        assert(spec_scan_files(
                            new_files@,
                            0,
                            Map::<Seq<u8>, MemIndexEntry>::empty(),
                        ) == Some(mc->Some_0));
                        lemma_scan_files_congruent(
                            self.files(),
                            new_files@,
                            0,
                            Map::<Seq<u8>, MemIndexEntry>::empty(),
                        );
                        assert(Some(self.index_map()) == mc);
                    }
                }
                Ok(())
            },
            Err(e) => {
                proof {
                    if all_quiet {
                        assert(new_files@.len() == 1 && new_files@[0] == compacted_v);
                        if spec_scan(
                            0usize,
                            compacted_v.data@,
                            Map::<Seq<u8>, MemIndexEntry>::empty(),
                        ) is Some {
                            assert(spec_scan_files(
                                new_files@,
                                1,
                                spec_scan(
                                    0usize,
                                    compacted_v.data@,
                                    Map::<Seq<u8>, MemIndexEntry>::empty(),
                                )->Some_0,
                            ) is Some);
                            assert(false);
                        }
                    }
                }
                Err(e)
            },
        }
    }

    /// Compact the store: roll the active file forward, build a fresh
    /// file numbered zero that holds exactly one record per live key
    /// — all tombstones and superseded writes discarded — and switch
    /// over to it. The contents are preserved exactly; only the
    /// layout changes. The one possible failure is a compacted file
    /// that would not fit the address space, and it leaves the
    /// contents untouched.
    pub fn compact_to(&mut self) -> (r: Result<(), BitCaskError>)
        requires
            old(self).wf(),
        ensures
            final(self).wf(),
            match r {
                Ok(()) => compact_result(old(self).view_map(), *final(self)),
                Err(e) => {
                    &&& e is UnexpectedError
                    &&& final(self).view_map() == old(self).view_map()
                    &&& !image_fits(old(self).files(), old(self).live_index())
                },
            },
    {
        let ghost pre = *old(self);
        let _immutable_ids = match self.prepare_compaction() {
            Ok(v) => v,
            Err(e) => {
                proof {
                    assert(false);
                }
                return Err(e);
            },
        };
        let ghost mid = *self;
        let mut snapshot = self.disk_log.export_files();
        let ghost exported = snapshot@;
        let _active = snapshot.pop();
        proof {
            assert(snapshot@ =~= exported.take(exported.len() - 1));
            let n = pre.files().len() as int;
            assert(snapshot@.len() == n);
            assert forall|j: int| 0 <= j < n implies (#[trigger] snapshot@[j]).file_id == j
                && snapshot@[j].data@ == pre.files()[j].data@ by {
                assert(exported[j].file_id == mid.files()[j].file_id);
                assert(mid.files()[j] == pre.files()[j]);
            }
            // The snapshot replays to the live index of the store.
            assert(mid.files() =~= mid.files().take(n).push(mid.files().last()));
            lemma_scan_files_push_empty(
                mid.files().take(n),
                0,
                Map::<Seq<u8>, MemIndexEntry>::empty(),
                mid.files().last(),
            );
            lemma_scan_files_congruent(
                snapshot@,
                mid.files().take(n),
                0,
                Map::<Seq<u8>, MemIndexEntry>::empty(),
            );
            assert(spec_scan_files(snapshot@, 0, Map::<Seq<u8>, MemIndexEntry>::empty()) == Some(
                mid.live_index(),
            ));
        }
        let compacted = match start_compaction(&snapshot) {
            Ok(f) => f,
            Err(e) => {
                proof {
                    assert(!(e is CorruptedData));
                    let m = mid.live_index();
                    assert(mid.live_index() == pre.live_index());
                    assert(!image_fits(snapshot@, m));
                    assert forall|k: Seq<u8>| #[trigger]
                        m.contains_key(k) implies (m[k].file_id as int) < snapshot@.len() by {
                        assert(pre.index_map().contains_key(k));
                        assert(entry_in_bounds(pre.files(), pre.index_map()[k]));
                    }
                    lemma_image_fits_congruent(snapshot@, pre.files(), m);
                }
                return Err(e);
            },
        };
        let immutable_count = self.disk_log.file_count() - 1;
        let ghost mc = spec_scan(
            0usize,
            compacted.data@,
            Map::<Seq<u8>, MemIndexEntry>::empty(),
        );
        proof {
            let m = spec_scan_files(
                snapshot@,
                0,
                Map::<Seq<u8>, MemIndexEntry>::empty(),
            )->Some_0;
            assert(m == mid.live_index());
            let kvs = choose|kvs: Seq<(Seq<u8>, Seq<u8>)>|
                compacted_output(snapshot@, m, kvs, compacted);
            assert(compacted_output(snapshot@, m, kvs, compacted));
            assert(mc is Some);
        }
        match self.finish_compaction(immutable_count, compacted) {
            Ok(()) => {
                proof {
                    lemma_compact_view(pre, mid, *self, snapshot@, compacted);
                }
                Ok(())
            },
            Err(e) => {
                proof {
                    assert(false);
                }
                Err(e)
            },
        }
    }

    /// The tracked byte length of the active file; under the
    /// invariant it equals the file's actual length, so a host can
    /// test `can_append` before a write.
    pub fn active_file_size(&self) -> (n: u64)
        ensures
            n == self.active_size(),
    {
        self.disk_log.current_size()
    }

    /// How many log files the store holds.
    pub fn file_count(&self) -> (n: usize)
        ensures
            n == self.files().len(),
    {
        self.disk_log.file_count()
    }

    /// The number of the active log file.
    pub fn active_file_id(&self) -> (id: usize)
        requires
            self.wf(),
        ensures
            id == self.files().len() - 1,
    {
        self.disk_log.active_file_id()
    }

    /// A bytewise copy of the store's files, as the host layer keeps
    /// them on disk.
    pub fn export_files(&self) -> (v: Vec<LogFile>)
        ensures
            v@.len() == self.files().len(),
            forall|i: int|
                0 <= i < v@.len() ==> (#[trigger] v@[i]).file_id == self.files()[i].file_id
                    && v@[i].data@ == self.files()[i].data@,
    {
        self.disk_log.export_files()
    }
}

/// What a compaction of the snapshot `src` builds, where `src` replays
/// to the map `m`: a file numbered zero holding exactly one value
/// record per key of `m`, in strictly ascending key order, each
/// carrying the value its key had in the snapshot — and that file
/// replays to a map over exactly the same keys, whose entries point at
/// those same values.
pub open spec fn compacted_output(
    src: Seq<LogFile>,
    m: Map<Seq<u8>, MemIndexEntry>,
    kvs: Seq<(Seq<u8>, Seq<u8>)>,
    f: LogFile,
) -> bool {
    &&& image_of(src, m, kvs)
    &&& kvs.len() == m.dom().len()
    &&& f.data@ == spec_records_bytes(kvs)
    &&& spec_scan(0usize, f.data@, Map::<Seq<u8>, MemIndexEntry>::empty()) matches Some(m2) && {
        &&& m2.dom() == m.dom()
        &&& forall|j: int|
            0 <= j < kvs.len() ==> m2.contains_key((#[trigger] kvs[j]).0) && m2[kvs[j].0].value_size
                == kvs[j].1.len() && m2[kvs[j].0].file_id == 0 && m2[kvs[j].0].value_offset
                + m2[kvs[j].0].value_size <= f.data@.len() && f.data@.subrange(
                m2[kvs[j].0].value_offset as int,
                m2[kvs[j].0].value_offset + m2[kvs[j].0].value_size,
            ) == kvs[j].1
    }
}

/// The layout of a compacted file relative to a store's contents: one
/// value record per live key, in strictly ascending key order, each
/// carrying the key's current value — and nothing else.
pub open spec fn compacted_layout(
    view: Map<Seq<u8>, Seq<u8>>,
    kvs: Seq<(Seq<u8>, Seq<u8>)>,
    data: Seq<u8>,
) -> bool {
    &&& kvs_sorted(kvs)
    &&& kvs.len() == view.dom().len()
    &&& forall|j: int|
        0 <= j < kvs.len() ==> view.contains_key((#[trigger] kvs[j]).0) && kvs[j].1 == view[kvs[j].0]
    &&& forall|k: Seq<u8>| #[trigger] view.contains_key(k) ==> kvs_has_key(kvs, k)
    &&& data == spec_records_bytes(kvs)
}

/// What a successful compaction leaves behind: the same contents, an
/// index free of tombstones, and a single file numbered zero laid out
/// as one record per live key in key order.
pub open spec fn compact_result(pre_view: Map<Seq<u8>, Seq<u8>>, post: LogStorage) -> bool {
    &&& post.view_map() == pre_view
    &&& post.live_index() == post.index_map()
    &&& post.files().len() == 1
    &&& post.files()[0].file_id == 0
    &&& exists|kvs: Seq<(Seq<u8>, Seq<u8>)>| #[trigger] compacted_layout(
        pre_view,
        kvs,
        post.files()[0].data@,
    )
}

/// The frame of one append: every file but the active one is left
/// byte-for-byte as it was, the active file is extended by exactly the
/// record's serialized bytes, and — exactly when the tracked size
/// passes the threshold — the next file is created, empty and active.
pub open spec fn appended_frame(pre: LogStorage, post: LogStorage, r: RecView) -> bool {
    let n = pre.files().len() as int;
    &&& forall|i: int| 0 <= i < n - 1 ==> post.files()[i] == pre.files()[i]
    &&& post.files()[n - 1].file_id == pre.files()[n - 1].file_id
    &&& post.files()[n - 1].data@ == pre.files().last().data@ + spec_serialize(r)
    &&& if pre.active_size() + spec_rec_size(r) > MAX_FILE_SIZE {
        &&& post.files().len() == n + 1
        &&& post.files().last().file_id as int == n
        &&& post.files().last().data@.len() == 0
        &&& post.active_size() == 0
    } else {
        &&& post.files().len() == n
        &&& post.active_size() == pre.active_size() + spec_rec_size(r)
    }
}

/// What an unconditional write of `k` and `v` does: a nonempty value
/// becomes the key's current value, an empty one erases the key (its
/// record has value size zero on disk); either way the key is now
/// tracked by the index, and the files change only by the one
/// appended value record.
pub open spec fn written(pre: LogStorage, post: LogStorage, k: Seq<u8>, v: Seq<u8>) -> bool {
    &&& if v.len() > 0 {
        post.view_map() == pre.view_map().insert(k, v)
    } else {
        post.view_map() == pre.view_map().remove(k)
    }
    &&& post.index_map().dom() == pre.index_map().dom().insert(k)
    &&& appended_frame(
        pre,
        post,
        (RecView { check_sum: crc32_of(v), key: k, value: Some(v) }),
    )
}

/// What a delete does: the key reads as absent, stays tracked by the
/// index, and the files change only by the one appended tombstone.
pub open spec fn erased(pre: LogStorage, post: LogStorage, k: Seq<u8>) -> bool {
    &&& post.view_map() == pre.view_map().remove(k)
    &&& post.index_map().dom() == pre.index_map().dom().insert(k)
    &&& appended_frame(pre, post, (RecView { check_sum: 0u32, key: k, value: None }))
}

/// After an append of the record `r` whose returned location `e` was
/// inserted into the index, the engine is well-formed again and its
/// contents change by exactly `r`: a nonempty value is inserted, an
/// empty value or a tombstone erases the key.
proof fn lemma_append_restores(pre: LogStorage, post: LogStorage, r: RecView, e: MemIndexEntry)
    requires
        pre.wf(),
        rec_wf(r),
        appended(pre.disk_log, post.disk_log, r, e),
        post.mem_index.wf(),
        post.mem_index.as_map() == pre.mem_index.as_map().insert(r.key, e),
    ensures
        post.wf(),
        match r.value {
            Some(v) => if v.len() > 0 {
                post.view_map() == pre.view_map().insert(r.key, v)
            } else {
                post.view_map() == pre.view_map().remove(r.key)
            },
            None => post.view_map() == pre.view_map().remove(r.key),
        },
        post.index_map().dom() == pre.index_map().dom().insert(r.key),
    {
        let n = pre.files().len() as int;
        let active0 = pre.files().last();
        let old_len = active0.data@.len() as int;
        let inter = post.files().take(n);
        assert(inter.last() == post.files()[n - 1]);
        assert(forall|j: int| 0 <= j < n ==> inter[j] == post.files()[j]);
        lemma_scan_files_last_extended(
            pre.files(),
            inter,
            0,
            Map::<Seq<u8>, MemIndexEntry>::empty(),
            pre.live_index(),
            r,
        );
        let scanned = apply_record(pre.live_index(), active0.file_id, old_len, rec_norm(r));
        if post.files().len() == n + 1 {
            assert(post.files() =~= inter.push(post.files().last()));
            lemma_scan_files_push_empty(
                inter,
                0,
                Map::<Seq<u8>, MemIndexEntry>::empty(),
                post.files().last(),
            );
        } else {
            assert(post.files() =~= inter);
        }
        assert(spec_scan_files(post.files(), 0, Map::<Seq<u8>, MemIndexEntry>::empty()) == Some(
            scanned,
        ));
        // The live part of the new index is exactly the replayed map.
        assert(active0.file_id as int == n - 1);
        assert(post.live_index() =~= scanned);
        // Every entry still points into the files: old files only grew.
        assert(forall|i: int|
            0 <= i < n ==> (#[trigger] post.files()[i]).data@.len() >= pre.files()[i].data@.len());
        assert forall|k: Seq<u8>| #[trigger]
            post.index_map().contains_key(k) implies entry_in_bounds(
            post.files(),
            post.index_map()[k],
        ) by {
            if k != r.key {
                assert(pre.index_map().contains_key(k));
                assert(entry_in_bounds(pre.files(), pre.index_map()[k]));
            }
        }
        assert(post.wf());
        // Old values read back unchanged: their regions were not touched.
        assert forall|k: Seq<u8>|
            pre.index_map().contains_key(k) && pre.index_map()[k].value_size > 0 implies post.entry_value(
            pre.index_map()[k],
        ) == pre.entry_value(pre.index_map()[k]) by {
            let ek = pre.index_map()[k];
            assert(entry_in_bounds(pre.files(), ek));
            if ek.file_id as int == n - 1 {
                assert(post.files()[n - 1].data@.subrange(
                    ek.value_offset as int,
                    ek.value_offset + ek.value_size,
                ) =~= pre.files()[n - 1].data@.subrange(
                    ek.value_offset as int,
                    ek.value_offset + ek.value_size,
                ));
            } else {
                assert(post.files()[ek.file_id as int] == pre.files()[ek.file_id as int]);
            }
        }
        // The fresh record's value region holds exactly its value bytes.
        match r.value {
            Some(v) => {
                if v.len() > 0 {
                    assert(post.entry_value(e) == v) by {
                        let data = post.files()[n - 1].data@;
                        assert(data == active0.data@ + spec_serialize(r));
                        assert(spec_serialize(r).len() == spec_rec_size(r));
                        assert(data.subrange(
                            old_len + 20 + r.key.len(),
                            old_len + 20 + r.key.len() + v.len(),
                        ) =~= v);
                    }
                    assert(post.view_map() =~= pre.view_map().insert(r.key, v));
                } else {
                    assert(post.view_map() =~= pre.view_map().remove(r.key));
                }
            },
            None => {
                assert(post.view_map() =~= pre.view_map().remove(r.key));
            },
        }
        assert(post.index_map().dom() =~= pre.index_map().dom().insert(r.key));
    }

/// A finished compaction preserves the store's contents exactly and
/// lays the surviving records out as `compacted_layout` says: the
/// compacted file replays to the same live keys, each pointing at the
/// value it had before.
proof fn lemma_compact_view(
    pre: LogStorage,
    mid: LogStorage,
    post: LogStorage,
    snapshot: Seq<LogFile>,
    compacted: LogFile,
)
    requires
        pre.wf(),
        mid.index_map() == pre.index_map(),
        mid.view_map() == pre.view_map(),
        snapshot.len() == pre.files().len(),
        forall|j: int|
            0 <= j < snapshot.len() ==> (#[trigger] snapshot[j]).file_id == j && snapshot[j].data@
                == pre.files()[j].data@,
        spec_scan_files(snapshot, 0, Map::<Seq<u8>, MemIndexEntry>::empty()) == Some(
            pre.live_index(),
        ),
        start_compaction_ok(snapshot, compacted),
        post.wf(),
        post.live_index() == post.index_map(),
        post.files().len() == 1,
        post.files()[0].file_id == 0,
        post.files()[0].data@ == compacted.data@,
        Some(post.index_map()) == spec_scan(
            0usize,
            compacted.data@,
            Map::<Seq<u8>, MemIndexEntry>::empty(),
        ),
    ensures
        compact_result(pre.view_map(), post),
{
    let m = pre.live_index();
    assert(spec_scan_files(snapshot, 0, Map::<Seq<u8>, MemIndexEntry>::empty())->Some_0 == m);
    let kvs = choose|kvs: Seq<(Seq<u8>, Seq<u8>)>|
        compacted_output(
            snapshot,
            spec_scan_files(snapshot, 0, Map::<Seq<u8>, MemIndexEntry>::empty())->Some_0,
            kvs,
            compacted,
        );
    assert(compacted_output(snapshot, m, kvs, compacted));
    let m2 = spec_scan(0usize, compacted.data@, Map::<Seq<u8>, MemIndexEntry>::empty())->Some_0;
    assert(post.index_map() == m2);
    assert(m2.dom() == m.dom());
    assert forall|k: Seq<u8>| #[trigger]
        m.contains_key(k) implies m[k] == pre.index_map()[k] && m[k].value_size > 0
        && files_entry_value(snapshot, m[k]) == pre.entry_value(m[k]) by {
        assert(pre.index_map().contains_key(k));
        assert(entry_in_bounds(pre.files(), pre.index_map()[k]));
        let e = m[k];
        assert(snapshot[e.file_id as int].data@ == pre.files()[e.file_id as int].data@);
    }
    assert(pre.view_map().dom() =~= m.dom());
    assert forall|k: Seq<u8>| #[trigger]
        post.view_map().contains_key(k) implies pre.view_map().contains_key(k)
        && post.view_map()[k] == pre.view_map()[k] by {
        assert(m2.dom().contains(k));
        assert(m.contains_key(k));
        assert(kvs_has_key(kvs, k));
        let j = choose|j: int| 0 <= j < kvs.len() && (#[trigger] kvs[j]).0 == k;
        assert(m2.contains_key(kvs[j].0) && compacted.data@.subrange(
            m2[kvs[j].0].value_offset as int,
            m2[kvs[j].0].value_offset + m2[kvs[j].0].value_size,
        ) == kvs[j].1);
        assert(post.view_map()[k] == compacted.data@.subrange(
            m2[k].value_offset as int,
            m2[k].value_offset + m2[k].value_size,
        ));
        assert(kvs[j].1 == files_entry_value(snapshot, m[k]));
        assert(pre.view_map()[k] == pre.entry_value(pre.index_map()[k]));
    }
    assert forall|k: Seq<u8>| #[trigger]
        pre.view_map().contains_key(k) implies post.view_map().contains_key(k) by {
        assert(m.contains_key(k));
        assert(m2.dom().contains(k));
        assert(kvs_has_key(kvs, k));
        let j = choose|j: int| 0 <= j < kvs.len() && (#[trigger] kvs[j]).0 == k;
        assert(m2[kvs[j].0].value_size == kvs[j].1.len());
        assert(kvs[j].1 == files_entry_value(snapshot, m[k]));
        assert(kvs[j].1.len() == m[k].value_size);
        assert(m2[k].value_size > 0);
        assert(post.live_index().contains_key(k));
    }
    assert(post.view_map() =~= pre.view_map());
    assert(compacted_layout(pre.view_map(), kvs, post.files()[0].data@)) by {
        assert(pre.view_map().dom() == m.dom());
        assert forall|j: int|
            0 <= j < kvs.len() implies pre.view_map().contains_key((#[trigger] kvs[j]).0)
            && kvs[j].1 == pre.view_map()[kvs[j].0] by {
            assert(m.contains_key(kvs[j].0));
            assert(kvs[j].1 == files_entry_value(snapshot, m[kvs[j].0]));
        }
    }
    assert(exists|kvs2: Seq<(Seq<u8>, Seq<u8>)>| #[trigger] compacted_layout(
        pre.view_map(),
        kvs2,
        post.files()[0].data@,
    )) by {
        assert(compacted_layout(pre.view_map(), kvs, post.files()[0].data@));
    }
}

/// The build phase of a compaction: replay the immutable snapshot into
/// a local index — the replay itself erases tombstoned keys — then
/// write one fresh value record per surviving key, in ascending key
/// order, into a new file numbered zero. The snapshot is read, never
/// written; the caller decides what to do with the result.
/// What a successful build phase guarantees: the snapshot replays to
/// some map, and the returned file is a compacted image of it.
pub open spec fn start_compaction_ok(src: Seq<LogFile>, f: LogFile) -> bool {
    &&& f.file_id == 0
    &&& spec_scan_files(src, 0, Map::<Seq<u8>, MemIndexEntry>::empty()) is Some
    &&& exists|kvs: Seq<(Seq<u8>, Seq<u8>)>| #[trigger] compacted_output(
        src,
        spec_scan_files(src, 0, Map::<Seq<u8>, MemIndexEntry>::empty())->Some_0,
        kvs,
        f,
    )
}

#[verifier::rlimit(60)]
pub fn start_compaction(immutable_files: &Vec<LogFile>) -> (r: Result<LogFile, BitCaskError>)
    requires
        immutable_files@.len() >= 1,
        forall|i: int|
            0 <= i < immutable_files@.len() ==> (#[trigger] immutable_files@[i]).file_id == i,
    ensures
        match r {
            Ok(f) => start_compaction_ok(immutable_files@, f),
            Err(e) => e is CorruptedData || e is UnexpectedError,
        },
        spec_scan_files(immutable_files@, 0, Map::<Seq<u8>, MemIndexEntry>::empty()) is Some
            ==> !(r matches Err(e) && e is CorruptedData),
        (spec_scan_files(immutable_files@, 0, Map::<Seq<u8>, MemIndexEntry>::empty())
            matches Some(m) && image_fits(immutable_files@, m)) ==> r is Ok,
{
    let ghost src = immutable_files@;
    let mut mem_index = MemIndexStorage::new();
    let disk_logs = match DiskLogFileStorage::immutable_initialization(
        immutable_files,
        &mut mem_index,
    ) {
        Ok(d) => d,
        Err(e) => {
            return Err(e);
        },
    };
    let ghost m = mem_index.as_map();
    proof {
        lemma_scan_files_congruent(
            disk_logs.log_files(),
            src,
            0,
            Map::<Seq<u8>, MemIndexEntry>::empty(),
        );
        lemma_scan_files_valid(
            disk_logs.log_files(),
            0,
            Map::<Seq<u8>, MemIndexEntry>::empty(),
            m,
        );
        mem_index.lemma_pairs();
    }
    let entries = mem_index.into_entries();
    let built_file = match build_compacted_file(&disk_logs, entries, Ghost(m), Ghost(src)) {
        Ok(p) => p,
        Err(e) => {
            proof {
                assert(spec_scan_files(
                    immutable_files@,
                    0,
                    Map::<Seq<u8>, MemIndexEntry>::empty(),
                ) == Some(m));
                assert(!image_fits(immutable_files@, m));
            }
            return Err(e);
        },
    };
    let (new_log_file, witness) = built_file;
    proof {
        let kvs = witness@;
        assert(spec_scan_files(immutable_files@, 0, Map::<Seq<u8>, MemIndexEntry>::empty())
            == Some(m));
        let mm = spec_scan_files(
            immutable_files@,
            0,
            Map::<Seq<u8>, MemIndexEntry>::empty(),
        )->Some_0;
        assert(mm == m);
        assert(compacted_output(immutable_files@, mm, kvs, new_log_file));
        assert(exists|kvs2: Seq<(Seq<u8>, Seq<u8>)>| #[trigger] compacted_output(
            immutable_files@,
            mm,
            kvs2,
            new_log_file,
        )) by {
            assert(compacted_output(immutable_files@, mm, kvs, new_log_file));
        }
        assert(start_compaction_ok(immutable_files@, new_log_file));
    }
    Ok(new_log_file)
}

/// Write one value record per pair of the sorted local index into a
/// fresh file numbered zero, reading each value back from the
/// snapshot. Returns the file together with the pairs it holds.
#[verifier::rlimit(60)]
fn build_compacted_file(
    disk_logs: &DiskLogFileStorage,
    entries: Vec<(Key, MemIndexEntry)>,
    Ghost(m): Ghost<Map<Seq<u8>, MemIndexEntry>>,
    Ghost(src): Ghost<Seq<LogFile>>,
) -> (r: Result<(LogFile, Ghost<Seq<(Seq<u8>, Seq<u8>)>>), BitCaskError>)
    requires
        sorted(entries@),
        m.dom().len() == entries@.len(),
        forall|j: int|
            0 <= j < entries@.len() ==> m.contains_key((#[trigger] entries@[j]).0@)
                && m[entries@[j].0@] == entries@[j].1,
        forall|k: Seq<u8>| #[trigger] m.contains_key(k) ==> has_key(entries@, k),
        disk_logs.log_files().len() == src.len(),
        forall|j: int|
            0 <= j < src.len() ==> (#[trigger] disk_logs.log_files()[j]).file_id == j
                && disk_logs.log_files()[j].data@ == src[j].data@,
        forall|k: Seq<u8>| #[trigger]
            m.contains_key(k) ==> m[k].value_size > 0 && entry_in_bounds(
                disk_logs.log_files(),
                m[k],
            ),
    ensures
        match r {
            Ok(p) => p.0.file_id == 0 && compacted_output(src, m, p.1@, p.0),
            Err(e) => e is UnexpectedError && !image_fits(src, m),
        },
{
    let ghost pairs0 = entries@;
    let mut new_log_file = LogFile::new(0);
    let n = entries.len();
    let mut i: usize = 0;
    let ghost mut kvs: Seq<(Seq<u8>, Seq<u8>)> = Seq::empty();
    let ghost mut built: Map<Seq<u8>, MemIndexEntry> = Map::empty();
    while i < n
        invariant
            n == entries@.len(),
            i <= n,
            entries@ == pairs0,
            sorted(pairs0),
            m.dom().len() == n,
            forall|j: int|
                0 <= j < n ==> m.contains_key((#[trigger] pairs0[j]).0@) && m[pairs0[j].0@]
                    == pairs0[j].1,
            forall|k: Seq<u8>| #[trigger] m.contains_key(k) ==> has_key(pairs0, k),
            disk_logs.log_files().len() == src.len(),
            forall|j: int|
                0 <= j < src.len() ==> (#[trigger] disk_logs.log_files()[j]).file_id == j
                    && disk_logs.log_files()[j].data@ == src[j].data@,
            forall|k: Seq<u8>| #[trigger]
                m.contains_key(k) ==> m[k].value_size > 0 && entry_in_bounds(
                    disk_logs.log_files(),
                    m[k],
                ),
            kvs.len() == i,
            forall|j: int|
                0 <= j < i ==> (#[trigger] kvs[j]) == (
                    pairs0[j].0@,
                    files_entry_value(src, pairs0[j].1),
                ),
            new_log_file.file_id == 0,
            new_log_file.data@ == spec_records_bytes(kvs),
            spec_scan(0usize, new_log_file.data@, Map::<Seq<u8>, MemIndexEntry>::empty())
                == Some(built),
            forall|k: Seq<u8>| #[trigger] built.contains_key(k) ==> kvs_has_key(kvs, k),
            forall|j: int|
                0 <= j < i ==> built.contains_key((#[trigger] kvs[j]).0) && built[kvs[j].0].value_size
                    == kvs[j].1.len() && built[kvs[j].0].file_id == 0
                    && built[kvs[j].0].value_offset + built[kvs[j].0].value_size
                    <= new_log_file.data@.len() && new_log_file.data@.subrange(
                    built[kvs[j].0].value_offset as int,
                    built[kvs[j].0].value_offset + built[kvs[j].0].value_size,
                ) == kvs[j].1,
        decreases n - i,
    {
        let e = entries[i].1;
        proof {
            assert(m.contains_key(pairs0[i as int].0@) && m[pairs0[i as int].0@] == e);
        }
        let value = match disk_logs.get(&e) {
            Ok(v) => v,
            Err(_) => {
                proof {
                    assert(false);
                }
                return Err(BitCaskError::UnexpectedError("value region vanished".to_owned()));
            },
        };
        let ghost vbytes = value@;
        proof {
            assert(vbytes == files_entry_value(src, e));
        }
        let dl = new_log_file.data.len();
        let kl = entries[i].0.len();
        let vl = value.len();
        if kl > usize::MAX - 20 || vl > usize::MAX - 20 - kl || dl > usize::MAX - 20 - kl - vl {
            proof {
                // The full image already written plus this record
                // exceeds the address space, so no image fits.
                let full = Seq::new(
                    pairs0.len(),
                    |j: int| (pairs0[j].0@, files_entry_value(src, pairs0[j].1)),
                );
                assert(kvs_sorted(full)) by {
                    assert forall|p: int, q: int| 0 <= p < q < full.len() implies lex_lt(
                        (#[trigger] full[p]).0,
                        (#[trigger] full[q]).0,
                    ) by {
                        assert(full[p].0 == pairs0[p].0@ && full[q].0 == pairs0[q].0@);
                    }
                }
                assert forall|j: int|
                    0 <= j < full.len() implies m.contains_key((#[trigger] full[j]).0)
                    && full[j].1 == files_entry_value(src, m[full[j].0]) by {
                    assert(m.contains_key(pairs0[j].0@) && m[pairs0[j].0@] == pairs0[j].1);
                }
                assert forall|k: Seq<u8>| #[trigger] m.contains_key(k) implies kvs_has_key(
                    full,
                    k,
                ) by {
                    let j = choose|j: int| 0 <= j < pairs0.len() && (#[trigger] pairs0[j]).0@ == k;
                    assert(full[j].0 == k);
                }
                assert(image_of(src, m, full));
                assert(full.take(i as int) =~= kvs);
                assert(full[i as int].0.len() == kl);
                assert(full[i as int].1 == vbytes);
                lemma_records_bytes_prefix(full, i as int);
                assert(spec_records_bytes(full).len() > usize::MAX);
                assert(!image_fits(src, m));
            }
            return Err(
                BitCaskError::UnexpectedError(
                    "compacted file would exceed the address space".to_owned(),
                ),
            );
        }
        let entry = DiskLogEntry::new_entry(clone_bytes(&entries[i].0), value);
        let ghost rec = entry@;
        let ghost old_data = new_log_file.data@;
        let ghost old_built = built;
        let ghost old_kvs = kvs;
        let value_offset = new_log_file.append_new_entry(&entry);
        proof {
            let key = pairs0[i as int].0@;
            lemma_scan_append(
                0usize,
                old_data,
                0,
                Map::<Seq<u8>, MemIndexEntry>::empty(),
                old_built,
                rec,
            );
            assert(rec_norm(rec) == rec);
            let new_entry = MemIndexEntry {
                file_id: 0usize,
                value_offset: (old_data.len() + 20 + key.len()) as u64,
                value_size: vbytes.len() as u64,
            };
            built = old_built.insert(key, new_entry);
            kvs = old_kvs.push((key, vbytes));
            assert(apply_record(old_built, 0usize, old_data.len() as int, rec) == built);
            // the new file contents are the records of the pairs so far
            assert(kvs.drop_last() =~= old_kvs);
            assert(new_log_file.data@ == spec_records_bytes(kvs));
            // previous keys differ from this one, and their regions are
            // unchanged by the append
            assert forall|j: int| 0 <= j < i implies (#[trigger] kvs[j]).0 != key by {
                assert(kvs[j] == old_kvs[j]);
                assert(lex_lt(pairs0[j].0@, key));
                if kvs[j].0 == key {
                    lemma_lex_irrefl(key);
                }
            }
            assert forall|j: int|
                0 <= j < i + 1 implies built.contains_key((#[trigger] kvs[j]).0) && built[kvs[j].0].value_size
                == kvs[j].1.len() && built[kvs[j].0].file_id == 0 && built[kvs[j].0].value_offset
                + built[kvs[j].0].value_size <= new_log_file.data@.len()
                && new_log_file.data@.subrange(
                built[kvs[j].0].value_offset as int,
                built[kvs[j].0].value_offset + built[kvs[j].0].value_size,
            ) == kvs[j].1 by {
                if j < i {
                    assert(kvs[j] == old_kvs[j]);
                    assert(built[kvs[j].0] == old_built[kvs[j].0]);
                    assert(new_log_file.data@.subrange(
                        old_built[kvs[j].0].value_offset as int,
                        old_built[kvs[j].0].value_offset + old_built[kvs[j].0].value_size,
                    ) =~= old_data.subrange(
                        old_built[kvs[j].0].value_offset as int,
                        old_built[kvs[j].0].value_offset + old_built[kvs[j].0].value_size,
                    ));
                } else {
                    assert(kvs[j] == (key, vbytes));
                    assert(built[key] == new_entry);
                    assert(spec_serialize(rec).len() == spec_rec_size(rec));
                    assert(new_log_file.data@.subrange(
                        old_data.len() + 20 + key.len() as int,
                        old_data.len() + 20 + key.len() + vbytes.len() as int,
                    ) =~= vbytes);
                }
            }
            assert forall|k: Seq<u8>| #[trigger] built.contains_key(k) implies kvs_has_key(
                kvs,
                k,
            ) by {
                if k == key {
                    assert(kvs[i as int].0 == k);
                } else {
                    assert(old_built.contains_key(k));
                    let j = choose|j: int| 0 <= j < old_kvs.len() && (#[trigger] old_kvs[j]).0 == k;
                    assert(kvs[j].0 == k);
                }
            }
        }
        i = i + 1;
    }
    proof {
        // the replay of the snapshot and of the built file cover the
        // same keys
        assert forall|k: Seq<u8>| #[trigger] m.contains_key(k) implies built.contains_key(k) by {
            let j = choose|j: int| 0 <= j < pairs0.len() && (#[trigger] pairs0[j]).0@ == k;
            assert(kvs[j].0 == k);
            assert(built.contains_key(kvs[j].0));
        }
        assert forall|k: Seq<u8>| #[trigger] built.contains_key(k) implies m.contains_key(k) by {
            let j = choose|j: int| 0 <= j < kvs.len() && (#[trigger] kvs[j]).0 == k;
            assert(m.contains_key(pairs0[j].0@));
        }
        assert(built.dom() =~= m.dom());
        assert(kvs_sorted(kvs)) by {
            assert forall|p: int, q: int| 0 <= p < q < kvs.len() implies lex_lt(
                (#[trigger] kvs[p]).0,
                (#[trigger] kvs[q]).0,
            ) by {
                assert(kvs[p].0 == pairs0[p].0@ && kvs[q].0 == pairs0[q].0@);
            }
        }
        assert(compacted_output(src, m, kvs, new_log_file));
    }
    Ok((new_log_file, Ghost(kvs)))
}

} // verus!


