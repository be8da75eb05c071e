use bitcask::bitcask::PutOption;
use bitcask::disk_logs::DiskLogFileStorage;
use bitcask::error::BitCaskError;
use bitcask::memory_index::{MemIndexEntry, MemIndexStorage};
use bitcask::log_entry::DiskLogEntry;
use bitcask::log_file::LogFile;
use bitcask::storage::LogStorage;

fn fresh_store() -> LogStorage {
    LogStorage::new(&Vec::new()).expect("an empty directory opens")
}

fn put(store: &mut LogStorage, key: &[u8], value: &[u8]) {
    store.put(&key.to_vec(), &value.to_vec(), PutOption::none()).expect("put succeeds");
}

fn get(store: &LogStorage, key: &[u8]) -> Option<Vec<u8>> {
    store.get(&key.to_vec())
}

fn reopen(store: &LogStorage) -> Result<LogStorage, BitCaskError> {
    LogStorage::new(&store.export_files())
}

#[test]
fn scenario_basic_put_get_delete() {
    let mut store = fresh_store();
    put(&mut store, b"a", b"1");
    put(&mut store, b"b", b"2");
    assert_eq!(get(&store, b"a"), Some(b"1".to_vec()));
    assert_eq!(get(&store, b"b"), Some(b"2".to_vec()));
    store.delete(&b"a".to_vec()).expect("delete succeeds");
    assert_eq!(get(&store, b"a"), None);
    assert_eq!(store.size(), 2);
}

#[test]
fn scenario_nx_then_xx() {
    let mut store = fresh_store();
    put(&mut store, b"k", b"v1");
    let err = store.put(&b"k".to_vec(), &b"v2".to_vec(), PutOption::nx()).unwrap_err();
    assert!(matches!(err, BitCaskError::KeyExists));
    store.put(&b"k".to_vec(), &b"v3".to_vec(), PutOption::xx()).expect("xx on a live key");
    assert_eq!(get(&store, b"k"), Some(b"v3".to_vec()));
}

#[test]
fn scenario_xx_then_nx() {
    let mut store = fresh_store();
    let err = store.put(&b"k".to_vec(), &b"v1".to_vec(), PutOption::xx()).unwrap_err();
    assert!(matches!(err, BitCaskError::KeyNotFound));
    store.put(&b"k".to_vec(), &b"v1".to_vec(), PutOption::nx()).expect("nx on an absent key");
    let err = store.put(&b"k".to_vec(), &b"v2".to_vec(), PutOption::nx()).unwrap_err();
    assert!(matches!(err, BitCaskError::KeyExists));
}

#[test]
fn nx_succeeds_after_delete() {
    let mut store = fresh_store();
    put(&mut store, b"k", b"v");
    store.delete(&b"k".to_vec()).expect("delete succeeds");
    // The key is tombstoned: NX treats it as absent, XX as missing.
    let err = store.put(&b"k".to_vec(), &b"w".to_vec(), PutOption::xx()).unwrap_err();
    assert!(matches!(err, BitCaskError::KeyNotFound));
    store.put(&b"k".to_vec(), &b"w".to_vec(), PutOption::nx()).expect("nx on a tombstoned key");
    assert_eq!(get(&store, b"k"), Some(b"w".to_vec()));
}

#[test]
fn last_write_wins() {
    let mut store = fresh_store();
    put(&mut store, b"k", b"v1");
    put(&mut store, b"k", b"v2");
    put(&mut store, b"other", b"x");
    put(&mut store, b"k", b"v3");
    assert_eq!(get(&store, b"k"), Some(b"v3".to_vec()));
    assert_eq!(store.size(), 2);
}

#[test]
fn empty_value_erases_like_delete() {
    let mut store = fresh_store();
    put(&mut store, b"k", b"v");
    put(&mut store, b"k", b"");
    assert_eq!(get(&store, b"k"), None);
    assert_eq!(store.size(), 1);
}

#[test]
fn delete_of_absent_key_appends_tombstone() {
    let mut store = fresh_store();
    store.delete(&b"ghost".to_vec()).expect("delete always succeeds");
    assert_eq!(get(&store, b"ghost"), None);
    assert_eq!(store.size(), 1);
    // the tombstone's bytes really landed in the active file
    let files = store.export_files();
    assert_eq!(files.len(), 1);
    assert_eq!(files[0].data.len(), 20 + 5);
}

#[test]
fn durability_across_reopen() {
    let mut store = fresh_store();
    put(&mut store, b"a", b"1");
    put(&mut store, b"b", b"2");
    put(&mut store, b"c", b"3");
    store.delete(&b"b".to_vec()).expect("delete succeeds");
    put(&mut store, b"a", b"1x");
    let back = reopen(&store).expect("the same files open again");
    assert_eq!(back.get(&b"a".to_vec()), Some(b"1x".to_vec()));
    assert_eq!(back.get(&b"b".to_vec()), None);
    assert_eq!(back.get(&b"c".to_vec()), Some(b"3".to_vec()));
    // live keys only: the reopened index drops replayed tombstones
    assert_eq!(back.size(), 2);
}

#[test]
fn size_counts_tombstones_until_compaction() {
    let mut store = fresh_store();
    put(&mut store, b"a", b"1");
    put(&mut store, b"b", b"2");
    store.delete(&b"a".to_vec()).expect("delete succeeds");
    store.delete(&b"never".to_vec()).expect("delete succeeds");
    assert_eq!(store.size(), 3);
    store.compact_to().expect("compaction succeeds");
    assert_eq!(store.size(), 1);
}

fn expected_record(key: &[u8], value: &[u8]) -> Vec<u8> {
    let mut buf = Vec::new();
    DiskLogEntry::new_entry(key.to_vec(), value.to_vec()).serialize(&mut buf);
    buf
}

#[test]
fn scenario_compaction() {
    let mut store = fresh_store();
    put(&mut store, b"x", b"1");
    put(&mut store, b"y", b"2");
    store.delete(&b"x".to_vec()).expect("delete succeeds");
    store.compact_to().expect("compaction succeeds");
    // the new directory holds file 0 only
    let files = store.export_files();
    assert_eq!(files.len(), 1);
    assert_eq!(files[0].file_id, 0);
    assert_eq!(get(&store, b"x"), None);
    assert_eq!(get(&store, b"y"), Some(b"2".to_vec()));
    assert_eq!(store.size(), 1);
    // exactly one record, the live key's
    assert_eq!(files[0].data, expected_record(b"y", b"2"));
}

#[test]
fn compaction_preserves_contents_and_orders_records() {
    let mut store = fresh_store();
    put(&mut store, b"mango", b"1");
    put(&mut store, b"apple", b"2");
    put(&mut store, b"zebra", b"3");
    put(&mut store, b"mango", b"4");
    store.delete(&b"zebra".to_vec()).expect("delete succeeds");
    put(&mut store, b"cherry", b"5");
    store.compact_to().expect("compaction succeeds");
    assert_eq!(get(&store, b"apple"), Some(b"2".to_vec()));
    assert_eq!(get(&store, b"cherry"), Some(b"5".to_vec()));
    assert_eq!(get(&store, b"mango"), Some(b"4".to_vec()));
    assert_eq!(get(&store, b"zebra"), None);
    assert_eq!(store.size(), 3);
    // one record per live key, in ascending key order
    let mut expected = Vec::new();
    expected.extend_from_slice(&expected_record(b"apple", b"2"));
    expected.extend_from_slice(&expected_record(b"cherry", b"5"));
    expected.extend_from_slice(&expected_record(b"mango", b"4"));
    let files = store.export_files();
    assert_eq!(files.len(), 1);
    assert_eq!(files[0].data, expected);
    // reopening the compacted directory agrees too
    let back = reopen(&store).expect("the compacted files open");
    assert_eq!(back.get(&b"mango".to_vec()), Some(b"4".to_vec()));
    assert_eq!(back.size(), 3);
}

#[test]
fn compaction_carries_concurrent_writes() {
    // The lock-free build: a write lands after prepare froze the
    // snapshot. Finish must carry it into the new directory, and it
    // gets the number right after the compacted file so the set stays
    // contiguous.
    let mut store = fresh_store();
    put(&mut store, b"a", b"1");
    store.prepare_compaction().expect("first roll succeeds");
    put(&mut store, b"b", b"2");
    store.prepare_compaction().expect("second roll succeeds");
    put(&mut store, b"a", b"1x");
    // the compaction under test
    let ids = store.prepare_compaction().expect("prepare succeeds");
    assert_eq!(ids, vec![0, 1, 2]);
    put(&mut store, b"c", b"3");
    let mut snapshot = store.export_files();
    snapshot.truncate(ids.len());
    let compacted = bitcask::storage::start_compaction(&snapshot).expect("build succeeds");
    store.finish_compaction(ids.len(), compacted).expect("finish succeeds");
    // file 3, written during the build, was carried over as file 1
    let files = store.export_files();
    assert_eq!(files.len(), 2);
    assert_eq!(files[0].file_id, 0);
    assert_eq!(files[1].file_id, 1);
    assert_eq!(files[1].data, expected_record(b"c", b"3"));
    assert_eq!(get(&store, b"a"), Some(b"1x".to_vec()));
    assert_eq!(get(&store, b"b"), Some(b"2".to_vec()));
    assert_eq!(get(&store, b"c"), Some(b"3".to_vec()));
    assert_eq!(store.size(), 3);
    // and the carried write survives a reopen
    let back = reopen(&store).expect("the new directory opens");
    assert_eq!(back.get(&b"c".to_vec()), Some(b"3".to_vec()));
}

#[test]
fn scenario_torn_write() {
    let mut store = fresh_store();
    put(&mut store, b"k", b"v");
    put(&mut store, b"k", b"v2");
    let len_after_two = store.export_files()[0].data.len();
    put(&mut store, b"k", b"v3");
    // crash-simulate: the third record is half written
    let mut files = store.export_files();
    files[0].data.truncate(len_after_two + 7);
    let err = LogStorage::new(&files).unwrap_err();
    assert!(matches!(err, BitCaskError::CorruptedData(_)));
}

#[test]
fn corrupted_value_fails_recovery() {
    let mut store = fresh_store();
    put(&mut store, b"key", b"value");
    let files = store.export_files();
    // the value region of the single record
    let value_start = 20 + 3;
    let value_end = value_start + 5;
    for byte in value_start..value_end {
        for bit in 0..8 {
            let mut bad = vec![LogFile { file_id: 0, data: files[0].data.clone() }];
            bad[0].data[byte] ^= 1 << bit;
            let err = LogStorage::new(&bad).unwrap_err();
            assert!(matches!(err, BitCaskError::CorruptedData(_)));
        }
    }
}

#[test]
fn recovery_ignores_nothing_and_orders_files() {
    // files handed over in any order are replayed oldest first
    let mut store = fresh_store();
    put(&mut store, b"k", b"old");
    // force a second file by rolling over manually through compaction
    // plumbing: prepare creates file 1
    store.prepare_compaction().expect("prepare succeeds");
    put(&mut store, b"k", b"new");
    let mut files = store.export_files();
    files.reverse();
    let back = LogStorage::new(&files).expect("unordered files still open");
    assert_eq!(back.get(&b"k".to_vec()), Some(b"new".to_vec()));
}

#[test]
fn noncontiguous_file_numbers_are_rejected() {
    let mut store = fresh_store();
    put(&mut store, b"k", b"v");
    let mut files = store.export_files();
    files[0].file_id = 3;
    let err = LogStorage::new(&files).unwrap_err();
    assert!(matches!(err, BitCaskError::CorruptedData(_)));
}

#[test]
fn writes_span_multiple_files() {
    // Exceeding the 1 GiB rollover threshold in a test is impractical,
    // but the multi-file write path is the same one compaction's
    // prepare phase takes: records land in the new active file and
    // reads reach back into the old one.
    let mut store = fresh_store();
    put(&mut store, b"old", b"1");
    store.prepare_compaction().expect("prepare succeeds");
    put(&mut store, b"new", b"2");
    assert_eq!(store.file_count(), 2);
    assert_eq!(store.active_file_id(), 1);
    let files = store.export_files();
    assert_eq!(files[0].file_id, 0);
    assert_eq!(files[1].file_id, 1);
    assert_eq!(get(&store, b"old"), Some(b"1".to_vec()));
    assert_eq!(get(&store, b"new"), Some(b"2".to_vec()));
    // and the second file really holds the second record only
    assert_eq!(files[1].data, expected_record(b"new", b"2"));
    let back = reopen(&store).expect("both files replay");
    assert_eq!(back.get(&b"old".to_vec()), Some(b"1".to_vec()));
    assert_eq!(back.get(&b"new".to_vec()), Some(b"2".to_vec()));
}

#[test]
fn error_messages() {
    assert_eq!(BitCaskError::KeyExists.message(), "Key already exists");
    assert_eq!(BitCaskError::KeyNotFound.message(), "Key does not exist");
}

#[test]
fn put_options_have_the_right_flags() {
    assert!(PutOption::none().is_none());
    let nx = PutOption::nx().unwrap();
    assert!(nx.nx && !nx.xx);
    let xx = PutOption::xx().unwrap();
    assert!(!xx.nx && xx.xx);
}

#[test]
fn positioned_read_past_end_is_io_error() {
    let file = bitcask::log_file::LogFile::open(0, b"abcdef".to_vec());
    assert_eq!(file.read_value(2, 4).unwrap(), b"cdef".to_vec());
    let err = file.read_value(3, 4).unwrap_err();
    assert!(matches!(err, BitCaskError::IoError(_)));
    let err = file.read_value(7, 1).unwrap_err();
    assert!(matches!(err, BitCaskError::IoError(_)));
}

#[test]
fn read_through_missing_file_is_unexpected_error() {
    let mut index = MemIndexStorage::new();
    let disk = DiskLogFileStorage::from_disk(&Vec::new(), &mut index).expect("fresh set");
    let stray = MemIndexEntry { file_id: 5, value_offset: 0, value_size: 1 };
    let err = disk.get(&stray).unwrap_err();
    assert!(matches!(err, BitCaskError::UnexpectedError(_)));
}
