use bitcask::memory_index::{key_eq, key_lt, MemIndexEntry, MemIndexStorage};

fn entry(file_id: usize, value_offset: u64, value_size: u64) -> MemIndexEntry {
    MemIndexEntry { file_id, value_offset, value_size }
}

#[test]
fn key_order_is_bytewise() {
    assert!(key_lt(&b"a".to_vec(), &b"b".to_vec()));
    assert!(key_lt(&b"a".to_vec(), &b"ab".to_vec()));
    assert!(key_lt(&Vec::new(), &b"a".to_vec()));
    assert!(!key_lt(&b"b".to_vec(), &b"ab".to_vec()));
    assert!(!key_lt(&b"a".to_vec(), &b"a".to_vec()));
    assert!(key_eq(&b"abc".to_vec(), &b"abc".to_vec()));
    assert!(!key_eq(&b"abc".to_vec(), &b"abd".to_vec()));
    assert!(!key_eq(&b"abc".to_vec(), &b"ab".to_vec()));
}

#[test]
fn put_get_delete_size() {
    let mut index = MemIndexStorage::new();
    assert_eq!(index.size(), 0);
    assert_eq!(index.get(&b"k".to_vec()), None);
    assert_eq!(index.put(b"k".to_vec(), entry(0, 20, 5)), None);
    assert_eq!(index.size(), 1);
    assert_eq!(index.get(&b"k".to_vec()), Some(entry(0, 20, 5)));
    let prev = index.put(b"k".to_vec(), entry(1, 40, 7));
    assert_eq!(prev, Some(entry(0, 20, 5)));
    assert_eq!(index.size(), 1);
    assert_eq!(index.get(&b"k".to_vec()), Some(entry(1, 40, 7)));
    assert_eq!(index.delete(&b"k".to_vec()), Some(entry(1, 40, 7)));
    assert_eq!(index.size(), 0);
    assert_eq!(index.delete(&b"k".to_vec()), None);
}

#[test]
fn tombstone_entry_is_size_zero() {
    assert!(entry(0, 0, 0).is_tombstone());
    assert!(!entry(0, 0, 1).is_tombstone());
}

#[test]
fn entries_come_out_in_key_order() {
    let mut index = MemIndexStorage::new();
    index.put(b"mango".to_vec(), entry(0, 1, 1));
    index.put(b"apple".to_vec(), entry(0, 2, 1));
    index.put(b"zebra".to_vec(), entry(0, 3, 1));
    index.put(b"app".to_vec(), entry(0, 4, 1));
    let keys: Vec<Vec<u8>> = index.into_entries().into_iter().map(|p| p.0).collect();
    assert_eq!(
        keys,
        vec![b"app".to_vec(), b"apple".to_vec(), b"mango".to_vec(), b"zebra".to_vec()]
    );
}
