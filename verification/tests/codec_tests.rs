use bitcask::log_entry::DiskLogEntry;

fn record_bytes(entry: &DiskLogEntry) -> Vec<u8> {
    let mut buf = Vec::new();
    entry.serialize(&mut buf);
    buf
}

#[test]
fn checksum_matches_known_vector() {
    // CRC-32/CKSUM of "123456789" is 0x765E7680.
    let entry = DiskLogEntry::new_entry(b"k".to_vec(), b"123456789".to_vec());
    assert_eq!(entry.check_sum, 0x765E7680);
    assert!(entry.is_valid());
}

#[test]
fn tampered_value_is_invalid() {
    let mut entry = DiskLogEntry::new_entry(b"k".to_vec(), b"hello".to_vec());
    assert!(entry.is_valid());
    entry.value = Some(b"hellp".to_vec());
    assert!(!entry.is_valid());
}

#[test]
fn serialized_layout_is_exact() {
    let entry = DiskLogEntry::new_entry(b"ab".to_vec(), b"xyz".to_vec());
    let buf = record_bytes(&entry);
    assert_eq!(buf.len(), 25);
    assert_eq!(entry.total_byte_size(), 25);
    assert_eq!(entry.value_byte_offset(), 22);
    assert_eq!(entry.key_byte_size(), 2);
    assert_eq!(entry.value_byte_size(), 3);
    assert_eq!(DiskLogEntry::check_sum_byte_size(), 4);
    assert_eq!(DiskLogEntry::size_byte_len(), 8);
    // checksum, big-endian
    let c = entry.check_sum;
    assert_eq!(&buf[0..4], &c.to_be_bytes());
    // key size 2, value size 3, big-endian u64
    assert_eq!(&buf[4..12], &2u64.to_be_bytes());
    assert_eq!(&buf[12..20], &3u64.to_be_bytes());
    assert_eq!(&buf[20..22], b"ab");
    assert_eq!(&buf[22..25], b"xyz");
}

#[test]
fn round_trip_value_record() {
    let entry = DiskLogEntry::new_entry(b"key".to_vec(), b"value".to_vec());
    let buf = record_bytes(&entry);
    let (back, next) = DiskLogEntry::deserialize(&buf, 0).expect("record should parse");
    assert_eq!(next, buf.len());
    assert_eq!(back.key, b"key".to_vec());
    assert_eq!(back.value, Some(b"value".to_vec()));
    assert_eq!(back.check_sum, entry.check_sum);
    assert!(!back.is_tombstone());
}

#[test]
fn round_trip_tombstone() {
    let entry = DiskLogEntry::new_tombstone(b"gone".to_vec());
    assert!(entry.is_tombstone());
    assert_eq!(entry.check_sum, 0);
    assert_eq!(entry.value_byte_size(), 0);
    let buf = record_bytes(&entry);
    assert_eq!(buf.len(), 24);
    let (back, next) = DiskLogEntry::deserialize(&buf, 0).expect("tombstone should parse");
    assert_eq!(next, 24);
    assert!(back.is_tombstone());
    assert_eq!(back.key, b"gone".to_vec());
}

#[test]
fn empty_value_reads_back_as_tombstone() {
    let entry = DiskLogEntry::new_entry(b"k".to_vec(), Vec::new());
    let buf = record_bytes(&entry);
    let (back, _) = DiskLogEntry::deserialize(&buf, 0).expect("record should parse");
    assert!(back.is_tombstone());
}

#[test]
fn two_records_parse_in_sequence() {
    let first = DiskLogEntry::new_entry(b"a".to_vec(), b"1".to_vec());
    let second = DiskLogEntry::new_tombstone(b"b".to_vec());
    let mut buf = Vec::new();
    first.serialize(&mut buf);
    second.serialize(&mut buf);
    let (e1, mid) = DiskLogEntry::deserialize(&buf, 0).expect("first record");
    let (e2, end) = DiskLogEntry::deserialize(&buf, mid).expect("second record");
    assert_eq!(e1.key, b"a".to_vec());
    assert_eq!(e2.key, b"b".to_vec());
    assert!(e2.is_tombstone());
    assert_eq!(end, buf.len());
}

#[test]
fn truncated_header_is_corruption() {
    let entry = DiskLogEntry::new_entry(b"key".to_vec(), b"value".to_vec());
    let mut buf = record_bytes(&entry);
    buf.truncate(10);
    let err = DiskLogEntry::deserialize(&buf, 0).unwrap_err();
    assert!(matches!(err, bitcask::error::BitCaskError::CorruptedData(_)));
}

#[test]
fn truncated_body_is_corruption() {
    let entry = DiskLogEntry::new_entry(b"key".to_vec(), b"value".to_vec());
    let mut buf = record_bytes(&entry);
    let cut = buf.len() - 2;
    buf.truncate(cut);
    let err = DiskLogEntry::deserialize(&buf, 0).unwrap_err();
    assert!(matches!(err, bitcask::error::BitCaskError::CorruptedData(_)));
}

#[test]
fn flipped_value_bit_is_corruption() {
    let entry = DiskLogEntry::new_entry(b"key".to_vec(), b"value".to_vec());
    let buf = record_bytes(&entry);
    let value_start = 20 + 3;
    for byte in value_start..buf.len() {
        for bit in 0..8 {
            let mut bad = buf.clone();
            bad[byte] ^= 1 << bit;
            let err = DiskLogEntry::deserialize(&bad, 0).unwrap_err();
            assert!(matches!(err, bitcask::error::BitCaskError::CorruptedData(_)));
        }
    }
}
