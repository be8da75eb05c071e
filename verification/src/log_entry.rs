use vstd::prelude::*;

use crate::bitcask::{ByteOffset, ByteSize, Key, Value};
use crate::bytes::{
    copy_range, lemma_u32_be_round_trip, lemma_u64_be_round_trip, push_bytes, push_u32_be,
    push_u64_be, read_u32_be, read_u64_be, spec_be_to_u32, spec_be_to_u64, spec_u32_to_be,
    spec_u64_to_be,
};
use crate::checksum::{crc32_checksum, crc32_of};
use crate::error::BitCaskError;

verus! {

/// The image of one on-disk record: a checksum over the value bytes, a
/// key, and either a value or nothing — nothing marks a tombstone, the
/// record of a delete.
pub ghost struct RecView {
    pub check_sum: u32,
    pub key: Seq<u8>,
    pub value: Option<Seq<u8>>,
}

/// The number of value bytes a record carries; zero for a tombstone.
pub open spec fn spec_value_len(r: RecView) -> int {
    match r.value {
        Some(v) => v.len() as int,
        None => 0,
    }
}

/// Offset of the first value byte within a serialized record: the
/// 4-byte checksum, the two 8-byte sizes, and the key come first.
pub open spec fn spec_value_offset(r: RecView) -> int {
    20 + r.key.len() as int
}

/// Total length in bytes of a serialized record.
pub open spec fn spec_rec_size(r: RecView) -> int {
    20 + r.key.len() as int + spec_value_len(r)
}

/// The serialized form of a record: checksum, key size, value size (all
/// big-endian), then the key bytes, then the value bytes if any.
pub open spec fn spec_serialize(r: RecView) -> Seq<u8> {
    spec_u32_to_be(r.check_sum) + spec_u64_to_be(r.key.len() as u64)
        + spec_u64_to_be(spec_value_len(r) as u64) + r.key + (match r.value {
        Some(v) => v,
        None => Seq::<u8>::empty(),
    })
}

/// A record whose sizes fit the 8-byte header fields and whose checksum
/// is the CRC-32 of its value bytes. Records the engine writes always
/// satisfy this; a tombstone's checksum field is not validated.
pub open spec fn rec_wf(r: RecView) -> bool {
    &&& r.key.len() <= u64::MAX
    &&& match r.value {
        Some(v) => v.len() <= u64::MAX && (v.len() > 0 ==> r.check_sum == crc32_of(v)),
        None => true,
    }
}

/// The record as deserialization reproduces it: a record written with
/// an empty value has value size zero on disk and reads back as a
/// tombstone.
pub open spec fn rec_norm(r: RecView) -> RecView {
    match r.value {
        Some(v) => if v.len() == 0 {
            RecView { check_sum: r.check_sum, key: r.key, value: None }
        } else {
            r
        },
        None => r,
    }
}

/// The record stored at byte position `pos`, or nothing where fewer
/// bytes remain than the header or the header's sizes call for, or
/// where the stored checksum does not match the value bytes.
pub open spec fn spec_parse_at(bytes: Seq<u8>, pos: int) -> Option<RecView> {
    if pos < 0 || pos + 20 > bytes.len() {
        None
    } else {
        let check_sum = spec_be_to_u32(bytes.subrange(pos, pos + 4));
        let key_size = spec_be_to_u64(bytes.subrange(pos + 4, pos + 12)) as int;
        let value_size = spec_be_to_u64(bytes.subrange(pos + 12, pos + 20)) as int;
        if pos + 20 + key_size + value_size > bytes.len() {
            None
        } else {
            let key = bytes.subrange(pos + 20, pos + 20 + key_size);
            if value_size > 0 {
                let value = bytes.subrange(pos + 20 + key_size, pos + 20 + key_size + value_size);
                if check_sum == crc32_of(value) {
                    Some(RecView { check_sum, key, value: Some(value) })
                } else {
                    None
                }
            } else {
                Some(RecView { check_sum, key, value: None })
            }
        }
    }
}

/// Serialization and normalization preserve each other: the bytes of a
/// record, written after any prefix, parse back to its normal form.
pub proof fn lemma_parse_serialize(prefix: Seq<u8>, r: RecView)
    requires
        rec_wf(r),
    ensures
        spec_parse_at(prefix + spec_serialize(r), prefix.len() as int) == Some(rec_norm(r)),
        spec_serialize(r).len() == spec_rec_size(r),
        spec_rec_size(rec_norm(r)) == spec_rec_size(r),
{
    let all = prefix + spec_serialize(r);
    let pos = prefix.len() as int;
    let klen = r.key.len() as int;
    let vlen = spec_value_len(r);
    assert(spec_serialize(r).len() == 20 + klen + vlen);
    assert(all.subrange(pos, pos + 4) =~= spec_u32_to_be(r.check_sum));
    assert(all.subrange(pos + 4, pos + 12) =~= spec_u64_to_be(r.key.len() as u64));
    assert(all.subrange(pos + 12, pos + 20) =~= spec_u64_to_be(spec_value_len(r) as u64));
    lemma_u32_be_round_trip(r.check_sum);
    lemma_u64_be_round_trip(r.key.len() as u64);
    lemma_u64_be_round_trip(spec_value_len(r) as u64);
    assert(spec_be_to_u64(spec_u64_to_be(r.key.len() as u64)) as int == klen);
    assert(spec_be_to_u64(spec_u64_to_be(spec_value_len(r) as u64)) as int == vlen);
    assert(all.subrange(pos + 20, pos + 20 + klen) =~= r.key);
    match r.value {
        Some(v) => {
            if v.len() > 0 {
                assert(all.subrange(pos + 20 + klen, pos + 20 + klen + vlen) =~= v);
            }
        },
        None => {},
    }
}

/// A record that parses within `bytes` still parses, to the same
/// record, after more bytes are appended.
pub proof fn lemma_parse_stable(bytes: Seq<u8>, ext: Seq<u8>, pos: int)
    requires
        spec_parse_at(bytes, pos) is Some,
    ensures
        spec_parse_at(bytes + ext, pos) == spec_parse_at(bytes, pos),
        pos + spec_rec_size(spec_parse_at(bytes, pos)->Some_0) <= bytes.len(),
{
    let all = bytes + ext;
    assert(all.subrange(pos, pos + 4) =~= bytes.subrange(pos, pos + 4));
    assert(all.subrange(pos + 4, pos + 12) =~= bytes.subrange(pos + 4, pos + 12));
    assert(all.subrange(pos + 12, pos + 20) =~= bytes.subrange(pos + 12, pos + 20));
    let key_size = spec_be_to_u64(bytes.subrange(pos + 4, pos + 12)) as int;
    let value_size = spec_be_to_u64(bytes.subrange(pos + 12, pos + 20)) as int;
    assert(all.subrange(pos + 20, pos + 20 + key_size) =~= bytes.subrange(
        pos + 20,
        pos + 20 + key_size,
    ));
    assert(all.subrange(pos + 20 + key_size, pos + 20 + key_size + value_size) =~= bytes.subrange(
        pos + 20 + key_size,
        pos + 20 + key_size + value_size,
    ));
}

/// The in-memory form of one record, as held just before it is written
/// or just after it is read.
#[derive(Debug, Clone, PartialEq, Eq)]
pub struct DiskLogEntry {
    pub check_sum: u32,
    pub key: Key,
    pub value: Option<Value>,
}

impl View for DiskLogEntry {
    type V = RecView;

    open spec fn view(&self) -> RecView {
        RecView {
            check_sum: self.check_sum,
            key: self.key@,
            value: match self.value {
                Some(v) => Some(v@),
                None => None,
            },
        }
    }
}

impl DiskLogEntry {
    /// A value record: the checksum is computed over the value bytes.
    pub fn new_entry(key: Key, value: Value) -> (e: Self)
        ensures
            e@ == (RecView { check_sum: crc32_of(value@), key: key@, value: Some(value@) }),
            rec_wf(e@),
    {
        let kn = key.len();
        let vn = value.len();
        assert(key@.len() == kn && value@.len() == vn);
        let check_sum = crc32_checksum(&value);
        Self { check_sum, key, value: Some(value) }
    }

    /// A tombstone: no value, and a checksum field of zero that is
    /// never validated.
    pub fn new_tombstone(key: Key) -> (e: Self)
        ensures
            e@ == (RecView { check_sum: 0u32, key: key@, value: None }),
            rec_wf(e@),
    {
        let kn = key.len();
        assert(key@.len() == kn);
        Self { check_sum: 0, key, value: None }
    }

    /// Whether this record marks a delete.
    pub fn is_tombstone(&self) -> (r: bool)
        ensures
            r <==> self@.value is None,
    {
        self.value.is_none()
    }

    /// Whether the stored checksum matches the value bytes; a tombstone
    /// is always valid.
    pub fn is_valid(&self) -> (r: bool)
        ensures
            r <==> match self@.value {
                Some(v) => self@.check_sum == crc32_of(v),
                None => true,
            },
    {
        match &self.value {
            Some(v) => self.check_sum == crc32_checksum(v),
            None => true,
        }
    }

    /// Width of the checksum field.
    pub fn check_sum_byte_size() -> (n: ByteSize)
        ensures
            n == 4,
    {
        4
    }

    /// Length of the key in bytes.
    pub fn key_byte_size(&self) -> (n: ByteSize)
        ensures
            n == self@.key.len(),
    {
        self.key.len() as u64
    }

    /// Length of the value in bytes; zero for a tombstone.
    pub fn value_byte_size(&self) -> (n: ByteSize)
        ensures
            n == spec_value_len(self@),
    {
        match &self.value {
            Some(v) => v.len() as u64,
            None => 0,
        }
    }

    /// Width of each of the two size fields.
    pub fn size_byte_len() -> (n: ByteSize)
        ensures
            n == 8,
    {
        8
    }

    /// Offset of the first value byte within this record's serialized
    /// form.
    pub fn value_byte_offset(&self) -> (n: ByteOffset)
        requires
            spec_value_offset(self@) <= u64::MAX,
        ensures
            n == spec_value_offset(self@),
    {
        Self::check_sum_byte_size() + Self::size_byte_len() * 2 + self.key_byte_size()
    }

    /// Total length in bytes of this record's serialized form.
    pub fn total_byte_size(&self) -> (n: ByteSize)
        requires
            spec_rec_size(self@) <= u64::MAX,
        ensures
            n == spec_rec_size(self@),
    {
        Self::check_sum_byte_size() + Self::size_byte_len() * 2 + self.key_byte_size()
            + self.value_byte_size()
    }

    /// Append this record's serialized form to `buf`: checksum, key
    /// size, value size, key bytes, value bytes.
    pub fn serialize(&self, buf: &mut Vec<u8>)
        requires
            old(buf)@.len() + spec_rec_size(self@) <= usize::MAX,
        ensures
            final(buf)@ == old(buf)@ + spec_serialize(self@),
    {
        push_u32_be(buf, self.check_sum);
        push_u64_be(buf, self.key_byte_size());
        push_u64_be(buf, self.value_byte_size());
        push_bytes(buf, &self.key);
        match &self.value {
            Some(v) => push_bytes(buf, v),
            None => {},
        }
        assert(buf@ =~= old(buf)@ + spec_serialize(self@));
    }

    /// Read one record starting at byte `pos` of `bytes`. Returns the
    /// record and the position just past it, or a corruption error
    /// where too few bytes remain or the checksum does not match —
    /// exactly where nothing parses at `pos`.
    pub fn deserialize(bytes: &Vec<u8>, pos: usize) -> (r: Result<(DiskLogEntry, usize), BitCaskError>)
        ensures
            match r {
                Ok(p) => {
                    &&& spec_parse_at(bytes@, pos as int) == Some(p.0@)
                    &&& p.1 == pos + spec_rec_size(p.0@)
                    &&& p.1 <= bytes@.len()
                    &&& rec_wf(p.0@)
                },
                Err(e) => {
                    &&& spec_parse_at(bytes@, pos as int) is None
                    &&& e is CorruptedData
                },
            },
    {
        let n = bytes.len();
        if n < 20 || pos > n - 20 {
            return Err(BitCaskError::CorruptedData("record header truncated".to_owned()));
        }
        let check_sum = read_u32_be(bytes, pos);
        let key_size = read_u64_be(bytes, pos + 4);
        let value_size = read_u64_be(bytes, pos + 12);
        let rem = (n - (pos + 20)) as u64;
        if key_size > rem || value_size > rem - key_size {
            return Err(BitCaskError::CorruptedData("record body truncated".to_owned()));
        }
        let ks = key_size as usize;
        let vs = value_size as usize;
        let key = copy_range(bytes, pos + 20, ks);
        let value = if value_size > 0 {
            let v = copy_range(bytes, pos + 20 + ks, vs);
            let c = crc32_checksum(&v);
            if c != check_sum {
                return Err(BitCaskError::CorruptedData("invalid checksum".to_owned()));
            }
            Some(v)
        } else {
            None
        };
        let entry = DiskLogEntry { check_sum, key, value };
        Ok((entry, pos + 20 + ks + vs))
    }
}

} // verus!
