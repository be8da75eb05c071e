use vstd::prelude::*;

use crate::disk_logs::{entry_in_bounds, lemma_scan_files_congruent, spec_scan_files};
use crate::memory_index::MemIndexEntry;
use crate::storage::LogStorage;

verus! {

/// One logical operation against the store, as the write-path
/// contracts describe it: an unconditional put or a delete.
pub ghost enum StoreOp {
    Put { key: Seq<u8>, value: Seq<u8> },
    Delete { key: Seq<u8> },
}

/// The key an operation touches.
pub open spec fn op_key(op: StoreOp) -> Seq<u8> {
    match op {
        StoreOp::Put { key, value } => key,
        StoreOp::Delete { key } => key,
    }
}

/// What one operation does to the store's contents, exactly as the
/// `ensures` of `put` and `delete` state it: a nonempty value is
/// inserted; an empty value or a delete erases the key.
pub open spec fn apply_op(v: Map<Seq<u8>, Seq<u8>>, op: StoreOp) -> Map<Seq<u8>, Seq<u8>> {
    match op {
        StoreOp::Put { key, value } => if value.len() > 0 {
            v.insert(key, value)
        } else {
            v.remove(key)
        },
        StoreOp::Delete { key } => v.remove(key),
    }
}

/// The contents after a whole sequence of operations.
pub open spec fn apply_ops(v: Map<Seq<u8>, Seq<u8>>, ops: Seq<StoreOp>) -> Map<Seq<u8>, Seq<u8>>
    decreases ops.len(),
{
    if ops.len() == 0 {
        v
    } else {
        apply_op(apply_ops(v, ops.drop_last()), ops.last())
    }
}

/// The set of keys a sequence of operations touches. The index's
/// domain grows by exactly these keys, deletes included, because every
/// operation — even a delete of an absent key — leaves the key
/// tracked with a record.
pub open spec fn op_keys(ops: Seq<StoreOp>) -> Set<Seq<u8>>
    decreases ops.len(),
{
    if ops.len() == 0 {
        Set::<Seq<u8>>::empty()
    } else {
        op_keys(ops.drop_last()).insert(op_key(ops.last()))
    }
}

/// Round-trip. After any sequence of puts of nonempty values under
/// pairwise distinct keys, every key reads back exactly the value put
/// under it. (A put of an empty value is excluded: its record has
/// value size zero on disk, so it erases the key instead.)
pub proof fn lemma_round_trip(v0: Map<Seq<u8>, Seq<u8>>, ops: Seq<StoreOp>, i: int)
    requires
        forall|j: int|
            0 <= j < ops.len() ==> ((#[trigger] ops[j]) matches StoreOp::Put { key, value }
                && value.len() > 0),
        forall|j1: int, j2: int|
            0 <= j1 < j2 < ops.len() ==> op_key(#[trigger] ops[j1]) != op_key(#[trigger] ops[j2]),
        0 <= i < ops.len(),
    ensures
        apply_ops(v0, ops).contains_key(op_key(ops[i])),
        apply_ops(v0, ops)[op_key(ops[i])] == ops[i]->Put_value,
    decreases ops.len(),
{
    let last = ops.last();
    if i == ops.len() - 1 {
    } else {
        let front = ops.drop_last();
        assert(forall|j: int| 0 <= j < front.len() ==> front[j] == ops[j]);
        lemma_round_trip(v0, front, i);
        assert(op_key(ops[i]) != op_key(last));
    }
}

/// Last-write-wins. Whatever interleaving of writes ran, a key reads
/// as its latest operation says: the value of the last nonempty put,
/// or absent after a delete or an empty put, untouched by later
/// operations on other keys.
pub proof fn lemma_last_write_wins(v0: Map<Seq<u8>, Seq<u8>>, ops: Seq<StoreOp>, i: int)
    requires
        0 <= i < ops.len(),
        forall|j: int| i < j < ops.len() ==> op_key(#[trigger] ops[j]) != op_key(ops[i]),
    ensures
        match ops[i] {
            StoreOp::Put { key, value } => if value.len() > 0 {
                apply_ops(v0, ops).contains_key(key) && apply_ops(v0, ops)[key] == value
            } else {
                !apply_ops(v0, ops).contains_key(key)
            },
            StoreOp::Delete { key } => !apply_ops(v0, ops).contains_key(key),
        },
    decreases ops.len(),
{
    if i == ops.len() - 1 {
    } else {
        let front = ops.drop_last();
        assert(forall|j: int| 0 <= j < front.len() ==> front[j] == ops[j]);
        lemma_last_write_wins(v0, front, i);
        assert(op_key(ops.last()) != op_key(ops[i]));
    }
}

/// Delete erases. After a delete, the key reads as absent, and stays
/// absent under every later operation on other keys — until a later
/// put restores it.
pub proof fn lemma_delete_erases(v0: Map<Seq<u8>, Seq<u8>>, ops: Seq<StoreOp>, i: int)
    requires
        0 <= i < ops.len(),
        ops[i] is Delete,
        forall|j: int| i < j < ops.len() ==> op_key(#[trigger] ops[j]) != op_key(ops[i]),
    ensures
        !apply_ops(v0, ops).contains_key(op_key(ops[i])),
{
    lemma_last_write_wins(v0, ops, i);
}

/// Size invariant. The index's domain after a sequence of operations
/// is the starting domain joined with every key written — keys whose
/// latest record is a tombstone included. On a store opened fresh, the
/// domain is exactly the keys ever written, so `size()` counts them.
pub proof fn lemma_size_tracks_keys(d0: Set<Seq<u8>>, ops: Seq<StoreOp>)
    ensures
        apply_ops_dom(d0, ops) == d0.union(op_keys(ops)),
    decreases ops.len(),
{
    if ops.len() == 0 {
        assert(apply_ops_dom(d0, ops) =~= d0.union(op_keys(ops)));
    } else {
        lemma_size_tracks_keys(d0, ops.drop_last());
        assert(apply_ops_dom(d0, ops) =~= d0.union(op_keys(ops)));
    }
}

/// The index's domain after a whole sequence of operations, as the
/// `ensures` of `put` and `delete` state it: each operation inserts
/// its key.
pub open spec fn apply_ops_dom(d: Set<Seq<u8>>, ops: Seq<StoreOp>) -> Set<Seq<u8>>
    decreases ops.len(),
{
    if ops.len() == 0 {
        d
    } else {
        apply_ops_dom(d, ops.drop_last()).insert(op_key(ops.last()))
    }
}

/// Durability across reopen. A store rebuilt by replaying files that
/// carry the same bytes as a well-formed store's files — which is
/// what opening the store's directory again does — has exactly the
/// same contents: every live key reads the same value, and every
/// deleted or absent key stays absent.
pub proof fn lemma_durability(s: LogStorage, t: LogStorage)
    requires
        s.wf(),
        t.wf(),
        t.live_index() == t.index_map(),
        spec_scan_files(t.files(), 0, Map::<Seq<u8>, MemIndexEntry>::empty()) == Some(
            t.index_map(),
        ),
        t.files().len() == s.files().len(),
        forall|j: int|
            0 <= j < t.files().len() ==> (#[trigger] t.files()[j]).data@ == s.files()[j].data@,
    ensures
        t.index_map() == s.live_index(),
        t.view_map() == s.view_map(),
{
    lemma_scan_files_congruent(
        t.files(),
        s.files(),
        0,
        Map::<Seq<u8>, MemIndexEntry>::empty(),
    );
    assert(t.index_map() == s.live_index());
    assert forall|k: Seq<u8>| #[trigger]
        t.view_map().contains_key(k) implies s.view_map().contains_key(k) && t.view_map()[k]
        == s.view_map()[k] by {
        assert(s.live_index().contains_key(k));
        assert(s.index_map().contains_key(k) && s.index_map()[k].value_size > 0);
        assert(entry_in_bounds(s.files(), s.index_map()[k]));
        let e = s.index_map()[k];
        assert(t.files()[e.file_id as int].data@ == s.files()[e.file_id as int].data@);
    }
    assert forall|k: Seq<u8>| #[trigger]
        s.view_map().contains_key(k) implies t.view_map().contains_key(k) by {
        assert(s.live_index().contains_key(k));
        assert(t.index_map().contains_key(k) && t.index_map()[k].value_size > 0);
    }
    assert(t.view_map() =~= s.view_map());
}

/// Rollover. A well-formed store's file numbers are contiguous and
/// ascend from zero, so the active file — the last — is the one with
/// the greatest number. Together with the file-count clause of `put`,
/// which creates the next file exactly when a write pushes the active
/// file past the threshold, this is the rollover guarantee.
pub proof fn lemma_file_ids_contiguous(s: LogStorage)
    requires
        s.wf(),
    ensures
        s.files().len() >= 1,
        forall|i: int| 0 <= i < s.files().len() ==> (#[trigger] s.files()[i]).file_id == i,
        s.files().last().file_id == s.files().len() - 1,
{
}

} // verus!

