use vstd::prelude::*;

use crate::bitcask::{ByteOffset, ByteSize, FileId, Key};

verus! {

/// Bytewise (lexicographic) strict order on byte sequences: the order
/// of keys in the index.
pub open spec fn lex_lt(a: Seq<u8>, b: Seq<u8>) -> bool
    decreases a.len(),
{
    if b.len() == 0 {
        false
    } else if a.len() == 0 {
        true
    } else if a[0] < b[0] {
        true
    } else if a[0] > b[0] {
        false
    } else {
        lex_lt(a.skip(1), b.skip(1))
    }
}

/// No sequence is below itself.
pub proof fn lemma_lex_irrefl(a: Seq<u8>)
    ensures
        !lex_lt(a, a),
    decreases a.len(),
{
    if a.len() > 0 {
        lemma_lex_irrefl(a.skip(1));
    }
}

/// Any two sequences are ordered or equal.
pub proof fn lemma_lex_total(a: Seq<u8>, b: Seq<u8>)
    ensures
        lex_lt(a, b) || lex_lt(b, a) || a == b,
    decreases a.len(),
{
    if a.len() == 0 || b.len() == 0 {
        if a.len() == 0 && b.len() == 0 {
            assert(a =~= b);
        }
    } else if a[0] == b[0] {
        lemma_lex_total(a.skip(1), b.skip(1));
        if !lex_lt(a, b) && !lex_lt(b, a) {
            assert(a.skip(1) =~= b.skip(1));
            assert(a =~= seq![a[0]] + a.skip(1));
            assert(b =~= seq![b[0]] + b.skip(1));
        }
    }
}

/// The order is transitive.
pub proof fn lemma_lex_trans(a: Seq<u8>, b: Seq<u8>, c: Seq<u8>)
    requires
        lex_lt(a, b),
        lex_lt(b, c),
    ensures
        lex_lt(a, c),
    decreases a.len(),
{
    if a.len() == 0 {
    } else {
        if a[0] == b[0] && b[0] == c[0] {
            lemma_lex_trans(a.skip(1), b.skip(1), c.skip(1));
        }
    }
}

/// Where an index entry's value lives: the file that holds it, the
/// position of the first value byte within that file, and its length.
/// A `value_size` of zero marks a tombstone.
#[derive(Debug, Clone, Copy, PartialEq, Eq, Structural)]
pub struct MemIndexEntry {
    pub file_id: FileId,
    pub value_offset: ByteOffset,
    pub value_size: ByteSize,
}

impl MemIndexEntry {
    /// Whether this entry records a delete rather than a value.
    pub fn is_tombstone(&self) -> (r: bool)
        ensures
            r <==> self.value_size == 0,
    {
        self.value_size == 0
    }
}

/// The mapping denoted by an association list, later pairs winning.
pub open spec fn map_of(s: Seq<(Key, MemIndexEntry)>) -> Map<Seq<u8>, MemIndexEntry>
    decreases s.len(),
{
    if s.len() == 0 {
        Map::empty()
    } else {
        map_of(s.drop_last()).insert(s.last().0@, s.last().1)
    }
}

/// Whether some pair of `s` carries the key `k`.
pub open spec fn has_key(s: Seq<(Key, MemIndexEntry)>, k: Seq<u8>) -> bool {
    exists|i: int| 0 <= i < s.len() && (#[trigger] s[i]).0@ == k
}

/// Keys strictly ascending in the bytewise order.
pub open spec fn sorted(s: Seq<(Key, MemIndexEntry)>) -> bool {
    forall|i: int, j: int|
        0 <= i < j < s.len() ==> lex_lt((#[trigger] s[i]).0@, (#[trigger] s[j]).0@)
}

/// What `map_of` holds of a sorted association list: its domain is the
/// set of keys of the list, each key maps to its pair's entry, and the
/// domain is finite with one element per pair.
pub proof fn lemma_map_of_sorted(s: Seq<(Key, MemIndexEntry)>)
    requires
        sorted(s),
    ensures
        forall|k: Seq<u8>| map_of(s).dom().contains(k) <==> has_key(s, k),
        forall|i: int|
            0 <= i < s.len() ==> map_of(s).dom().contains((#[trigger] s[i]).0@) && map_of(s)[s[i].0@]
                == s[i].1,
        map_of(s).dom().finite(),
        map_of(s).dom().len() == s.len(),
    decreases s.len(),
{
    if s.len() == 0 {
    } else {
        let t = s.drop_last();
        assert(sorted(t)) by {
            assert(forall|i: int| 0 <= i < t.len() ==> t[i] == s[i]);
        }
        lemma_map_of_sorted(t);
        let lk = s.last().0@;
        assert(forall|k: Seq<u8>| has_key(t, k) ==> has_key(s, k)) by {
            assert(forall|i: int| 0 <= i < t.len() ==> s[i] == t[i]);
        }
        assert(forall|k: Seq<u8>| map_of(s).dom().contains(k) <==> has_key(s, k)) by {
            assert(s[s.len() - 1].0@ == lk);
            assert(forall|k: Seq<u8>| has_key(s, k) && k != lk ==> has_key(t, k)) by {
                assert(forall|i: int| 0 <= i < s.len() - 1 ==> t[i] == s[i]);
            }
        }
        assert(!map_of(t).dom().contains(lk)) by {
            if has_key(t, lk) {
                let i = choose|i: int| 0 <= i < t.len() && (#[trigger] t[i]).0@ == lk;
                assert(lex_lt(s[i].0@, lk));
                lemma_lex_irrefl(lk);
            }
        }
        assert(forall|i: int|
            0 <= i < s.len() ==> map_of(s).dom().contains((#[trigger] s[i]).0@) && map_of(s)[s[i].0@]
                == s[i].1) by {
            assert(forall|i: int| 0 <= i < s.len() - 1 ==> s[i] == t[i]);
            assert(forall|i: int| 0 <= i < s.len() - 1 ==> (#[trigger] s[i]).0@ != lk) by {
                assert(forall|i: int|
                    0 <= i < s.len() - 1 ==> lex_lt((#[trigger] s[i]).0@, lk));
                lemma_lex_irrefl(lk);
            }
        }
        assert(map_of(s).dom() =~= map_of(t).dom().insert(lk));
        vstd::set_lib::lemma_len_union(map_of(t).dom(), set![lk]);
        assert(map_of(t).dom().insert(lk) =~= map_of(t).dom().union(set![lk]));
        assert(map_of(s).dom().len() == s.len());
    }
}

/// Bytewise equality of two keys.
pub fn key_eq(a: &Key, b: &Key) -> (r: bool)
    ensures
        r <==> a@ == b@,
{
    let an = a.len();
    let bn = b.len();
    if an != bn {
        return false;
    }
    let mut i: usize = 0;
    while i < an
        invariant
            an == a@.len(),
            bn == b@.len(),
            an == bn,
            i <= an,
            forall|j: int| 0 <= j < i ==> a@[j] == b@[j],
        decreases an - i,
    {
        if a[i] != b[i] {
            return false;
        }
        i = i + 1;
    }
    assert(a@ =~= b@);
    true
}

/// The order, decided from the first differing position onward: while
/// the first `n` bytes agree, the comparison of the tails decides.
proof fn lemma_lex_skip(a: Seq<u8>, b: Seq<u8>, n: int)
    requires
        0 <= n <= a.len(),
        n <= b.len(),
        forall|j: int| 0 <= j < n ==> a[j] == b[j],
    ensures
        lex_lt(a, b) == lex_lt(a.skip(n), b.skip(n)),
    decreases n,
{
    if n > 0 {
        assert(a.len() > 0 && b.len() > 0);
        lemma_lex_skip(a.skip(1), b.skip(1), n - 1);
        assert(forall|j: int| 0 <= j < n - 1 ==> a.skip(1)[j] == b.skip(1)[j]);
        assert(a.skip(1).skip(n - 1) =~= a.skip(n));
        assert(b.skip(1).skip(n - 1) =~= b.skip(n));
    } else {
        assert(a.skip(0) =~= a);
        assert(b.skip(0) =~= b);
    }
}

/// Bytewise strict comparison of two keys.
pub fn key_lt(a: &Key, b: &Key) -> (r: bool)
    ensures
        r <==> lex_lt(a@, b@),
{
    let an = a.len();
    let bn = b.len();
    let m = if an < bn {
        an
    } else {
        bn
    };
    let mut i: usize = 0;
    while i < m
        invariant
            an == a@.len(),
            bn == b@.len(),
            m == if an < bn {
                an
            } else {
                bn
            },
            i <= m,
            forall|j: int| 0 <= j < i ==> a@[j] == b@[j],
        decreases m - i,
    {
        if a[i] < b[i] {
            proof {
                lemma_lex_skip(a@, b@, i as int);
            }
            return true;
        }
        if a[i] > b[i] {
            proof {
                lemma_lex_skip(a@, b@, i as int);
            }
            return false;
        }
        i = i + 1;
    }
    proof {
        lemma_lex_skip(a@, b@, m as int);
    }
    an < bn
}

/// Pairs at every position but `i` agree and the keys at `i` agree:
/// the map is the old one with the key's entry replaced.
proof fn lemma_map_of_replace(s0: Seq<(Key, MemIndexEntry)>, s1: Seq<(Key, MemIndexEntry)>, i: int)
    requires
        sorted(s0),
        0 <= i < s0.len(),
        s1.len() == s0.len(),
        forall|j: int| 0 <= j < s0.len() && j != i ==> s1[j] == s0[j],
        s1[i].0@ == s0[i].0@,
    ensures
        sorted(s1),
        map_of(s1) == map_of(s0).insert(s1[i].0@, s1[i].1),
{
    let k0 = s0[i].0@;
    assert(sorted(s1)) by {
        assert(forall|j: int| 0 <= j < s1.len() ==> (#[trigger] s1[j]).0@ == s0[j].0@);
    }
    lemma_map_of_sorted(s0);
    lemma_map_of_sorted(s1);
    assert forall|j: int| 0 <= j < s0.len() && j != i implies (#[trigger] s0[j]).0@ != k0 by {
        if s0[j].0@ == k0 {
            if j < i {
                assert(lex_lt(s0[j].0@, s0[i].0@));
            } else {
                assert(lex_lt(s0[i].0@, s0[j].0@));
            }
            lemma_lex_irrefl(k0);
            assert(false);
        }
    }
    let m1 = map_of(s1);
    let m2 = map_of(s0).insert(k0, s1[i].1);
    assert forall|k: Seq<u8>| #[trigger] m1.dom().contains(k) implies m2.dom().contains(k) && m1[k]
        == m2[k] by {
        assert(has_key(s1, k));
        let j = choose|j: int| 0 <= j < s1.len() && (#[trigger] s1[j]).0@ == k;
        assert(m1[k] == s1[j].1);
        if j != i {
            assert(s1[j] == s0[j]);
            assert(s0[j].0@ == k);
            assert(k != k0);
            assert(map_of(s0)[k] == s0[j].1);
        } else {
            assert(k == k0);
        }
    }
    assert forall|k: Seq<u8>| #[trigger] m2.dom().contains(k) implies m1.dom().contains(k) by {
        if k == k0 {
            assert(0 <= i < s1.len() && s1[i].0@ == k);
            assert(has_key(s1, k));
        } else {
            assert(has_key(s0, k));
            let j = choose|j: int| 0 <= j < s0.len() && (#[trigger] s0[j]).0@ == k;
            assert(j != i);
            assert(s1[j].0@ == k);
            assert(has_key(s1, k));
        }
    }
    assert(m1.dom() =~~= m2.dom());
    assert(m1 =~~= m2);
}

/// Inserting a pair at a position that respects the order adds exactly
/// that key to the map.
proof fn lemma_map_of_insert_at(
    s0: Seq<(Key, MemIndexEntry)>,
    s1: Seq<(Key, MemIndexEntry)>,
    i: int,
)
    requires
        sorted(s0),
        0 <= i <= s0.len(),
        s1.len() == s0.len() + 1,
        forall|j: int| 0 <= j < i ==> s1[j] == s0[j],
        forall|j: int| i < j < s1.len() ==> s1[j] == s0[j - 1],
        forall|j: int| 0 <= j < i ==> lex_lt((#[trigger] s0[j]).0@, s1[i].0@),
        forall|j: int| i <= j < s0.len() ==> lex_lt(s1[i].0@, (#[trigger] s0[j]).0@),
    ensures
        sorted(s1),
        map_of(s1) == map_of(s0).insert(s1[i].0@, s1[i].1),
{
    let k0 = s1[i].0@;
    assert(sorted(s1)) by {
        assert forall|p: int, q: int| 0 <= p < q < s1.len() implies lex_lt(
            (#[trigger] s1[p]).0@,
            (#[trigger] s1[q]).0@,
        ) by {
            if p < i && q < i {
            } else if p < i && q == i {
            } else if p < i && q > i {
                assert(s1[q] == s0[q - 1]);
            } else if p == i {
                assert(s1[q] == s0[q - 1]);
            } else {
                assert(s1[p] == s0[p - 1] && s1[q] == s0[q - 1]);
            }
        }
    }
    lemma_map_of_sorted(s0);
    lemma_map_of_sorted(s1);
    assert forall|j: int| 0 <= j < s0.len() implies (#[trigger] s0[j]).0@ != k0 by {
        if s0[j].0@ == k0 {
            if j < i {
                assert(lex_lt(s0[j].0@, k0));
            } else {
                assert(lex_lt(k0, s0[j].0@));
            }
            lemma_lex_irrefl(k0);
            assert(false);
        }
    }
    let m1 = map_of(s1);
    let m2 = map_of(s0).insert(k0, s1[i].1);
    assert forall|k: Seq<u8>| #[trigger] m1.dom().contains(k) implies m2.dom().contains(k) && m1[k]
        == m2[k] by {
        assert(has_key(s1, k));
        let j = choose|j: int| 0 <= j < s1.len() && (#[trigger] s1[j]).0@ == k;
        assert(m1[k] == s1[j].1);
        if j < i {
            assert(s1[j] == s0[j]);
            assert(s0[j].0@ == k);
            assert(k != k0);
            assert(map_of(s0)[k] == s0[j].1);
        } else if j > i {
            assert(s1[j] == s0[j - 1]);
            assert(s0[j - 1].0@ == k);
            assert(k != k0);
            assert(map_of(s0)[k] == s0[j - 1].1);
        } else {
            assert(k == k0);
        }
    }
    assert forall|k: Seq<u8>| #[trigger] m2.dom().contains(k) implies m1.dom().contains(k) by {
        if k == k0 {
            assert(0 <= i < s1.len() && s1[i].0@ == k);
            assert(has_key(s1, k));
        } else {
            assert(has_key(s0, k));
            let j = choose|j: int| 0 <= j < s0.len() && (#[trigger] s0[j]).0@ == k;
            if j < i {
                assert(s1[j].0@ == k);
            } else {
                assert(s1[j + 1] == s0[j]);
                assert(s1[j + 1].0@ == k);
            }
            assert(has_key(s1, k));
        }
    }
    assert(m1.dom() =~~= m2.dom());
    assert(m1 =~~= m2);
}

/// Removing the pair at `i` removes exactly its key from the map.
proof fn lemma_map_of_remove_at(
    s0: Seq<(Key, MemIndexEntry)>,
    s1: Seq<(Key, MemIndexEntry)>,
    i: int,
)
    requires
        sorted(s0),
        0 <= i < s0.len(),
        s1.len() == s0.len() - 1,
        forall|j: int| 0 <= j < i ==> s1[j] == s0[j],
        forall|j: int| i <= j < s1.len() ==> s1[j] == s0[j + 1],
    ensures
        sorted(s1),
        map_of(s1) == map_of(s0).remove(s0[i].0@),
{
    let k0 = s0[i].0@;
    assert(sorted(s1)) by {
        assert forall|p: int, q: int| 0 <= p < q < s1.len() implies lex_lt(
            (#[trigger] s1[p]).0@,
            (#[trigger] s1[q]).0@,
        ) by {
            if p < i && q < i {
            } else if p < i {
                assert(s1[q] == s0[q + 1]);
            } else {
                assert(s1[p] == s0[p + 1] && s1[q] == s0[q + 1]);
            }
        }
    }
    lemma_map_of_sorted(s0);
    lemma_map_of_sorted(s1);
    assert forall|j: int| 0 <= j < s0.len() && j != i implies (#[trigger] s0[j]).0@ != k0 by {
        if s0[j].0@ == k0 {
            if j < i {
                assert(lex_lt(s0[j].0@, s0[i].0@));
            } else {
                assert(lex_lt(s0[i].0@, s0[j].0@));
            }
            lemma_lex_irrefl(k0);
            assert(false);
        }
    }
    let m1 = map_of(s1);
    let m2 = map_of(s0).remove(k0);
    assert forall|k: Seq<u8>| #[trigger] m1.dom().contains(k) implies m2.dom().contains(k) && m1[k]
        == m2[k] by {
        assert(has_key(s1, k));
        let j = choose|j: int| 0 <= j < s1.len() && (#[trigger] s1[j]).0@ == k;
        assert(m1[k] == s1[j].1);
        if j < i {
            assert(s1[j] == s0[j]);
            assert(s0[j].0@ == k);
            assert(k != k0);
            assert(map_of(s0)[k] == s0[j].1);
        } else {
            assert(s1[j] == s0[j + 1]);
            assert(s0[j + 1].0@ == k);
            assert(k != k0);
            assert(map_of(s0)[k] == s0[j + 1].1);
        }
    }
    assert forall|k: Seq<u8>| #[trigger] m2.dom().contains(k) implies m1.dom().contains(k) by {
        assert(has_key(s0, k));
        let j = choose|j: int| 0 <= j < s0.len() && (#[trigger] s0[j]).0@ == k;
        assert(j != i);
        if j < i {
            assert(s1[j].0@ == k);
        } else {
            assert(s1[j - 1] == s0[j]);
            assert(s1[j - 1].0@ == k);
        }
        assert(has_key(s1, k));
    }
    assert(m1.dom() =~~= m2.dom());
    assert(m1 =~~= m2);
}

/// The in-memory index: a mapping from key to the location of the
/// key's most recent record, kept as an association list sorted
/// strictly ascending in the bytewise key order.
#[derive(Debug, Clone)]
pub struct MemIndexStorage {
    entries: Vec<(Key, MemIndexEntry)>,
}

impl MemIndexStorage {
    /// The pairs in ascending key order.
    pub closed spec fn pairs(self) -> Seq<(Key, MemIndexEntry)> {
        self.entries@
    }

    /// The mapping the index denotes.
    pub closed spec fn as_map(self) -> Map<Seq<u8>, MemIndexEntry> {
        map_of(self.entries@)
    }

    /// Keys strictly ascending; this is the index's invariant.
    pub closed spec fn wf(self) -> bool {
        sorted(self.entries@)
    }

    /// What a caller may assume of a well-formed index: the pairs carry
    /// ascending distinct keys, each present in the mapping with its
    /// entry, and the mapping has exactly one key per pair.
    pub proof fn lemma_pairs(self)
        requires
            self.wf(),
        ensures
            sorted(self.pairs()),
            forall|k: Seq<u8>| self.as_map().dom().contains(k) <==> has_key(self.pairs(), k),
            forall|i: int|
                0 <= i < self.pairs().len() ==> self.as_map().dom().contains(
                    (#[trigger] self.pairs()[i]).0@,
                ) && self.as_map()[self.pairs()[i].0@] == self.pairs()[i].1,
            self.as_map().dom().finite(),
            self.as_map().dom().len() == self.pairs().len(),
    {
        lemma_map_of_sorted(self.entries@);
    }

    /// An empty index.
    pub fn new() -> (r: Self)
        ensures
            r.wf(),
            r.as_map() == Map::<Seq<u8>, MemIndexEntry>::empty(),
            r.pairs().len() == 0,
    {
        Self { entries: Vec::new() }
    }

    /// Look the key up.
    pub fn get(&self, key: &Key) -> (r: Option<MemIndexEntry>)
        requires
            self.wf(),
        ensures
            match r {
                Some(e) => self.as_map().dom().contains(key@) && self.as_map()[key@] == e,
                None => !self.as_map().dom().contains(key@),
            },
    {
        proof {
            self.lemma_pairs();
        }
        let n = self.entries.len();
        let mut i: usize = 0;
        while i < n
            invariant
                self.wf(),
                n == self.pairs().len(),
                i <= n,
                forall|j: int| 0 <= j < i ==> (#[trigger] self.pairs()[j]).0@ != key@,
            decreases n - i,
        {
            if key_eq(&self.entries[i].0, key) {
                proof {
                    self.lemma_pairs();
                }
                return Some(self.entries[i].1);
            }
            i = i + 1;
        }
        proof {
            self.lemma_pairs();
            assert(!has_key(self.pairs(), key@));
        }
        None
    }

    /// Position of the first pair whose key is not below `key`.
    fn lower_bound(&self, key: &Key) -> (i: usize)
        requires
            self.wf(),
        ensures
            i <= self.pairs().len(),
            forall|j: int| 0 <= j < i ==> lex_lt((#[trigger] self.pairs()[j]).0@, key@),
            i < self.pairs().len() ==> !lex_lt(self.pairs()[i as int].0@, key@),
    {
        let n = self.entries.len();
        let mut i: usize = 0;
        while i < n
            invariant
                self.wf(),
                n == self.pairs().len(),
                i <= n,
                forall|j: int| 0 <= j < i ==> lex_lt((#[trigger] self.pairs()[j]).0@, key@),
            decreases n - i,
        {
            if !key_lt(&self.entries[i].0, key) {
                return i;
            }
            i = i + 1;
        }
        i
    }

    /// Insert or replace the mapping of `key`, returning the entry it
    /// replaced, if any.
    pub fn put(&mut self, key: Key, entry: MemIndexEntry) -> (prev: Option<MemIndexEntry>)
        requires
            old(self).wf(),
        ensures
            final(self).wf(),
            final(self).as_map() == old(self).as_map().insert(key@, entry),
            final(self).pairs().len() == old(self).pairs().len() + (if old(
                self,
            ).as_map().dom().contains(key@) {
                0int
            } else {
                1int
            }),
            match prev {
                Some(e) => old(self).as_map().dom().contains(key@) && old(self).as_map()[key@]
                    == e,
                None => !old(self).as_map().dom().contains(key@),
            },
    {
        let ghost s0 = old(self).entries@;
        let i = self.lower_bound(&key);
        let n = self.entries.len();
        proof {
            self.lemma_pairs();
            // `key` is above every key of the prefix and, where it is not the
            // key at `i`, below every key of the suffix.
            if i < n {
                lemma_lex_total(s0[i as int].0@, key@);
            }
            assert forall|j: int|
                (i as int) <= j < s0.len() && s0[i as int].0@ != key@ implies lex_lt(
                key@,
                (#[trigger] s0[j]).0@,
            ) by {
                lemma_lex_total(s0[i as int].0@, key@);
                if j > i {
                    lemma_lex_trans(key@, s0[i as int].0@, s0[j].0@);
                }
            }
        }
        if i < n && key_eq(&self.entries[i].0, &key) {
            let prev = self.entries[i].1;
            let replaced = self.entries.remove(i);
            self.entries.insert(i, (key, entry));
            proof {
                lemma_map_of_replace(s0, self.entries@, i as int);
                lemma_map_of_sorted(s0);
                assert(replaced.0@ == key@);
                assert(s0[i as int].0@ == key@);
                assert(map_of(s0).dom().contains(key@));
                assert(map_of(s0)[key@] == s0[i as int].1);
            }
            Some(prev)
        } else {
            proof {
                lemma_map_of_sorted(s0);
                if has_key(s0, key@) {
                    let j = choose|j: int| 0 <= j < s0.len() && (#[trigger] s0[j]).0@ == key@;
                    lemma_lex_irrefl(key@);
                    assert(false);
                }
            }
            self.entries.insert(i, (key, entry));
            proof {
                lemma_map_of_insert_at(s0, self.entries@, i as int);
                lemma_map_of_sorted(self.entries@);
            }
            None
        }
    }

    /// Remove the mapping of `key`, returning the entry it carried, if
    /// any. Recovery uses this when it replays a tombstone.
    pub fn delete(&mut self, key: &Key) -> (prev: Option<MemIndexEntry>)
        requires
            old(self).wf(),
        ensures
            final(self).wf(),
            final(self).as_map() == old(self).as_map().remove(key@),
            match prev {
                Some(e) => old(self).as_map().dom().contains(key@) && old(self).as_map()[key@]
                    == e,
                None => !old(self).as_map().dom().contains(key@),
            },
    {
        proof {
            self.lemma_pairs();
        }
        let ghost s0 = old(self).entries@;
        let n = self.entries.len();
        let mut i: usize = 0;
        while i < n
            invariant
                sorted(s0),
                s0 == old(self).entries@,
                self.entries@ == s0,
                n == s0.len(),
                i <= n,
                forall|j: int| 0 <= j < i ==> (#[trigger] s0[j]).0@ != key@,
            decreases n - i,
        {
            if key_eq(&self.entries[i].0, key) {
                let pair = self.entries.remove(i);
                proof {
                    lemma_map_of_remove_at(s0, self.entries@, i as int);
                    lemma_map_of_sorted(s0);
                    assert(s0[i as int].0@ == key@);
                    assert(pair == s0[i as int]);
                    assert(map_of(s0).dom().contains(key@));
                    assert(map_of(s0)[key@] == s0[i as int].1);
                }
                return Some(pair.1);
            }
            i = i + 1;
        }
        proof {
            assert(!has_key(s0, key@));
            lemma_map_of_sorted(s0);
            assert(map_of(s0) =~= map_of(s0).remove(key@));
        }
        None
    }

    /// The number of keys the index holds, tombstone entries included.
    pub fn size(&self) -> (n: usize)
        requires
            self.wf(),
        ensures
            n == self.as_map().dom().len(),
            n == self.pairs().len(),
    {
        proof {
            self.lemma_pairs();
        }
        self.entries.len()
    }

    /// Give the pairs up, in ascending key order; compaction iterates
    /// them to lay the surviving records out deterministically.
    pub fn into_entries(self) -> (v: Vec<(Key, MemIndexEntry)>)
        ensures
            v@ == self.pairs(),
    {
        self.entries
    }
}

} // verus!

