//! An ordered byte-keyed in-memory store.
//!
//! The MVCC layer consumes an ordered key-value store with point lookups and
//! bidirectional range scans. `Memory` keeps its entries sorted by key in
//! lexicographic order; its mathematical view is a map from keys to values,
//! and the scan endpoints `first_in` / `last_in` are specified against that
//! map together with the lexicographic order.

use vstd::prelude::*;
use vstd::seq_lib::seq_to_set_is_finite;
use vstd::set_lib::lemma_len_subset;
use crate::order::{lex_lt, lemma_lex_asymmetric, lemma_lex_total, lemma_lex_transitive,
    bytes_lt, bytes_eq};

verus! {

/// One endpoint of a scan range.
pub enum Bound {
    Included(Vec<u8>),
    Excluded(Vec<u8>),
    Unbounded,
}

/// The mathematical model of a [`Bound`].
pub enum BoundModel {
    Included(Seq<u8>),
    Excluded(Seq<u8>),
    Unbounded,
}

impl View for Bound {
    type V = BoundModel;

    open spec fn view(&self) -> BoundModel {
        match self {
            Bound::Included(k) => BoundModel::Included(k@),
            Bound::Excluded(k) => BoundModel::Excluded(k@),
            Bound::Unbounded => BoundModel::Unbounded,
        }
    }
}

/// Is `k` at or above the lower bound `lo`?
pub open spec fn above_lo(lo: BoundModel, k: Seq<u8>) -> bool {
    match lo {
        BoundModel::Included(a) => !lex_lt(k, a),
        BoundModel::Excluded(a) => lex_lt(a, k),
        BoundModel::Unbounded => true,
    }
}

/// Is `k` at or below the upper bound `hi`?
pub open spec fn below_hi(hi: BoundModel, k: Seq<u8>) -> bool {
    match hi {
        BoundModel::Included(b) => !lex_lt(b, k),
        BoundModel::Excluded(b) => lex_lt(k, b),
        BoundModel::Unbounded => true,
    }
}

/// Is `k` within the range `[lo, hi]`?
pub open spec fn in_bounds(lo: BoundModel, hi: BoundModel, k: Seq<u8>) -> bool {
    above_lo(lo, k) && below_hi(hi, k)
}

/// Exec check of `above_lo`.
pub fn check_above_lo(lo: &Bound, k: &[u8]) -> (r: bool)
    ensures
        r == above_lo(lo@, k@),
{
    match lo {
        Bound::Included(a) => !bytes_lt(k, a.as_slice()),
        Bound::Excluded(a) => bytes_lt(a.as_slice(), k),
        Bound::Unbounded => true,
    }
}

/// Exec check of `below_hi`.
pub fn check_below_hi(hi: &Bound, k: &[u8]) -> (r: bool)
    ensures
        r == below_hi(hi@, k@),
{
    match hi {
        Bound::Included(b) => !bytes_lt(b.as_slice(), k),
        Bound::Excluded(b) => bytes_lt(k, b.as_slice()),
        Bound::Unbounded => true,
    }
}

/// Copies a byte vector.
pub fn copy_bytes(v: &Vec<u8>) -> (r: Vec<u8>)
    ensures
        r@ == v@,
{
    vstd::slice::slice_to_vec(v.as_slice())
}

/// The keys of `m` that lie within `[lo, hi]`.
pub open spec fn keys_in_range(m: Map<Seq<u8>, Seq<u8>>, lo: BoundModel, hi: BoundModel)
    -> Set<Seq<u8>> {
    m.dom().filter(|k: Seq<u8>| in_bounds(lo, hi, k))
}

/// Entries sorted strictly by key.
pub open spec fn sorted_entries(s: Seq<(Seq<u8>, Seq<u8>)>) -> bool {
    forall|i: int, j: int| 0 <= i < j < s.len() ==> lex_lt(#[trigger] s[i].0, #[trigger] s[j].0)
}

/// The map held by an entry sequence.
pub open spec fn map_of(s: Seq<(Seq<u8>, Seq<u8>)>) -> Map<Seq<u8>, Seq<u8>> {
    Map::new(
        |k: Seq<u8>| exists|i: int| 0 <= i < s.len() && (#[trigger] s[i]).0 == k,
        |k: Seq<u8>| s[choose|i: int| 0 <= i < s.len() && (#[trigger] s[i]).0 == k].1,
    )
}

/// In a sorted entry sequence, entry `i` is the binding for its key.
proof fn lemma_entry_lookup(s: Seq<(Seq<u8>, Seq<u8>)>, i: int)
    requires
        sorted_entries(s),
        0 <= i < s.len(),
    ensures
        map_of(s).contains_key(s[i].0),
        map_of(s)[s[i].0] == s[i].1,
{
    assert(map_of(s).contains_key(s[i].0));
    let j = choose|j: int| 0 <= j < s.len() && (#[trigger] s[j]).0 == s[i].0;
    if j != i {
        if j < i {
            lemma_lex_asymmetric(s[j].0, s[i].0);
        } else {
            lemma_lex_asymmetric(s[i].0, s[j].0);
        }
        assert(false);
    }
}

/// An in-memory ordered byte store.
pub struct Memory {
    entries: Vec<(Vec<u8>, Vec<u8>)>,
}

impl View for Memory {
    type V = Map<Seq<u8>, Seq<u8>>;

    closed spec fn view(&self) -> Map<Seq<u8>, Seq<u8>> {
        map_of(self.entry_seq())
    }
}

impl Memory {
    /// The entries as a sequence of (key, value) pairs.
    pub closed spec fn entry_seq(&self) -> Seq<(Seq<u8>, Seq<u8>)> {
        self.entries@.map_values(|e: (Vec<u8>, Vec<u8>)| (e.0@, e.1@))
    }

    /// Entries are sorted strictly by key.
    pub closed spec fn wf(&self) -> bool {
        sorted_entries(self.entry_seq())
    }

    /// The store's key set is finite.
    pub proof fn lemma_dom_finite(&self)
        ensures
            self@.dom().finite(),
    {
        let s = self.entry_seq();
        let keys = s.map_values(|e: (Seq<u8>, Seq<u8>)| e.0);
        assert(self@.dom() =~= keys.to_set()) by {
            assert forall|k: Seq<u8>| self@.dom().contains(k)
                implies keys.to_set().contains(k) by {
                let i = choose|i: int| 0 <= i < s.len() && (#[trigger] s[i]).0 == k;
                assert(keys[i] == k);
            }
            assert forall|k: Seq<u8>| keys.to_set().contains(k)
                implies self@.dom().contains(k) by {
                let i = choose|i: int| 0 <= i < keys.len() && keys[i] == k;
                assert(s[i].0 == k);
            }
        }
        seq_to_set_is_finite(keys);
    }

    /// Creates an empty store.
    pub fn new() -> (r: Memory)
        ensures
            r.wf(),
            r@ == Map::<Seq<u8>, Seq<u8>>::empty(),
    {
        let r = Memory { entries: Vec::new() };
        proof {
            assert(r@ =~= Map::<Seq<u8>, Seq<u8>>::empty());
        }
        r
    }

    /// Looks up the value stored under `key`.
    pub fn get(&self, key: &[u8]) -> (r: Option<Vec<u8>>)
        requires
            self.wf(),
        ensures
            match r {
                Some(v) => self@.contains_key(key@) && v@ == self@[key@],
                None => !self@.contains_key(key@),
            },
    {
        let ghost s = self.entry_seq();
        let n: usize = self.entries.len();
        let mut i: usize = 0;
        while i < n
            invariant
                0 <= i <= n,
                n == s.len(),
                s == self.entry_seq(),
                self.wf(),
                forall|j: int| 0 <= j < i ==> (#[trigger] s[j]).0 != key@,
            decreases n - i,
        {
            let e = &self.entries[i];
            if bytes_eq(e.0.as_slice(), key) {
                proof {
                    lemma_entry_lookup(s, i as int);
                }
                return Some(copy_bytes(&e.1));
            }
            i = i + 1;
        }
        proof {
            if self@.contains_key(key@) {
                let j = choose|j: int| 0 <= j < s.len() && (#[trigger] s[j]).0 == key@;
                assert(false);
            }
        }
        None
    }

    /// Stores `value` under `key`, replacing any existing value.
    pub fn set(&mut self, key: &[u8], value: Vec<u8>)
        requires
            old(self).wf(),
        ensures
            final(self).wf(),
            final(self)@ == old(self)@.insert(key@, value@),
    {
        let ghost s = self.entry_seq();
        let n: usize = self.entries.len();
        let mut idx: usize = 0;
        while idx < n && bytes_lt(self.entries[idx].0.as_slice(), key)
            invariant
                0 <= idx <= n,
                n == s.len(),
                s == self.entry_seq(),
                self.wf(),
                *self == *old(self),
                forall|j: int| 0 <= j < idx ==> lex_lt((#[trigger] s[j]).0, key@),
            decreases n - idx,
        {
            idx = idx + 1;
        }
        if idx < n && bytes_eq(self.entries[idx].0.as_slice(), key) {
            // replace in place
            self.entries.remove(idx);
            self.entries.insert(idx, (vstd::slice::slice_to_vec(key), value));
            proof {
                let s2 = self.entry_seq();
                assert(s2 =~= s.update(idx as int, (key@, value@)));
                assert(forall|j: int| 0 <= j < s2.len() ==> (#[trigger] s2[j]).0 == s[j].0);
                assert(sorted_entries(s2)) by {
                    assert forall|x: int, y: int| 0 <= x < y < s2.len()
                        implies lex_lt(s2[x].0, s2[y].0) by {
                        assert(s2[x].0 == s[x].0 && s2[y].0 == s[y].0);
                    }
                }
                lemma_map_update(s, idx as int, key@, value@);
            }
        } else {
            // insert a new entry; everything before idx is below key, and
            // everything at or after idx is above it
            proof {
                if idx < n {
                    lemma_lex_total(s[idx as int].0, key@);
                    assert(lex_lt(key@, s[idx as int].0));
                }
                assert forall|j: int| idx <= j < n implies lex_lt(key@, (#[trigger] s[j]).0) by {
                    if j > idx {
                        lemma_lex_transitive(key@, s[idx as int].0, s[j].0);
                    }
                }
                assert forall|j: int| 0 <= j < n implies (#[trigger] s[j]).0 != key@ by {
                    if j < idx {
                        lemma_lex_asymmetric(s[j].0, key@);
                    } else {
                        lemma_lex_asymmetric(key@, s[j].0);
                    }
                }
            }
            self.entries.insert(idx, (vstd::slice::slice_to_vec(key), value));
            proof {
                let s2 = self.entry_seq();
                assert(s2 =~= s.insert(idx as int, (key@, value@)));
                assert(forall|j: int| 0 <= j < idx ==> (#[trigger] s2[j]).0 == s[j].0);
                assert(s2[idx as int].0 == key@);
                assert(forall|j: int| idx < j < s2.len() ==> (#[trigger] s2[j]).0 == s[j - 1].0);
                assert(sorted_entries(s2)) by {
                    assert forall|x: int, y: int| 0 <= x < y < s2.len()
                        implies lex_lt(s2[x].0, s2[y].0) by {
                        if y < idx {
                        } else if x < idx && y == idx {
                            assert(lex_lt(s[x].0, key@));
                        } else if x < idx && y > idx {
                            assert(s2[y].0 == s[y - 1].0);
                            assert(x < y - 1 || x == y - 1);
                            if x == y - 1 {
                                assert(lex_lt(s[x].0, key@));
                                lemma_lex_transitive(s[x].0, key@, s[y - 1].0);
                            }
                        } else if x == idx {
                            assert(lex_lt(key@, s[y - 1].0));
                        } else {
                        }
                    }
                }
                lemma_map_insert(s, idx as int, key@, value@);
            }
        }
    }

    /// Removes the value stored under `key`, if any.
    pub fn delete(&mut self, key: &[u8])
        requires
            old(self).wf(),
        ensures
            final(self).wf(),
            final(self)@ == old(self)@.remove(key@),
    {
        let ghost s = self.entry_seq();
        let n: usize = self.entries.len();
        let mut i: usize = 0;
        while i < n
            invariant
                0 <= i <= n,
                n == s.len(),
                s == self.entry_seq(),
                self.wf(),
                *self == *old(self),
                forall|j: int| 0 <= j < i ==> (#[trigger] s[j]).0 != key@,
            decreases n - i,
        {
            if bytes_eq(self.entries[i].0.as_slice(), key) {
                self.entries.remove(i);
                proof {
                    let s2 = self.entry_seq();
                    assert(s2 =~= s.remove(i as int));
                    assert(forall|j: int| 0 <= j < i ==> (#[trigger] s2[j]).0 == s[j].0);
                    assert(forall|j: int| i <= j < s2.len() ==> (#[trigger] s2[j]).0 == s[j + 1].0);
                    assert(sorted_entries(s2));
                    lemma_map_remove(s, i as int);
                }
                return;
            }
            i = i + 1;
        }
        proof {
            if self@.contains_key(key@) {
                let j = choose|j: int| 0 <= j < s.len() && (#[trigger] s[j]).0 == key@;
                assert(false);
            }
            assert(self@ =~= old(self)@.remove(key@));
        }
    }

    /// Flushes buffered writes; everything is already in memory.
    pub fn flush(&mut self)
        ensures
            *final(self) == *old(self),
    {
    }

    /// The entry with the least key within `[lo, hi]`, if any.
    pub fn first_in(&self, lo: &Bound, hi: &Bound) -> (r: Option<(Vec<u8>, Vec<u8>)>)
        requires
            self.wf(),
        ensures
            match r {
                Some(e) => {
                    &&& self@.contains_key(e.0@)
                    &&& e.1@ == self@[e.0@]
                    &&& in_bounds(lo@, hi@, e.0@)
                    &&& forall|k2: Seq<u8>| self@.contains_key(k2) && in_bounds(lo@, hi@, k2)
                        ==> !lex_lt(k2, e.0@)
                },
                None => forall|k2: Seq<u8>| self@.contains_key(k2)
                    ==> !in_bounds(lo@, hi@, k2),
            },
    {
        let ghost s = self.entry_seq();
        let n: usize = self.entries.len();
        let mut i: usize = 0;
        while i < n
            invariant
                0 <= i <= n,
                n == s.len(),
                s == self.entry_seq(),
                self.wf(),
                forall|j: int| 0 <= j < i ==> !in_bounds(lo@, hi@, (#[trigger] s[j]).0),
            decreases n - i,
        {
            let e = &self.entries[i];
            if check_above_lo(lo, e.0.as_slice()) && check_below_hi(hi, e.0.as_slice()) {
                proof {
                    lemma_entry_lookup(s, i as int);
                    assert forall|k2: Seq<u8>|
                        self@.contains_key(k2) && in_bounds(lo@, hi@, k2)
                            implies !lex_lt(k2, s[i as int].0) by {
                        let j = choose|j: int| 0 <= j < s.len() && (#[trigger] s[j]).0 == k2;
                        if j < i {
                            assert(false);
                        } else if j == i {
                            lemma_lex_asymmetric(k2, s[i as int].0);
                        } else {
                            lemma_lex_asymmetric(s[i as int].0, s[j].0);
                        }
                    }
                }
                return Some((copy_bytes(&e.0), copy_bytes(&e.1)));
            }
            i = i + 1;
        }
        proof {
            assert forall|k2: Seq<u8>| self@.contains_key(k2)
                implies !in_bounds(lo@, hi@, k2) by {
                let j = choose|j: int| 0 <= j < s.len() && (#[trigger] s[j]).0 == k2;
            }
        }
        None
    }

    /// The entry with the greatest key within `[lo, hi]`, if any.
    pub fn last_in(&self, lo: &Bound, hi: &Bound) -> (r: Option<(Vec<u8>, Vec<u8>)>)
        requires
            self.wf(),
        ensures
            match r {
                Some(e) => {
                    &&& self@.contains_key(e.0@)
                    &&& e.1@ == self@[e.0@]
                    &&& in_bounds(lo@, hi@, e.0@)
                    &&& forall|k2: Seq<u8>| self@.contains_key(k2) && in_bounds(lo@, hi@, k2)
                        ==> !lex_lt(e.0@, k2)
                },
                None => forall|k2: Seq<u8>| self@.contains_key(k2)
                    ==> !in_bounds(lo@, hi@, k2),
            },
    {
        let ghost s = self.entry_seq();
        let n: usize = self.entries.len();
        let mut i: usize = n;
        while i > 0
            invariant
                0 <= i <= n,
                n == s.len(),
                s == self.entry_seq(),
                self.wf(),
                forall|j: int| i <= j < n ==> !in_bounds(lo@, hi@, (#[trigger] s[j]).0),
            decreases i,
        {
            i = i - 1;
            let e = &self.entries[i];
            if check_above_lo(lo, e.0.as_slice()) && check_below_hi(hi, e.0.as_slice()) {
                proof {
                    lemma_entry_lookup(s, i as int);
                    assert forall|k2: Seq<u8>|
                        self@.contains_key(k2) && in_bounds(lo@, hi@, k2)
                            implies !lex_lt(s[i as int].0, k2) by {
                        let j = choose|j: int| 0 <= j < s.len() && (#[trigger] s[j]).0 == k2;
                        if j > i {
                            assert(false);
                        } else if j == i {
                            lemma_lex_asymmetric(s[i as int].0, k2);
                        } else {
                            lemma_lex_asymmetric(s[j].0, s[i as int].0);
                        }
                    }
                }
                return Some((copy_bytes(&e.0), copy_bytes(&e.1)));
            }
        }
        proof {
            assert forall|k2: Seq<u8>| self@.contains_key(k2)
                implies !in_bounds(lo@, hi@, k2) by {
                let j = choose|j: int| 0 <= j < s.len() && (#[trigger] s[j]).0 == k2;
            }
        }
        None
    }
}

/// Replacing the value at a present key updates the map binding.
proof fn lemma_map_update(s: Seq<(Seq<u8>, Seq<u8>)>, idx: int, k: Seq<u8>, v: Seq<u8>)
    requires
        sorted_entries(s),
        0 <= idx < s.len(),
        s[idx].0 == k,
    ensures
        map_of(s.update(idx, (k, v))) == map_of(s).insert(k, v),
{
    let s2 = s.update(idx, (k, v));
    assert(forall|j: int| 0 <= j < s2.len() && j != idx ==> #[trigger] s2[j] == s[j]);
    assert(sorted_entries(s2)) by {
        assert(forall|j: int| 0 <= j < s2.len() ==> (#[trigger] s2[j]).0 == s[j].0);
    }
    assert(map_of(s2) =~= map_of(s).insert(k, v)) by {
        assert forall|k2: Seq<u8>| #[trigger] map_of(s2).contains_key(k2)
            == map_of(s).insert(k, v).contains_key(k2) by {
            if map_of(s2).contains_key(k2) {
                let j = choose|j: int| 0 <= j < s2.len() && (#[trigger] s2[j]).0 == k2;
                assert(s[j].0 == k2);
            }
            if map_of(s).insert(k, v).contains_key(k2) {
                if k2 == k {
                    assert(s2[idx].0 == k2);
                } else {
                    let j = choose|j: int| 0 <= j < s.len() && (#[trigger] s[j]).0 == k2;
                    assert(s2[j].0 == k2);
                }
            }
        }
        assert forall|k2: Seq<u8>| map_of(s2).contains_key(k2)
            implies #[trigger] map_of(s2)[k2] == map_of(s).insert(k, v)[k2] by {
            if k2 == k {
                lemma_entry_lookup(s2, idx);
            } else {
                let j = choose|j: int| 0 <= j < s2.len() && (#[trigger] s2[j]).0 == k2;
                assert(j != idx);
                lemma_entry_lookup(s2, j);
                lemma_entry_lookup(s, j);
            }
        }
    }
}

/// Inserting an entry at its sorted position inserts the map binding.
proof fn lemma_map_insert(s: Seq<(Seq<u8>, Seq<u8>)>, idx: int, k: Seq<u8>, v: Seq<u8>)
    requires
        sorted_entries(s),
        0 <= idx <= s.len(),
        forall|j: int| 0 <= j < s.len() ==> (#[trigger] s[j]).0 != k,
        sorted_entries(s.insert(idx, (k, v))),
    ensures
        map_of(s.insert(idx, (k, v))) == map_of(s).insert(k, v),
{
    let s2 = s.insert(idx, (k, v));
    assert(forall|j: int| 0 <= j < idx ==> #[trigger] s2[j] == s[j]);
    assert(s2[idx] == (k, v));
    assert(forall|j: int| idx < j < s2.len() ==> #[trigger] s2[j] == s[j - 1]);
    assert(map_of(s2) =~= map_of(s).insert(k, v)) by {
        assert forall|k2: Seq<u8>| #[trigger] map_of(s2).contains_key(k2)
            == map_of(s).insert(k, v).contains_key(k2) by {
            if map_of(s2).contains_key(k2) {
                let j = choose|j: int| 0 <= j < s2.len() && (#[trigger] s2[j]).0 == k2;
                if j != idx {
                    let j0 = if j < idx { j } else { j - 1 };
                    assert(s[j0].0 == k2);
                }
            }
            if map_of(s).insert(k, v).contains_key(k2) {
                if k2 == k {
                    assert(s2[idx].0 == k2);
                } else {
                    let j = choose|j: int| 0 <= j < s.len() && (#[trigger] s[j]).0 == k2;
                    let j2 = if j < idx { j } else { j + 1 };
                    assert(s2[j2].0 == k2);
                }
            }
        }
        assert forall|k2: Seq<u8>| map_of(s2).contains_key(k2)
            implies #[trigger] map_of(s2)[k2] == map_of(s).insert(k, v)[k2] by {
            if k2 == k {
                lemma_entry_lookup(s2, idx);
            } else {
                let j = choose|j: int| 0 <= j < s2.len() && (#[trigger] s2[j]).0 == k2;
                assert(j != idx);
                let j0 = if j < idx { j } else { j - 1 };
                lemma_entry_lookup(s2, j);
                lemma_entry_lookup(s, j0);
            }
        }
    }
}

/// Removing an entry removes the map binding.
proof fn lemma_map_remove(s: Seq<(Seq<u8>, Seq<u8>)>, idx: int)
    requires
        sorted_entries(s),
        0 <= idx < s.len(),
    ensures
        map_of(s.remove(idx)) == map_of(s).remove(s[idx].0),
{
    let k = s[idx].0;
    let s2 = s.remove(idx);
    assert(forall|j: int| 0 <= j < idx ==> #[trigger] s2[j] == s[j]);
    assert(forall|j: int| idx <= j < s2.len() ==> #[trigger] s2[j] == s[j + 1]);
    assert(sorted_entries(s2));
    assert(map_of(s2) =~= map_of(s).remove(k)) by {
        assert forall|k2: Seq<u8>| #[trigger] map_of(s2).contains_key(k2)
            == map_of(s).remove(k).contains_key(k2) by {
            if map_of(s2).contains_key(k2) {
                let j = choose|j: int| 0 <= j < s2.len() && (#[trigger] s2[j]).0 == k2;
                let j0 = if j < idx { j } else { j + 1 };
                assert(s[j0].0 == k2);
                if k2 == k {
                    if j0 < idx {
                        lemma_lex_asymmetric(s[j0].0, s[idx].0);
                    } else {
                        lemma_lex_asymmetric(s[idx].0, s[j0].0);
                    }
                    assert(false);
                }
            }
            if map_of(s).remove(k).contains_key(k2) {
                let j = choose|j: int| 0 <= j < s.len() && (#[trigger] s[j]).0 == k2;
                assert(j != idx);
                let j2 = if j < idx { j } else { j - 1 };
                assert(s2[j2].0 == k2);
            }
        }
        assert forall|k2: Seq<u8>| map_of(s2).contains_key(k2)
            implies #[trigger] map_of(s2)[k2] == map_of(s).remove(k)[k2] by {
            let j = choose|j: int| 0 <= j < s2.len() && (#[trigger] s2[j]).0 == k2;
            let j0 = if j < idx { j } else { j + 1 };
            lemma_entry_lookup(s2, j);
            lemma_entry_lookup(s, j0);
        }
    }
}

} // verus!
