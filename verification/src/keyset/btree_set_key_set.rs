//! A key set that keeps its keys distinct and in order, as an ordered set
//! does.

use crate::keyset::{
    cut_keys,
    clip, dense, lemma_live_of_cut, lemma_live_of_dense, live_of, range_keys, Key, KeySet,
};
use crate::order::{
    key_le, key_less, key_lt, keys_equal, keys_increasing, keys_view, lemma_key_order,
};
use rand_xoshiro::Xoshiro256Plus;
use std::ops::Range;
use vstd::prelude::*;

verus! {

/// A key set that keeps its keys distinct and in increasing order; the
/// index of a key is its rank.
pub struct BTreeSetKeySet {
    keys: Vec<Key>,
}

impl View for BTreeSetKeySet {
    type V = Seq<Seq<u8>>;

    /// The keys in increasing order.
    closed spec fn view(&self) -> Seq<Seq<u8>> {
        keys_view(self.keys@)
    }
}

impl BTreeSetKeySet {
    /// The invariant: the keys increase strictly.
    pub closed spec fn inv(&self) -> bool {
        keys_increasing(self@)
    }

    /// The keys of a well-formed set increase strictly: the index of a key
    /// is its rank.
    pub proof fn lemma_keys_increasing(&self)
        requires
            self.inv(),
        ensures
            keys_increasing(self@),
    {
    }

    proof fn lemma_view(&self)
        ensures
            self@.len() == self.keys@.len(),
            forall|i: int| 0 <= i < self@.len() ==> #[trigger] self@[i] == self.keys@[i]@,
    {
    }

    /// An empty set; an ordered set reserves no room, so `capacity` is not
    /// used.
    pub fn new(capacity: usize) -> (s: Self)
        ensures
            s.inv(),
            s@ == Seq::<Seq<u8>>::empty(),
            keys_increasing(s@),
    {
        let s = BTreeSetKeySet { keys: Vec::new() };
        assert(s@ =~= Seq::<Seq<u8>>::empty());
        s
    }

    /// The first index whose key does not come before `key`.
    fn lower_bound(&self, key: &[u8]) -> (p: usize)
        requires
            self.inv(),
        ensures
            p <= self@.len(),
            forall|i: int| 0 <= i < p ==> key_lt(#[trigger] self@[i], key@),
            forall|i: int| p <= i < self@.len() ==> !key_lt(#[trigger] self@[i], key@),
    {
        proof {
            self.lemma_view();
            lemma_key_order();
        }
        let mut lo: usize = 0;
        let mut hi: usize = self.keys.len();
        while lo < hi
            invariant
                self.inv(),
                lo <= hi <= self@.len(),
                self@.len() == self.keys@.len(),
                forall|i: int| 0 <= i < self@.len() ==> #[trigger] self@[i] == self.keys@[i]@,
                forall|i: int| 0 <= i < lo ==> key_lt(#[trigger] self@[i], key@),
                forall|i: int| hi <= i < self@.len() ==> !key_lt(#[trigger] self@[i], key@),
            decreases hi - lo,
        {
            let mid = lo + (hi - lo) / 2;
            if key_less(self.keys[mid].as_slice(), key) {
                proof {
                    lemma_key_order();
                    assert(self@[mid as int] == self.keys@[mid as int]@);
                    assert forall|i: int| 0 <= i < mid + 1 implies key_lt(#[trigger] self@[i], key@) by {
                        if i < mid {
                            assert(key_lt(self@[i], self@[mid as int]));
                        }
                    }
                }
                lo = mid + 1;
            } else {
                proof {
                    lemma_key_order();
                    assert(self@[mid as int] == self.keys@[mid as int]@);
                    assert forall|i: int| mid <= i < self@.len() implies !key_lt(#[trigger] self@[i], key@) by {
                        if i > mid {
                            assert(key_lt(self@[mid as int], self@[i]));
                        }
                    }
                }
                hi = mid;
            }
        }
        lo
    }
}

impl KeySet for BTreeSetKeySet {
    open spec fn wf(&self) -> bool {
        self.inv()
    }

    open spec fn slots(&self) -> Seq<Option<Seq<u8>>> {
        dense(self@)
    }

    open spec fn must_contain(&self, key: Seq<u8>) -> bool {
        self@.contains(key)
    }

    open spec fn may_contain(&self, key: Seq<u8>) -> bool {
        self@.contains(key)
    }

    open spec fn index_ok(&self, idx: usize) -> bool {
        true
    }

    open spec fn range_ok(&self, start: usize, end: usize) -> bool {
        start < self@.len() && start <= end
    }

    open spec fn sort_orders(&self) -> bool {
        true
    }

    open spec fn removed_key_at(&self, idx: int) -> Option<Seq<u8>> {
        Some(self@[idx])
    }

    open spec fn slots_after_remove(&self, idx: int) -> Seq<Option<Seq<u8>>> {
        dense(self@.remove(idx))
    }

    open spec fn slots_without_range(&self, start: int, end: int) -> Seq<Option<Seq<u8>>> {
        dense(cut_keys(self@, start, end))
    }

    proof fn lemma_slots_hold_keys(&self) {
        broadcast use vstd::seq_lib::group_to_multiset_ensures;

        lemma_live_of_dense(self@);
    }

    proof fn lemma_in_bounds_accepted(&self, idx: usize, start: usize, end: usize) {
        assert(dense(self@).len() == self@.len());
        assert(self.index_ok(idx));
        assert(start <= end <= self.slots().len() && start < self.slots().len() ==> self.range_ok(
            start,
            end,
        ));
    }

    fn len(&self) -> (n: usize) {
        proof {
            self.lemma_view();
        }
        return self.keys.len();
    }

    fn is_empty(&self) -> (b: bool) {
        proof {
            self.lemma_view();
        }
        return self.keys.is_empty();
    }

    /// Inserts the key at its rank, unless it is held already.
    fn push(&mut self, key: Key)
        ensures
            old(self)@.contains(key@) ==> final(self)@ == old(self)@,
            !old(self)@.contains(key@) ==> exists|p: int|
                0 <= p <= old(self)@.len() && final(self)@ == old(self)@.insert(p, key@),
            keys_increasing(final(self)@),
    {
        broadcast use vstd::seq_lib::group_to_multiset_ensures;

        proof {
            self.lemma_view();
            lemma_key_order();
        }
        let p = self.lower_bound(key.as_slice());
        let ghost v = self@;
        if p < self.keys.len() && keys_equal(self.keys[p].as_slice(), key.as_slice()) {
            proof {
                assert(v[p as int] == key@);
                lemma_live_of_dense(v);
            }
            return;
        }
        proof {
            assert(!v.contains(key@)) by {
                if v.contains(key@) {
                    let j = choose|j: int| 0 <= j < v.len() && v[j] == key@;
                    if j < p {
                        assert(key_lt(v[j], key@));
                    } else if j > p {
                        assert(!key_lt(v[p as int], key@));
                        assert(key_lt(v[p as int], v[j]));
                    }
                }
            }
        }
        self.keys.insert(p, key);
        proof {
            let w = self@;
            assert(w =~= v.insert(p as int, key@));
            assert forall|i: int, j: int| 0 <= i < j < w.len() implies key_lt(#[trigger] w[i], #[trigger] w[j]) by {
                if j < p {
                    assert(key_lt(v[i], v[j]));
                } else if j == p {
                    assert(key_lt(v[i], key@));
                } else if i == p {
                    assert(!key_lt(v[j - 1], key@));
                    assert(v[j - 1] != key@);
                } else if i < p {
                    assert(key_lt(v[i], v[j - 1]));
                } else {
                    assert(key_lt(v[i - 1], v[j - 1]));
                }
            }
            assert(w[p as int] == key@);
            vstd::seq_lib::to_multiset_insert(v, p as int, key@);
            lemma_live_of_dense(v);
            lemma_live_of_dense(w);
        }
    }

    /// Takes out the key of the given rank.
    fn remove(&mut self, idx: usize) -> (r: Option<Key>)
        ensures
            r matches Some(k) && k@ == old(self)@[idx as int],
            final(self)@ == old(self)@.remove(idx as int),
            keys_increasing(final(self)@),
    {
        broadcast use vstd::seq_lib::group_to_multiset_ensures;

        proof {
            self.lemma_view();
        }
        let key = self.keys.remove(idx);
        proof {
            let v = old(self)@;
            let w = self@;
            assert(w =~= v.remove(idx as int));
            assert forall|i: int, j: int| 0 <= i < j < w.len() implies key_lt(#[trigger] w[i], #[trigger] w[j]) by {
                let i1 = if i < idx { i } else { i + 1 };
                let j1 = if j < idx { j } else { j + 1 };
                assert(key_lt(v[i1], v[j1]));
            }
            lemma_live_of_dense(v);
            lemma_live_of_dense(w);
        }
        return Some(key);
    }

    /// Takes out the keys from rank `idx_range.start` on, as many as the
    /// range is long or as there are.
    fn remove_range(&mut self, idx_range: Range<usize>)
        ensures
            final(self)@ == old(self)@.subrange(0, idx_range.start as int) + old(self)@.subrange(
                clip(idx_range.end, old(self)@.len()),
                old(self)@.len() as int,
            ),
            keys_increasing(final(self)@),
    {
        proof {
            self.lemma_view();
        }
        let start = idx_range.start;
        let n = self.keys.len();
        let end = if idx_range.end <= n {
            idx_range.end
        } else {
            n
        };
        let mut tail = self.keys.split_off(end);
        self.keys.truncate(start);
        self.keys.append(&mut tail);
        proof {
            let v = old(self)@;
            let (s, e) = (start as int, end as int);
            let w = self@;
            assert(w =~= v.subrange(0, s) + v.subrange(e, v.len() as int));
            assert forall|i: int, j: int| 0 <= i < j < w.len() implies key_lt(#[trigger] w[i], #[trigger] w[j]) by {
                let i1 = if i < s { i } else { i + e - s };
                let j1 = if j < s { j } else { j + e - s };
                assert(key_lt(v[i1], v[j1]));
            }
            assert(dense(w) =~= dense(v).subrange(0, s) + dense(v).subrange(e, v.len() as int));
            assert(dense(v).subrange(s, clip(idx_range.end, v.len())) =~= dense(v).subrange(s, e));
            assert(range_keys(dense(v), start, idx_range.end) == live_of(dense(v).subrange(s, e)));
            lemma_live_of_cut(dense(v), s, e);
        }
    }

    /// The key of the given rank, if there is one.
    fn get(&self, idx: usize) -> (r: Option<&Key>)
        ensures
            idx < self@.len() ==> (r matches Some(k) && k@ == self@[idx as int]),
            idx >= self@.len() ==> r is None,
    {
        proof {
            self.lemma_view();
        }
        if idx < self.keys.len() {
            proof {
                assert(self.slots()[idx as int] == Some(self@[idx as int]));
            }
            Some(&self.keys[idx])
        } else {
            None
        }
    }

    /// The smallest key; the generator is not drawn from.
    fn get_random(&self, rng: &mut Xoshiro256Plus) -> (k: &Key)
        ensures
            k@ == self@[0],
            forall|i: int| 0 <= i < self@.len() ==> key_le(k@, #[trigger] self@[i]),
            *final(rng) == *old(rng),
    {
        proof {
            self.lemma_view();
            assert(self.slots()[0] == Some(self@[0]));
            crate::keyset::lemma_live_of_contains(self.slots(), self@[0]);
        }
        &self.keys[0]
    }

    /// Searches for the key by its rank.
    fn contains(&self, key: &Key) -> (b: bool)
        ensures
            b == self@.contains(key@),
    {
        proof {
            self.lemma_view();
            lemma_key_order();
        }
        let p = self.lower_bound(key.as_slice());
        let b = p < self.keys.len() && keys_equal(self.keys[p].as_slice(), key.as_slice());
        proof {
            let v = self@;
            if b {
                assert(v[p as int] == key@);
            } else if v.contains(key@) {
                let j = choose|j: int| 0 <= j < v.len() && v[j] == key@;
                if j < p {
                    assert(key_lt(v[j], key@));
                } else if j > p {
                    assert(key_lt(v[p as int], v[j]));
                }
            }
        }
        b
    }

    /// Nothing to do: the keys are always in order.
    fn sort(&mut self)
        ensures
            final(self)@ == old(self)@,
    {
        proof {
            lemma_live_of_dense(self@);
            let v = self@;
            assert forall|a: int, b: int|
                0 <= a < b < self.slots().len() && (#[trigger] self.slots()[a]) is Some && (
                #[trigger] self.slots()[b]) is Some implies key_le(
                self.slots()[a]->0,
                self.slots()[b]->0,
            ) by {
                assert(key_lt(v[a], v[b]));
            }
        }
    }
}

} // verus!
