//! A key set on a vector of keys.

use crate::keyset::{
    cut_keys,
    clip, range_keys, dense, lemma_live_of_dense, lemma_swap_to_multiset, live_of, Key, KeySet,
};
use crate::order::{key_less, key_lt, keys_equal, keys_sorted, keys_view};
use crate::sorting::{sort_keys, swap_items};
use std::ops::Range;
use vstd::prelude::*;

verus! {

/// A key set on a vector of keys, with a flag that says whether they need
/// sorting.
pub struct VecKeySet {
    keys: Vec<Key>,
    sorted: bool,
}

impl View for VecKeySet {
    type V = Seq<Seq<u8>>;

    /// The keys in index order.
    closed spec fn view(&self) -> Seq<Seq<u8>> {
        keys_view(self.keys@)
    }
}

impl VecKeySet {
    proof fn lemma_view(&self)
        ensures
            self@.len() == self.keys@.len(),
            forall|i: int| 0 <= i < self@.len() ==> #[trigger] self@[i] == self.keys@[i]@,
    {
    }

    /// The flag that lets `sort` skip the sorting.
    pub closed spec fn marked_sorted(&self) -> bool {
        self.sorted
    }

    /// An empty set; `capacity` is the room reserved for keys.
    pub fn new(capacity: usize) -> (s: Self)
        ensures
            s@ == Seq::<Seq<u8>>::empty(),
            s.marked_sorted(),
    {
        let s = VecKeySet { keys: Vec::with_capacity(capacity), sorted: true };
        assert(s@ =~= Seq::<Seq<u8>>::empty());
        s
    }
}

impl KeySet for VecKeySet {
    open spec fn wf(&self) -> bool {
        true
    }

    open spec fn slots(&self) -> Seq<Option<Seq<u8>>> {
        dense(self@)
    }

    open spec fn must_contain(&self, key: Seq<u8>) -> bool {
        self@.contains(key)
    }

    open spec fn may_contain(&self, key: Seq<u8>) -> bool {
        self@.contains(key)
    }

    open spec fn index_ok(&self, idx: usize) -> bool {
        idx < self@.len()
    }

    open spec fn range_ok(&self, start: usize, end: usize) -> bool {
        start <= end <= self@.len()
    }

    open spec fn sort_orders(&self) -> bool {
        !self.marked_sorted() || keys_sorted(self@)
    }

    open spec fn removed_key_at(&self, idx: int) -> Option<Seq<u8>> {
        Some(self@.last())
    }

    open spec fn slots_after_remove(&self, idx: int) -> Seq<Option<Seq<u8>>> {
        dense(self@.update(idx, self@.last()).update(self@.len() - 1, self@[idx]).remove(idx))
    }

    open spec fn slots_without_range(&self, start: int, end: int) -> Seq<Option<Seq<u8>>> {
        dense(cut_keys(self@, start, end))
    }

    proof fn lemma_slots_hold_keys(&self) {
        broadcast use vstd::seq_lib::group_to_multiset_ensures;

        lemma_live_of_dense(self@);
    }

    proof fn lemma_in_bounds_accepted(&self, idx: usize, start: usize, end: usize) {
        assert(dense(self@).len() == self@.len());
        assert(idx < self.slots().len() ==> self.index_ok(idx));
        assert(start <= end <= self.slots().len() ==> self.range_ok(start, end));
    }

    fn len(&self) -> (n: usize) {
        return self.keys.len();
    }

    fn is_empty(&self) -> (b: bool) {
        return self.keys.is_empty();
    }

    /// Appends the key; the flag drops when the key comes before the last.
    fn push(&mut self, key: Key)
        ensures
            final(self)@ == old(self)@.push(key@),
            final(self).marked_sorted() == (old(self).marked_sorted() && !(old(self)@.len() > 0
                && key_lt(key@, old(self)@.last()))),
    {
        broadcast use vstd::seq_lib::group_to_multiset_ensures;

        let n = self.keys.len();
        if self.sorted && n > 0 && key_less(key.as_slice(), self.keys[n - 1].as_slice()) {
            self.sorted = false;
        }
        self.keys.push(key);
        proof {
            assert(self@ =~= old(self)@.push(key@));
            lemma_live_of_dense(self@);
            lemma_live_of_dense(old(self)@);
        }
    }

    /// Swaps the slot with the last one and removes at the index: the key
    /// that comes out is the last key, and the key that was at the index
    /// moves to the end.
    fn remove(&mut self, idx: usize) -> (r: Option<Key>)
        ensures
            r matches Some(k) && k@ == old(self)@.last(),
            final(self)@ == old(self)@.update(idx as int, old(self)@.last()).update(
                old(self)@.len() - 1,
                old(self)@[idx as int],
            ).remove(idx as int),
            final(self).marked_sorted() == old(self).marked_sorted(),
    {
        broadcast use vstd::seq_lib::group_to_multiset_ensures;

        let len = self.keys.len();
        swap_items(&mut self.keys, idx, len - 1);
        let key = self.keys.remove(idx);
        proof {
            let v = old(self)@;
            let u = v.update(idx as int, v.last()).update(v.len() - 1, v[idx as int]);
            assert(keys_view(old(self).keys@.update(idx as int, old(self).keys@[len - 1]).update(
                len - 1,
                old(self).keys@[idx as int],
            )) =~= u);
            assert(self@ =~= u.remove(idx as int));
            lemma_swap_to_multiset(v, idx as int, v.len() - 1);
            lemma_live_of_dense(v);
            lemma_live_of_dense(self@);
            assert(u[idx as int] == v.last());
        }
        return Some(key);
    }

    /// Removes the keys `idx_range`, keeping the order of the rest.
    fn remove_range(&mut self, idx_range: Range<usize>)
        ensures
            final(self)@ == old(self)@.subrange(0, idx_range.start as int) + old(self)@.subrange(
                idx_range.end as int,
                old(self)@.len() as int,
            ),
            final(self).marked_sorted() == old(self).marked_sorted(),
    {
        proof {
            self.lemma_view();
        }
        let mut tail = self.keys.split_off(idx_range.end);
        self.keys.truncate(idx_range.start);
        self.keys.append(&mut tail);
        proof {
            let v = old(self)@;
            let (s, e) = (idx_range.start as int, idx_range.end as int);
            assert(self@ =~= v.subrange(0, s) + v.subrange(e, v.len() as int));
            assert(dense(self@) =~= dense(v).subrange(0, s) + dense(v).subrange(e, v.len() as int));
            assert(dense(v).subrange(s, clip(idx_range.end, v.len())) =~= dense(v).subrange(s, e));
            assert(range_keys(dense(v), idx_range.start, idx_range.end) == live_of(dense(v).subrange(s, e)));
            crate::keyset::lemma_live_of_cut(dense(v), s, e);
        }
    }

    /// The key at the index.
    fn get(&self, idx: usize) -> (r: Option<&Key>)
        ensures
            r matches Some(k) && k@ == self@[idx as int],
    {
        proof {
            self.lemma_view();
            assert(self.slots()[idx as int] == Some(self@[idx as int]));
        }
        return Some(&self.keys[idx]);
    }

    /// Looks through every key.
    fn contains(&self, key: &Key) -> (b: bool)
        ensures
            b == self@.contains(key@),
    {
        let mut i: usize = 0;
        while i < self.keys.len()
            invariant
                i <= self@.len(),
                forall|j: int| 0 <= j < i ==> self@[j] != key@,
            decreases self@.len() - i,
        {
            if keys_equal(self.keys[i].as_slice(), key.as_slice()) {
                assert(self@[i as int] == key@);
                return true;
            }
            i += 1;
        }
        false
    }

    /// Sorts the keys unless the flag says they are sorted.
    fn sort(&mut self)
        ensures
            old(self).marked_sorted() ==> final(self)@ == old(self)@,
            !old(self).marked_sorted() ==> keys_sorted(final(self)@)
                && final(self)@.to_multiset() == old(self)@.to_multiset(),
            final(self).marked_sorted(),
    {
        if !self.sorted {
            sort_keys(&mut self.keys);
            self.sorted = true;
        }
        proof {
            lemma_live_of_dense(old(self)@);
            lemma_live_of_dense(self@);
            vstd::seq_lib::to_multiset_len(old(self)@);
            vstd::seq_lib::to_multiset_len(self@);
        }
    }
}

} // verus!
