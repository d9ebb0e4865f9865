//! A key set on a vector of slots; taking a key out empties its slot, and
//! the empty slots are dropped once they make up a tenth of the slots.

use crate::keyset::{
    clip, lemma_live_of_contains, lemma_live_of_nonempty,
    lemma_live_of_push, lemma_live_of_take, live_of, slots_in_order, Key, KeySet,
};
use crate::order::{key_le, key_less, key_lt, keys_equal};
use crate::random::random_index;
use crate::sorting::{slot_view, slots_sorted, slots_view, sort_slots};
use rand_xoshiro::Xoshiro256Plus;
use std::ops::Range;
use vstd::prelude::*;

verus! {

/// The number of empty slots.
pub open spec fn nones(s: Seq<Option<Seq<u8>>>) -> nat
    decreases s.len(),
{
    if s.len() == 0 {
        0
    } else {
        nones(s.drop_last()) + if s.last() is None {
            1nat
        } else {
            0nat
        }
    }
}

/// The slots that hold keys, in their order.
pub open spec fn held(s: Seq<Option<Seq<u8>>>) -> Seq<Option<Seq<u8>>>
    decreases s.len(),
{
    if s.len() == 0 {
        Seq::empty()
    } else if s.last() is Some {
        held(s.drop_last()).push(s.last())
    } else {
        held(s.drop_last())
    }
}

/// Whether empty slots are fewer than a tenth of the slots. (The count is
/// compared as `10 * none_count < len`, which is the test
/// `none_count as f64 / len as f64 < 0.1` for fewer than 10^15 slots.)
pub open spec fn below_threshold(none_count: nat, len: nat) -> bool {
    10 * none_count < len
}

/// What compaction leaves of the slots.
pub open spec fn compacted(s: Seq<Option<Seq<u8>>>) -> Seq<Option<Seq<u8>>> {
    if below_threshold(nones(s), s.len()) {
        s
    } else {
        held(s)
    }
}

proof fn lemma_nones_concat(a: Seq<Option<Seq<u8>>>, b: Seq<Option<Seq<u8>>>)
    ensures
        nones(a + b) == nones(a) + nones(b),
    decreases b.len(),
{
    if b.len() == 0 {
        assert(a + b =~= a);
    } else {
        assert((a + b).drop_last() =~= a + b.drop_last());
        lemma_nones_concat(a, b.drop_last());
    }
}

proof fn lemma_nones_single(x: Option<Seq<u8>>)
    ensures
        nones(seq![x]) == if x is None {
            1nat
        } else {
            0nat
        },
{
    assert(seq![x].drop_last() =~= Seq::<Option<Seq<u8>>>::empty());
    assert(nones(Seq::<Option<Seq<u8>>>::empty()) == 0);
    assert(seq![x].last() == x);
}

proof fn lemma_nones_bound(s: Seq<Option<Seq<u8>>>)
    ensures
        nones(s) <= s.len(),
        nones(s) < s.len() ==> exists|i: int| 0 <= i < s.len() && s[i] is Some,
    decreases s.len(),
{
    if s.len() > 0 {
        lemma_nones_bound(s.drop_last());
        if nones(s) < s.len() && s.last() is None {
            let i = choose|i: int| 0 <= i < s.drop_last().len() && s.drop_last()[i] is Some;
            assert(s[i] is Some);
        }
    }
}

/// Emptying a held slot adds an empty slot.
proof fn lemma_nones_take(s: Seq<Option<Seq<u8>>>, i: int)
    requires
        0 <= i < s.len(),
        s[i] is Some,
    ensures
        nones(s.update(i, None)) == nones(s) + 1,
{
    let a = s.subrange(0, i);
    let b = s.subrange(i + 1, s.len() as int);
    assert(s =~= a + seq![s[i]] + b);
    assert(s.update(i, None) =~= a + seq![None] + b);
    lemma_nones_concat(a + seq![s[i]], b);
    lemma_nones_concat(a, seq![s[i]]);
    lemma_nones_concat(a + seq![None], b);
    lemma_nones_concat(a, seq![None]);
    lemma_nones_single(s[i]);
    lemma_nones_single(None);
}

/// The held slots hold the same keys, are as many as the slots that are
/// not empty, and keep their order.
proof fn lemma_held(s: Seq<Option<Seq<u8>>>)
    ensures
        live_of(held(s)) == live_of(s),
        nones(held(s)) == 0,
        held(s).len() == s.len() - nones(s),
        forall|i: int| 0 <= i < held(s).len() ==> (#[trigger] held(s)[i]) is Some,
        forall|i: int|
            0 <= i < held(s).len() ==> exists|j: int| 0 <= j < s.len() && s[j] == #[trigger] held(s)[i],
        slots_in_order(s) ==> slots_in_order(held(s)),
    decreases s.len(),
{
    if s.len() > 0 {
        let init = s.drop_last();
        lemma_held(init);
        lemma_nones_bound(init);
        let h = held(init);
        if s.last() is Some {
            assert(held(s) == h.push(s.last()));
            assert(held(s).drop_last() =~= h);
            lemma_live_of_push(h, s.last());
            assert forall|i: int|
                0 <= i < held(s).len() implies exists|j: int| 0 <= j < s.len() && s[j] == #[trigger] held(s)[i] by {
                if i < h.len() {
                    let j = choose|j: int| 0 <= j < init.len() && init[j] == h[i];
                    assert(s[j] == held(s)[i]);
                } else {
                    assert(s[s.len() - 1] == held(s)[i]);
                }
            }
            if slots_in_order(s) {
                assert forall|a: int, b: int|
                    0 <= a < b < held(s).len() && (#[trigger] held(s)[a]) is Some && (
                    #[trigger] held(s)[b]) is Some implies key_le(held(s)[a]->0, held(s)[b]->0) by {
                    if b < h.len() {
                        assert(held(s)[a] == h[a] && held(s)[b] == h[b]);
                        assert(slots_in_order(init)) by {
                            assert forall|x: int, y: int|
                                0 <= x < y < init.len() && (#[trigger] init[x]) is Some && (
                                #[trigger] init[y]) is Some implies key_le(init[x]->0, init[y]->0) by {
                                assert(init[x] == s[x] && init[y] == s[y]);
                            }
                        }
                    } else {
                        let j = choose|j: int| 0 <= j < init.len() && init[j] == h[a];
                        assert(s[j] == held(s)[a]);
                        assert(held(s)[b] == s[s.len() - 1]);
                    }
                }
            }
        } else {
            assert(held(s) == h);
            assert forall|i: int|
                0 <= i < held(s).len() implies exists|j: int| 0 <= j < s.len() && s[j] == #[trigger] held(s)[i] by {
                let j = choose|j: int| 0 <= j < init.len() && init[j] == h[i];
                assert(s[j] == held(s)[i]);
            }
            if slots_in_order(s) {
                assert(slots_in_order(init)) by {
                    assert forall|x: int, y: int|
                        0 <= x < y < init.len() && (#[trigger] init[x]) is Some && (
                        #[trigger] init[y]) is Some implies key_le(init[x]->0, init[y]->0) by {
                        assert(init[x] == s[x] && init[y] == s[y]);
                    }
                }
            }
        }
    }
}

/// Slot counts as a multiset: the keys, and the empty slots.
proof fn lemma_slot_counts(s: Seq<Option<Seq<u8>>>)
    ensures
        forall|k: Seq<u8>| #[trigger] live_of(s).count(k) == s.to_multiset().count(Some(k)),
        nones(s) == s.to_multiset().count(None),
    decreases s.len(),
{
    broadcast use vstd::seq_lib::group_to_multiset_ensures;
    broadcast use vstd::multiset::group_multiset_axioms;

    if s.len() > 0 {
        let init = s.drop_last();
        lemma_slot_counts(init);
        assert(s =~= init.push(s.last()));
        assert(s.to_multiset() =~= init.to_multiset().insert(s.last()));
        assert forall|k: Seq<u8>| #[trigger] live_of(s).count(k) == s.to_multiset().count(Some(k)) by {
            assert(live_of(init).count(k) == init.to_multiset().count(Some(k)));
            match s.last() {
                Some(k0) => {
                    assert(live_of(s) == live_of(init).insert(k0));
                },
                None => {
                    assert(live_of(s) == live_of(init));
                },
            }
        }
    } else {
        assert(s.to_multiset() =~= vstd::multiset::Multiset::empty());
        assert(live_of(s) =~= vstd::multiset::Multiset::empty());
    }
}

/// Slots with the same multiset hold the same keys and as many empty
/// slots.
proof fn lemma_same_slots(s: Seq<Option<Seq<u8>>>, t: Seq<Option<Seq<u8>>>)
    requires
        s.to_multiset() == t.to_multiset(),
    ensures
        live_of(s) == live_of(t),
        nones(s) == nones(t),
        s.len() == t.len(),
{
    broadcast use vstd::seq_lib::group_to_multiset_ensures;

    lemma_slot_counts(s);
    lemma_slot_counts(t);
    assert(live_of(s) =~= live_of(t));
    vstd::seq_lib::to_multiset_len(s);
    vstd::seq_lib::to_multiset_len(t);
}

/// Slots with the slots `start..end` emptied.
pub open spec fn emptied(s: Seq<Option<Seq<u8>>>, start: int, end: int) -> Seq<Option<Seq<u8>>> {
    Seq::new(s.len(), |j: int| if start <= j < end { None } else { s[j] })
}

/// A key set on a vector of slots, with the count of empty slots and a flag
/// that says whether the keys need sorting.
pub struct VecOptionKeySet {
    keys: Vec<Option<Key>>,
    sorted: bool,
    none_count: usize,
}

impl View for VecOptionKeySet {
    type V = Seq<Option<Seq<u8>>>;

    /// The slots in index order.
    closed spec fn view(&self) -> Seq<Option<Seq<u8>>> {
        slots_view(self.keys@)
    }
}

impl VecOptionKeySet {
    /// The flag that lets `sort` skip the sorting.
    pub closed spec fn marked_sorted(&self) -> bool {
        self.sorted
    }

    /// The count of empty slots that the set keeps.
    pub closed spec fn none_count(&self) -> usize {
        self.none_count
    }

    /// The invariant: the count is that of the empty slots, and the empty
    /// slots are fewer than a tenth of the slots unless there are none.
    pub closed spec fn inv(&self) -> bool {
        &&& self.none_count == nones(self@)
        &&& self@.len() == 0 || below_threshold(nones(self@), self@.len())
    }

    proof fn lemma_view(&self)
        ensures
            self@.len() == self.keys@.len(),
            forall|i: int| 0 <= i < self@.len() ==> #[trigger] self@[i] == slot_view(self.keys@[i]),
    {
    }

    /// An empty set; `capacity` is the room reserved for slots.
    pub fn new(capacity: usize) -> (s: Self)
        ensures
            s.inv(),
            s@ == Seq::<Option<Seq<u8>>>::empty(),
            s.marked_sorted(),
    {
        let s = VecOptionKeySet { keys: Vec::with_capacity(capacity), sorted: true, none_count: 0 };
        assert(s@ =~= Seq::<Option<Seq<u8>>>::empty());
        s
    }

    /// Drops the empty slots, unless they are fewer than a tenth of the
    /// slots.
    pub fn maybe_flatten_in_place(&mut self)
        requires
            old(self).none_count() == nones(old(self)@),
        ensures
            final(self)@ == compacted(old(self)@),
            final(self).none_count() == nones(final(self)@),
            final(self).marked_sorted() == old(self).marked_sorted(),
            below_threshold(nones(old(self)@), old(self)@.len()) ==> final(self)@ == old(self)@,
            !below_threshold(nones(old(self)@), old(self)@.len()) ==> final(self).none_count() == 0,
    {
        proof {
            self.lemma_view();
        }
        let len = self.keys.len();
        if len > 0 && self.none_count <= (len - 1) / 10 {
            return;
        }
        let mut kept: Vec<Option<Key>> = Vec::new();
        let mut i: usize = 0;
        while i < len
            invariant
                len == self.keys@.len(),
                len == old(self)@.len(),
                i <= len,
                self.sorted == old(self).sorted,
                self.none_count == old(self).none_count,
                forall|j: int| i <= j < len ==> #[trigger] slot_view(self.keys@[j]) == old(self)@[j],
                slots_view(kept@) == held(old(self)@.subrange(0, i as int)),
            decreases len - i,
        {
            let ghost before = self.keys@;
            let slot = self.keys[i].take();
            proof {
                let s = old(self)@;
                assert(s.subrange(0, i + 1).drop_last() =~= s.subrange(0, i as int));
                assert(s.subrange(0, i + 1).last() == s[i as int]);
                assert(slot == before[i as int]);
                assert(slot_view(slot) == s[i as int]);
                assert forall|j: int| i + 1 <= j < len implies #[trigger] slot_view(self.keys@[j]) == old(self)@[j] by {
                    assert(self.keys@[j] == before[j]);
                }
            }
            match slot {
                Some(k) => {
                    let ghost kept_before = kept@;
                    kept.push(Some(k));
                    proof {
                        assert(slots_view(kept@) =~= slots_view(kept_before).push(Some(k@)));
                        assert(held(old(self)@.subrange(0, i + 1)) == held(old(self)@.subrange(0, i as int)).push(
                            old(self)@[i as int],
                        ));
                    }
                },
                None => {
                    proof {
                        assert(held(old(self)@.subrange(0, i + 1)) == held(old(self)@.subrange(0, i as int)));
                    }
                },
            }
            i += 1;
        }
        self.keys = kept;
        self.none_count = 0;
        proof {
            assert(old(self)@.subrange(0, len as int) =~= old(self)@);
            lemma_held(old(self)@);
        }
    }
}

impl VecOptionKeySet {
    /// The index of the slot that holds the `r`-th key, counting from zero.
    fn nth_held(&self, r: usize) -> (i: usize)
        requires
            self.inv(),
            r + nones(self@) < self@.len(),
        ensures
            i < self@.len(),
            self@[i as int] is Some,
    {
        proof {
            self.lemma_view();
        }
        let n = self.keys.len();
        let mut seen: usize = 0;
        let mut i: usize = 0;
        assert(self@.subrange(0, 0) =~= Seq::<Option<Seq<u8>>>::empty());
        while i < n
            invariant
                n == self@.len(),
                n == self.keys@.len(),
                forall|j: int| 0 <= j < n ==> #[trigger] self@[j] == slot_view(self.keys@[j]),
                i <= n,
                seen <= r,
                seen + nones(self@.subrange(0, i as int)) == i,
                r + nones(self@) < n,
            decreases n - i,
        {
            proof {
                assert(self@.subrange(0, i + 1).drop_last() =~= self@.subrange(0, i as int));
                assert(self@.subrange(0, i + 1).last() == self@[i as int]);
            }
            if self.keys[i].is_some() {
                if seen == r {
                    return i;
                }
                seen += 1;
            }
            i += 1;
        }
        proof {
            assert(self@.subrange(0, n as int) =~= self@);
        }
        0
    }
}

impl KeySet for VecOptionKeySet {
    open spec fn wf(&self) -> bool {
        self.inv()
    }

    open spec fn slots(&self) -> Seq<Option<Seq<u8>>> {
        self@
    }

    open spec fn must_contain(&self, key: Seq<u8>) -> bool {
        self@.contains(Some(key))
    }

    open spec fn may_contain(&self, key: Seq<u8>) -> bool {
        self@.contains(Some(key))
    }

    open spec fn index_ok(&self, idx: usize) -> bool {
        true
    }

    open spec fn range_ok(&self, start: usize, end: usize) -> bool {
        start >= end || end <= self@.len()
    }

    open spec fn sort_orders(&self) -> bool {
        !self.marked_sorted() || slots_in_order(self@)
    }

    open spec fn removed_key_at(&self, idx: int) -> Option<Seq<u8>> {
        self@[idx]
    }

    open spec fn slots_after_remove(&self, idx: int) -> Seq<Option<Seq<u8>>> {
        if self@[idx] is Some { compacted(self@.update(idx, None)) } else { self@ }
    }

    open spec fn slots_without_range(&self, start: int, end: int) -> Seq<Option<Seq<u8>>> {
        compacted(if start < end { emptied(self@, start, end) } else { self@ })
    }

    proof fn lemma_slots_hold_keys(&self) {
        lemma_nones_bound(self@);
        lemma_live_of_nonempty(self@);
    }

    proof fn lemma_in_bounds_accepted(&self, idx: usize, start: usize, end: usize) {
        assert(self.index_ok(idx));
        assert(start <= end <= self.slots().len() ==> self.range_ok(start, end));
    }

    fn len(&self) -> (n: usize) {
        proof {
            self.lemma_view();
        }
        return self.keys.len();
    }

    fn is_empty(&self) -> (b: bool) {
        proof {
            self.lemma_view();
        }
        return self.keys.is_empty();
    }

    /// Appends a slot with the key; the flag drops when the last slot holds
    /// a key that comes after it.
    fn push(&mut self, key: Key)
        ensures
            final(self)@ == old(self)@.push(Some(key@)),
            final(self).marked_sorted() == (old(self).marked_sorted() && !(old(self)@.len() > 0
                && old(self)@.last() is Some && key_lt(key@, old(self)@.last()->0))),
    {
        proof {
            self.lemma_view();
        }
        let n = self.keys.len();
        if self.sorted && n > 0 {
            match &self.keys[n - 1] {
                Some(last_key) => {
                    if key_less(key.as_slice(), last_key.as_slice()) {
                        self.sorted = false;
                    }
                },
                None => {},
            }
        }
        self.keys.push(Some(key));
        proof {
            let v = old(self)@;
            assert(self@ =~= v.push(Some(key@)));
            assert(self@.drop_last() =~= v);
            lemma_live_of_push(v, Some(key@));
            lemma_nones_bound(v);
            assert(self@.contains(Some(key@))) by {
                assert(self@[v.len() as int] == Some(key@));
            }
        }
    }

    /// Empties the slot and counts it; `None` when it was empty already.
    /// Then compacts if the empty slots reach a tenth.
    fn remove(&mut self, idx: usize) -> (r: Option<Key>)
        ensures
            old(self)@[idx as int] is None ==> r is None && *final(self) == *old(self),
            old(self)@[idx as int] is Some ==> (r matches Some(k) && Some(k@) == old(self)@[idx as int])
                && final(self)@ == compacted(old(self)@.update(idx as int, None)),
    {
        proof {
            self.lemma_view();
        }
        let n = self.keys.len();
        if self.keys[idx].is_none() {
            return None;
        }
        let ghost before = self.keys@;
        let slot = self.keys[idx].take();
        proof {
            assert(slot == before[idx as int]);
        }
        match slot {
            None => {
                assert(false);
                return None;
            },
            Some(key) => {
                proof {
                    let v = old(self)@;
                    assert(self@ =~= v.update(idx as int, None));
                    lemma_nones_take(v, idx as int);
                    lemma_nones_bound(self@);
                    lemma_live_of_take(v, idx as int);
                    lemma_live_of_contains(v, key@);
                    assert(self.none_count + 1 <= n);
                }
                self.none_count = self.none_count + 1;
                self.maybe_flatten_in_place();
                proof {
                    let t = old(self)@.update(idx as int, None);
                    lemma_held(t);
                }
                return Some(key);
            },
        }
    }

    /// A key taken out of a random slot. When that slot is empty, one of
    /// the held slots is drawn alike (by its rank among them), which is what
    /// drawing slots until one holds a key comes down to.
    fn remove_random(&mut self, rng: &mut Xoshiro256Plus) -> (k: Key) {
        proof {
            self.lemma_view();
            lemma_nones_bound(self@);
        }
        let n = self.keys.len();
        let first = random_index(rng, n);
        let idx = if self.keys[first].is_some() {
            first
        } else {
            let held_count = n - self.none_count;
            let r = random_index(rng, held_count);
            self.nth_held(r)
        };
        match self.remove(idx) {
            Some(key) => key,
            None => {
                assert(false);
                Vec::new()
            },
        }
    }

    /// Empties the slots `idx_range` and counts the keys taken, then
    /// compacts if the empty slots reach a tenth.
    fn remove_range(&mut self, idx_range: Range<usize>)
        ensures
            final(self)@ == compacted(
                if idx_range.start < idx_range.end {
                    emptied(old(self)@, idx_range.start as int, idx_range.end as int)
                } else {
                    old(self)@
                },
            ),
    {
        broadcast use vstd::multiset::group_multiset_axioms;

        proof {
            self.lemma_view();
            lemma_nones_bound(self@);
        }
        let start = idx_range.start;
        let end = idx_range.end;
        let ghost v = old(self)@;
        let mut taken: usize = 0;
        let n = self.keys.len();
        if start < end {
            let mut idx = start;
            assert(v.subrange(start as int, start as int) =~= Seq::<Option<Seq<u8>>>::empty());
            assert(emptied(v, start as int, start as int) =~= v);
            assert(live_of(v).add(live_of(Seq::<Option<Seq<u8>>>::empty())) =~= live_of(v));
            while idx < end
                invariant
                    start <= idx <= end <= v.len(),
                    v == old(self)@,
                    n == v.len(),
                    self.keys@.len() == v.len(),
                    self.sorted == old(self).sorted,
                    self.none_count == old(self).none_count,
                    forall|j: int| 0 <= j < v.len() ==> #[trigger] self@[j] == slot_view(self.keys@[j]),
                    self@ == emptied(v, start as int, idx as int),
                    nones(self@) == nones(v) + taken,
                    nones(self@) <= v.len(),
                    live_of(self@).add(live_of(v.subrange(start as int, idx as int))) == live_of(v),
                decreases end - idx,
            {
                let ghost cur = self@;
                let ghost before = self.keys@;
                let slot = self.keys[idx].take();
                proof {
                    assert(slot == before[idx as int]);
                    assert(cur[idx as int] == slot_view(before[idx as int]));
                    assert(cur[idx as int] == v[idx as int]);
                    assert(slot_view(slot) == v[idx as int]);
                    assert(self@ =~= cur.update(idx as int, None));
                    assert(self@ =~= emptied(v, start as int, idx + 1));
                    assert(v.subrange(start as int, idx + 1) =~= v.subrange(start as int, idx as int).push(v[idx as int]));
                    lemma_live_of_push(v.subrange(start as int, idx as int), v[idx as int]);
                    lemma_live_of_take(cur, idx as int);
                    lemma_nones_bound(self@);
                }
                if slot.is_some() {
                    proof {
                        lemma_nones_take(cur, idx as int);
                        lemma_live_of_contains(cur, slot_view(slot)->0);
                        let k = slot_view(slot)->0;
                        assert(live_of(cur).count(k) > 0);
                        assert(live_of(self@).add(live_of(v.subrange(start as int, idx + 1))) =~= live_of(v));
                    }
                    taken = taken + 1;
                } else {
                    proof {
                        assert(self@ =~= cur);
                        assert(live_of(v.subrange(start as int, idx + 1)) == live_of(v.subrange(start as int, idx as int)));
                    }
                }
                idx += 1;
            }
        }
        proof {
            assert(self.none_count + taken <= n);
        }
        self.none_count = self.none_count + taken;
        proof {
            let t = self@;
            if start < end {
                assert(live_of(t) =~= live_of(v).sub(live_of(v.subrange(start as int, end as int))));
                assert(v.subrange(start as int, clip(end, v.len())) =~= v.subrange(start as int, end as int));
            } else {
                assert(t =~= v);
                if start == end && end <= v.len() {
                    assert(v.subrange(start as int, clip(end, v.len())) =~= Seq::<Option<Seq<u8>>>::empty());
                }
                assert(live_of(v).sub(vstd::multiset::Multiset::empty()) =~= live_of(v));
            }
        }
        self.maybe_flatten_in_place();
        proof {
            lemma_held(if start < end { emptied(v, start as int, end as int) } else { v });
        }
    }

    /// The key in the slot, if the index is within the slots and the slot
    /// holds one.
    fn get(&self, idx: usize) -> (r: Option<&Key>)
        ensures
            idx < self@.len() && self@[idx as int] is Some ==> (r matches Some(k) && Some(k@)
                == self@[idx as int]),
            idx >= self@.len() || self@[idx as int] is None ==> r is None,
    {
        proof {
            self.lemma_view();
        }
        if idx < self.keys.len() {
            match &self.keys[idx] {
                Some(k) => Some(k),
                None => None,
            }
        } else {
            None
        }
    }

    /// The key in a random slot. When that slot is empty, one of the held
    /// slots is drawn alike (by its rank among them), which is what drawing
    /// slots until one holds a key comes down to.
    fn get_random(&self, rng: &mut Xoshiro256Plus) -> (k: &Key) {
        proof {
            self.lemma_view();
            lemma_nones_bound(self@);
        }
        let n = self.keys.len();
        let first = random_index(rng, n);
        let idx = if self.keys[first].is_some() {
            first
        } else {
            let held_count = n - self.none_count;
            let r = random_index(rng, held_count);
            self.nth_held(r)
        };
        let key = self.get(idx).unwrap();
        proof {
            lemma_live_of_contains(self@, key@);
        }
        key
    }

    /// Looks through every slot.
    fn contains(&self, key: &Key) -> (b: bool)
        ensures
            b == self@.contains(Some(key@)),
    {
        proof {
            self.lemma_view();
        }
        let mut i: usize = 0;
        while i < self.keys.len()
            invariant
                i <= self@.len(),
                self@.len() == self.keys@.len(),
                forall|j: int| 0 <= j < self@.len() ==> #[trigger] self@[j] == slot_view(self.keys@[j]),
                forall|j: int| 0 <= j < i ==> self@[j] != Some(key@),
            decreases self@.len() - i,
        {
            match &self.keys[i] {
                Some(k) => {
                    if keys_equal(k.as_slice(), key.as_slice()) {
                        assert(self@[i as int] == Some(key@));
                        return true;
                    }
                },
                None => {},
            }
            i += 1;
        }
        false
    }

    /// Compacts if the empty slots reach a tenth, then sorts unless the flag
    /// says the keys are sorted.
    fn sort(&mut self)
        ensures
            old(self).marked_sorted() ==> final(self)@ == compacted(old(self)@),
            !old(self).marked_sorted() ==> slots_sorted(final(self)@)
                && final(self)@.to_multiset() == compacted(old(self)@).to_multiset(),
            final(self).marked_sorted(),
    {
        proof {
            lemma_held(self@);
            lemma_nones_bound(self@);
        }
        self.maybe_flatten_in_place();
        let ghost mid = self@;
        if !self.sorted {
            sort_slots(&mut self.keys);
            self.sorted = true;
            proof {
                lemma_same_slots(mid, self@);
                assert forall|a: int, b: int|
                    0 <= a < b < self@.len() && (#[trigger] self@[a]) is Some && (
                    #[trigger] self@[b]) is Some implies key_le(self@[a]->0, self@[b]->0) by {
                    assert(crate::sorting::slot_le(self@[a], self@[b]));
                }
            }
        }
    }
}

} // verus!
