//! Key sets: the valid keys of a workload section, from which updates,
//! queries and deletes pick their keys. Each implementation trades the
//! cost of its operations differently.

use crate::order::key_le;
use crate::random::random_index;
use rand_xoshiro::Xoshiro256Plus;
use std::ops::Range;
use vstd::multiset::Multiset;
use vstd::prelude::*;

pub mod btree_set_key_set;
pub mod vec_bloom_filter_key_set;
pub mod hashed;
pub mod key_table;
pub mod vec_hash_set_key_set;
pub mod vec_hash_map_index_key_set;
pub mod vec_key_set;
pub mod vec_option_key_set;

verus! {

/// A key: a byte string.
pub type Key = Vec<u8>;

/// The keys held by a sequence of slots, each as often as it occurs.
pub open spec fn live_of(s: Seq<Option<Seq<u8>>>) -> Multiset<Seq<u8>>
    decreases s.len(),
{
    if s.len() == 0 {
        Multiset::empty()
    } else {
        match s.last() {
            Some(k) => live_of(s.drop_last()).insert(k),
            None => live_of(s.drop_last()),
        }
    }
}

/// Slots that all hold keys.
pub open spec fn dense(keys: Seq<Seq<u8>>) -> Seq<Option<Seq<u8>>> {
    Seq::new(keys.len(), |i: int| Some(keys[i]))
}

/// The keys held in the slots come in nondecreasing order (empty slots
/// aside).
pub open spec fn slots_in_order(s: Seq<Option<Seq<u8>>>) -> bool {
    forall|i: int, j: int|
        0 <= i < j < s.len() && (#[trigger] s[i]) is Some && (#[trigger] s[j]) is Some ==> key_le(
            s[i]->0,
            s[j]->0,
        )
}

/// The end of a range of slots, cut at the number of slots.
pub open spec fn clip(end: usize, len: nat) -> int {
    if end <= len {
        end as int
    } else {
        len as int
    }
}

/// The keys held in the slots `start..end`, the end cut at the number of
/// slots; none when the range is empty.
pub open spec fn range_keys(s: Seq<Option<Seq<u8>>>, start: usize, end: usize) -> Multiset<Seq<u8>> {
    if start <= clip(end, s.len()) {
        live_of(s.subrange(start as int, clip(end, s.len())))
    } else {
        Multiset::empty()
    }
}

/// The keys left when the keys at `start..end` are cut out and the rest
/// close up in order, the end cut at the number of keys.
pub open spec fn cut_keys(s: Seq<Seq<u8>>, start: int, end: int) -> Seq<Seq<u8>> {
    s.subrange(0, start) + s.subrange(
        if end <= s.len() {
            end
        } else {
            s.len() as int
        },
        s.len() as int,
    )
}

/// The keys of two runs of slots are the keys of each.
pub proof fn lemma_live_of_concat(s: Seq<Option<Seq<u8>>>, t: Seq<Option<Seq<u8>>>)
    ensures
        live_of(s + t) =~= live_of(s).add(live_of(t)),
    decreases t.len(),
{
    if t.len() == 0 {
        assert(s + t =~= s);
    } else {
        assert((s + t).drop_last() =~= s + t.drop_last());
        assert((s + t).last() == t.last());
        lemma_live_of_concat(s, t.drop_last());
    }
}

/// The keys of a single slot.
pub proof fn lemma_live_of_single(x: Option<Seq<u8>>)
    ensures
        live_of(seq![x]) =~= match x {
            Some(k) => Multiset::singleton(k),
            None => Multiset::empty(),
        },
{
    assert(seq![x].drop_last() =~= Seq::<Option<Seq<u8>>>::empty());
    assert(live_of(Seq::<Option<Seq<u8>>>::empty()) == Multiset::<Seq<u8>>::empty());
    assert(seq![x].last() == x);
    if let Some(k) = x {
        assert(Multiset::<Seq<u8>>::empty().insert(k) =~= Multiset::singleton(k));
    }
}

/// The keys of slots with one more slot at the end.
pub proof fn lemma_live_of_push(s: Seq<Option<Seq<u8>>>, x: Option<Seq<u8>>)
    ensures
        live_of(s.push(x)) =~= match x {
            Some(k) => live_of(s).insert(k),
            None => live_of(s),
        },
{
    assert(s.push(x).drop_last() =~= s);
}

/// Dense slots hold exactly their keys.
pub proof fn lemma_live_of_dense(keys: Seq<Seq<u8>>)
    ensures
        live_of(dense(keys)) =~= keys.to_multiset(),
    decreases keys.len(),
{
    broadcast use vstd::seq_lib::group_to_multiset_ensures;

    if keys.len() > 0 {
        let init = keys.drop_last();
        assert(dense(keys).drop_last() =~= dense(init));
        assert(keys =~= init.push(keys.last()));
        lemma_live_of_dense(init);
    }
}

/// A key is held by the slots just when some slot holds it.
pub proof fn lemma_live_of_contains(s: Seq<Option<Seq<u8>>>, k: Seq<u8>)
    ensures
        live_of(s).contains(k) <==> exists|i: int| 0 <= i < s.len() && s[i] == Some(k),
    decreases s.len(),
{
    if s.len() > 0 {
        let init = s.drop_last();
        lemma_live_of_contains(init, k);
        if exists|i: int| 0 <= i < init.len() && init[i] == Some(k) {
            let i = choose|i: int| 0 <= i < init.len() && init[i] == Some(k);
            assert(s[i] == Some(k));
        }
        if exists|i: int| 0 <= i < s.len() && s[i] == Some(k) {
            let i = choose|i: int| 0 <= i < s.len() && s[i] == Some(k);
            if i < s.len() - 1 {
                assert(init[i] == Some(k));
            }
        }
    }
}

/// Slots hold a key just when some slot is not empty.
pub proof fn lemma_live_of_nonempty(s: Seq<Option<Seq<u8>>>)
    ensures
        live_of(s).len() > 0 <==> exists|i: int| 0 <= i < s.len() && s[i] is Some,
    decreases s.len(),
{
    if s.len() > 0 {
        let init = s.drop_last();
        lemma_live_of_nonempty(init);
        if exists|i: int| 0 <= i < init.len() && init[i] is Some {
            let i = choose|i: int| 0 <= i < init.len() && init[i] is Some;
            assert(s[i] is Some);
        }
        if exists|i: int| 0 <= i < s.len() && s[i] is Some {
            let i = choose|i: int| 0 <= i < s.len() && s[i] is Some;
            if i < s.len() - 1 {
                assert(init[i] is Some);
            }
        }
    }
}

/// Emptying slot `i` takes its key out.
pub proof fn lemma_live_of_take(s: Seq<Option<Seq<u8>>>, i: int)
    requires
        0 <= i < s.len(),
    ensures
        live_of(s.update(i, None)) =~= match s[i] {
            Some(k) => live_of(s).remove(k),
            None => live_of(s),
        },
{
    let a = s.subrange(0, i);
    let b = s.subrange(i + 1, s.len() as int);
    assert(s =~= a + seq![s[i]] + b);
    assert(s.update(i, None) =~= a + seq![None] + b);
    lemma_live_of_concat(a + seq![s[i]], b);
    lemma_live_of_concat(a, seq![s[i]]);
    lemma_live_of_concat(a + seq![None], b);
    lemma_live_of_concat(a, seq![None]);
    lemma_live_of_single(s[i]);
    lemma_live_of_single(None);
}

/// Removing the slots `start..end` takes their keys out.
pub proof fn lemma_live_of_cut(s: Seq<Option<Seq<u8>>>, start: int, end: int)
    requires
        0 <= start <= end <= s.len(),
    ensures
        live_of(s.subrange(0, start) + s.subrange(end, s.len() as int)) =~= live_of(s).sub(
            live_of(s.subrange(start, end)),
        ),
{
    let a = s.subrange(0, start);
    let m = s.subrange(start, end);
    let b = s.subrange(end, s.len() as int);
    assert(s =~= a + m + b);
    lemma_live_of_concat(a + m, b);
    lemma_live_of_concat(a, m);
    lemma_live_of_concat(a, b);
}

/// Replacing one item changes the multiset by that item.
pub proof fn lemma_update_to_multiset<A>(s: Seq<A>, i: int, x: A)
    requires
        0 <= i < s.len(),
    ensures
        s.update(i, x).to_multiset() =~= s.to_multiset().remove(s[i]).insert(x),
{
    broadcast use vstd::seq_lib::group_to_multiset_ensures;

    assert(s.update(i, x) =~= s.remove(i).insert(i, x));
    vstd::seq_lib::to_multiset_insert(s.remove(i), i, x);
}

/// Swapping two items keeps the multiset.
pub proof fn lemma_swap_to_multiset<A>(s: Seq<A>, i: int, j: int)
    requires
        0 <= i < s.len(),
        0 <= j < s.len(),
    ensures
        s.update(i, s[j]).update(j, s[i]).to_multiset() =~= s.to_multiset(),
{
    broadcast use vstd::seq_lib::group_to_multiset_ensures;
    broadcast use vstd::multiset::group_multiset_axioms;

    if i != j {
        let u = s.update(i, s[j]);
        lemma_update_to_multiset(s, i, s[j]);
        lemma_update_to_multiset(u, j, s[i]);
        assert(s.to_multiset().count(s[i]) > 0);
        assert(s.to_multiset().count(s[j]) > 0);
    } else {
        assert(s.update(i, s[j]).update(j, s[i]) =~= s);
    }
}

/// A set of valid keys. Keys are addressed by index; an index may also
/// address an empty slot, whose key was taken out.
pub trait KeySet: Sized {
    /// The invariant of the structure.
    spec fn wf(&self) -> bool;

    /// What each index addresses: a key, or an empty slot.
    spec fn slots(&self) -> Seq<Option<Seq<u8>>>;

    /// Keys for which `contains` must answer true.
    spec fn must_contain(&self, key: Seq<u8>) -> bool;

    /// Keys for which `contains` may answer true.
    spec fn may_contain(&self, key: Seq<u8>) -> bool;

    /// Indices that `get` accepts.
    spec fn index_ok(&self, idx: usize) -> bool;

    /// Ranges that `remove_range` accepts.
    spec fn range_ok(&self, start: usize, end: usize) -> bool;

    /// Whether `sort` leaves the keys in order.
    spec fn sort_orders(&self) -> bool;

    /// The key that taking out the key at index `idx` gives back, if any.
    spec fn removed_key_at(&self, idx: int) -> Option<Seq<u8>>;

    /// The slots that taking out the key at index `idx` leaves.
    spec fn slots_after_remove(&self, idx: int) -> Seq<Option<Seq<u8>>>;

    /// The slots that taking out the slots `start..end` leaves.
    spec fn slots_without_range(&self, start: int, end: int) -> Seq<Option<Seq<u8>>>;

    /// A set with slots holds a key.
    proof fn lemma_slots_hold_keys(&self)
        requires
            self.wf(),
            self.slots().len() > 0,
        ensures
            live_of(self.slots()).len() > 0,
    ;

    /// Every index within the slots, and every nonempty range of them that
    /// starts within them, is accepted.
    proof fn lemma_in_bounds_accepted(&self, idx: usize, start: usize, end: usize)
        requires
            self.wf(),
        ensures
            idx < self.slots().len() ==> self.index_ok(idx),
            start <= end <= self.slots().len() && start < self.slots().len() ==> self.range_ok(
                start,
                end,
            ),
    ;

    /// The number of slots.
    fn len(&self) -> (n: usize)
        requires
            self.wf(),
        ensures
            n == self.slots().len(),
    ;

    /// Whether there are no slots.
    fn is_empty(&self) -> (b: bool)
        requires
            self.wf(),
        ensures
            b == (self.slots().len() == 0),
    ;

    /// Adds a key. A set that keeps each key once leaves a key it holds.
    fn push(&mut self, key: Key)
        requires
            old(self).wf(),
        ensures
            final(self).wf(),
            final(self).must_contain(key@),
            live_of(final(self).slots()) == live_of(old(self).slots()).insert(key@) || (live_of(
                old(self).slots(),
            ).contains(key@) && live_of(final(self).slots()) == live_of(old(self).slots())),
            final(self).slots().len() <= old(self).slots().len() + 1,
    ;

    /// Takes a key out, given an index; `None` when the index addresses an
    /// empty slot.
    fn remove(&mut self, idx: usize) -> (r: Option<Key>)
        requires
            old(self).wf(),
            idx < old(self).slots().len(),
        ensures
            final(self).wf(),
            final(self).slots().len() <= old(self).slots().len(),
            old(self).slots()[idx as int] is Some <==> r is Some,
            match r {
                Some(k) => Some(k@),
                None => None,
            } == old(self).removed_key_at(idx as int),
            final(self).slots() == old(self).slots_after_remove(idx as int),
            r is None ==> *final(self) == *old(self),
            match r {
                Some(k) => live_of(old(self).slots()).contains(k@) && live_of(final(self).slots())
                    == live_of(old(self).slots()).remove(k@),
                None => old(self).slots()[idx as int] is None && final(self).slots() == old(
                    self,
                ).slots(),
            },
    ;

    /// Takes out a key at a random index.
    fn remove_random(&mut self, rng: &mut Xoshiro256Plus) -> (k: Key)
        requires
            old(self).wf(),
            old(self).slots().len() > 0,
        ensures
            final(self).wf(),
            live_of(old(self).slots()).contains(k@),
            live_of(final(self).slots()) == live_of(old(self).slots()).remove(k@),
            exists|i: int|
                #![trigger old(self).removed_key_at(i)]
                0 <= i < old(self).slots().len() && old(self).slots()[i] is Some && Some(k@) == old(
                    self,
                ).removed_key_at(i) && final(self).slots() == old(self).slots_after_remove(i),
    {
        let n = self.len();
        let idx = random_index(rng, n);
        match self.remove(idx) {
            Some(key) => key,
            None => {
                // The slot was empty. Drawing slots until one holds a key
                // comes down to drawing one of the held slots alike: draw
                // its rank among them.
                proof {
                    self.lemma_slots_hold_keys();
                }
                let n = self.len();
                let mut h: usize = 0;
                let mut c: usize = 0;
                assert(self.slots().subrange(0, 0) =~= Seq::<Option<Seq<u8>>>::empty());
                while c < n
                    invariant
                        self.wf(),
                        n == self.slots().len(),
                        c <= n,
                        h <= c,
                        h == live_of(self.slots().subrange(0, c as int)).len(),
                        *self == *old(self),
                    decreases n - c,
                {
                    proof {
                        self.lemma_in_bounds_accepted(c, 0, 0);
                        lemma_live_of_prefix_len(self.slots(), c as int);
                    }
                    if self.get(c).is_some() {
                        h += 1;
                    }
                    c += 1;
                }
                assert(self.slots().subrange(0, n as int) =~= self.slots());
                let r = random_index(rng, h);
                let ghost all = self.slots();
                assert(all.subrange(0, n as int) =~= all);
                let mut seen: usize = 0;
                let mut i: usize = 0;
                while i < n
                    invariant
                        self.wf(),
                        n == self.slots().len(),
                        i <= n,
                        seen <= r,
                        r < live_of(self.slots()).len(),
                        seen == live_of(self.slots().subrange(0, i as int)).len(),
                        all == self.slots(),
                        all.subrange(0, n as int) == all,
                        *self == *old(self),
                    ensures
                        i < n,
                        self.slots()[i as int] is Some,
                    decreases n - i,
                {
                    proof {
                        self.lemma_in_bounds_accepted(i, 0, 0);
                        lemma_live_of_prefix_len(self.slots(), i as int);
                    }
                    if self.get(i).is_some() {
                        if seen == r {
                            break;
                        }
                        seen += 1;
                    }
                    i += 1;
                }
                assert(i < n && self.slots()[i as int] is Some);
                let ghost before = *self;
                let removed = self.remove(i);
                proof {
                    assert(before.removed_key_at(i as int) == old(self).removed_key_at(i as int));
                }
                match removed {
                    Some(key) => key,
                    None => {
                        assert(false);
                        Vec::new()
                    },
                }
            },
        }
    }

    /// Takes out the slots `idx_range`.
    fn remove_range(&mut self, idx_range: Range<usize>)
        requires
            old(self).wf(),
            old(self).range_ok(idx_range.start, idx_range.end),
        ensures
            final(self).wf(),
            live_of(final(self).slots()) == live_of(old(self).slots()).sub(
                range_keys(old(self).slots(), idx_range.start, idx_range.end),
            ),
            final(self).slots() == old(self).slots_without_range(
                idx_range.start as int,
                idx_range.end as int,
            ),
    ;

    /// Takes out `range_len` consecutive slots from a random start. (The
    /// length comes from the selectivity that the caller draws.)
    fn remove_range_random(&mut self, range_len: usize, rng: &mut Xoshiro256Plus)
        requires
            old(self).wf(),
            range_len < old(self).slots().len(),
        ensures
            final(self).wf(),
            exists|s: int|
                #![trigger old(self).slots().subrange(s, s + range_len)]
                0 <= s && s + range_len < old(self).slots().len() && live_of(final(self).slots())
                    == live_of(old(self).slots()).sub(
                    live_of(old(self).slots().subrange(s, s + range_len)),
                ) && final(self).slots() == old(self).slots_without_range(s, s + range_len),
    {
        let num_keys = self.len();
        let start_idx = random_index(rng, num_keys - range_len);
        let end_idx = start_idx + range_len;
        proof {
            self.lemma_in_bounds_accepted(0, start_idx, end_idx);
        }
        self.remove_range(start_idx..end_idx);
        assert(old(self).slots().subrange(start_idx as int, start_idx + range_len) == old(
            self,
        ).slots().subrange(start_idx as int, clip(end_idx, old(self).slots().len())));
        assert(range_keys(old(self).slots(), start_idx, end_idx) == live_of(
            old(self).slots().subrange(start_idx as int, start_idx + range_len),
        ));
    }

    /// The key at an index; `None` for an empty slot or an index past the
    /// end.
    fn get(&self, idx: usize) -> (r: Option<&Key>)
        requires
            self.wf(),
            self.index_ok(idx),
        ensures
            match r {
                Some(k) => idx < self.slots().len() && self.slots()[idx as int] == Some(k@),
                None => idx >= self.slots().len() || self.slots()[idx as int] is None,
            },
    ;

    /// A key at a random index.
    fn get_random(&self, rng: &mut Xoshiro256Plus) -> (k: &Key)
        requires
            self.wf(),
            self.slots().len() > 0,
        ensures
            live_of(self.slots()).contains(k@),
    {
        let n = self.len();
        let idx = random_index(rng, n);
        proof {
            self.lemma_in_bounds_accepted(idx, 0, 0);
        }
        match self.get(idx) {
            Some(key) => {
                proof {
                    lemma_live_of_contains(self.slots(), key@);
                }
                key
            },
            None => {
                // The slot was empty. Drawing slots until one holds a key
                // comes down to drawing one of the held slots alike: draw
                // its rank among them.
                proof {
                    self.lemma_slots_hold_keys();
                }
                let n = self.len();
                let mut h: usize = 0;
                let mut c: usize = 0;
                assert(self.slots().subrange(0, 0) =~= Seq::<Option<Seq<u8>>>::empty());
                while c < n
                    invariant
                        self.wf(),
                        n == self.slots().len(),
                        c <= n,
                        h <= c,
                        h == live_of(self.slots().subrange(0, c as int)).len(),
                                            decreases n - c,
                {
                    proof {
                        self.lemma_in_bounds_accepted(c, 0, 0);
                        lemma_live_of_prefix_len(self.slots(), c as int);
                    }
                    if self.get(c).is_some() {
                        h += 1;
                    }
                    c += 1;
                }
                assert(self.slots().subrange(0, n as int) =~= self.slots());
                let r = random_index(rng, h);
                let ghost all = self.slots();
                assert(all.subrange(0, n as int) =~= all);
                let mut seen: usize = 0;
                let mut i: usize = 0;
                while i < n
                    invariant
                        self.wf(),
                        n == self.slots().len(),
                        i <= n,
                        seen <= r,
                        r < live_of(self.slots()).len(),
                        seen == live_of(self.slots().subrange(0, i as int)).len(),
                        all == self.slots(),
                        all.subrange(0, n as int) == all,
                                            ensures
                        i < n,
                        self.slots()[i as int] is Some,
                    decreases n - i,
                {
                    proof {
                        self.lemma_in_bounds_accepted(i, 0, 0);
                        lemma_live_of_prefix_len(self.slots(), i as int);
                    }
                    if self.get(i).is_some() {
                        if seen == r {
                            break;
                        }
                        seen += 1;
                    }
                    i += 1;
                }
                assert(i < n && self.slots()[i as int] is Some);
                proof {
                    self.lemma_in_bounds_accepted(i, 0, 0);
                }
                let key = self.get(i).unwrap();
                proof {
                    lemma_live_of_contains(self.slots(), key@);
                }
                key
            },
        }
    }

    /// Whether the key is in the set, as far as the structure tells.
    fn contains(&self, key: &Key) -> (b: bool)
        requires
            self.wf(),
        ensures
            self.must_contain(key@) ==> b,
            b ==> self.may_contain(key@),
    ;

    /// Puts the keys in order, where the set keeps an order.
    fn sort(&mut self)
        requires
            old(self).wf(),
        ensures
            final(self).wf(),
            live_of(final(self).slots()) == live_of(old(self).slots()),
            final(self).slots().len() <= old(self).slots().len(),
            old(self).sort_orders() ==> slots_in_order(final(self).slots()),
    ;
}


proof fn lemma_live_of_prefix_len(s: Seq<Option<Seq<u8>>>, i: int)
    requires
        0 <= i < s.len(),
    ensures
        live_of(s.subrange(0, i + 1)).len() == live_of(s.subrange(0, i)).len() + if s[i] is Some {
            1nat
        } else {
            0nat
        },
{
    broadcast use vstd::multiset::group_multiset_axioms;

    assert(s.subrange(0, i + 1).drop_last() =~= s.subrange(0, i));
    assert(s.subrange(0, i + 1).last() == s[i]);
}

/// A copy of a key.
pub fn copy_key(k: &Key) -> (r: Key)
    ensures
        r@ == k@,
{
    let r = k.clone();
    assert(r@ =~= k@);
    r
}

} // verus!
