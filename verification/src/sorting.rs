//! Sorting keys and slots of keys, over std's sort of byte strings, and swapping items.

use crate::order::{key_le, keys_descending, keys_sorted, keys_view, lemma_key_le_total_order};
use vstd::multiset::Multiset;
use vstd::prelude::*;

verus! {

/// A slot of a key set: a key, or a slot whose key was taken.
pub open spec fn slot_view(s: Option<Vec<u8>>) -> Option<Seq<u8>> {
    match s {
        Some(k) => Some(k@),
        None => None,
    }
}

/// The views of a vector of slots.
pub open spec fn slots_view(v: Seq<Option<Vec<u8>>>) -> Seq<Option<Seq<u8>>> {
    v.map_values(|s: Option<Vec<u8>>| slot_view(s))
}

/// The order of std's `Option` on slots: an empty slot first, keys in
/// lexicographic order.
pub open spec fn slot_le(a: Option<Seq<u8>>, b: Option<Seq<u8>>) -> bool {
    match (a, b) {
        (None, _) => true,
        (Some(_), None) => false,
        (Some(x), Some(y)) => key_le(x, y),
    }
}

/// The slots are in nondecreasing order of `slot_le`.
pub open spec fn slots_sorted(s: Seq<Option<Seq<u8>>>) -> bool {
    forall|i: int, j: int| 0 <= i < j < s.len() ==> slot_le(#[trigger] s[i], #[trigger] s[j])
}

/// Calls `slice::sort` on a vector of byte-string keys. std documents that
/// the slice ends up sorted and that `Vec<u8>` is ordered lexicographically;
/// the claim is that the keys are in that order and are the same keys, each
/// as often.
#[verifier::external_body]
pub(crate) fn sort_keys(v: &mut Vec<Vec<u8>>)
    ensures
        keys_sorted(keys_view(final(v)@)),
        keys_view(final(v)@).to_multiset() == keys_view(old(v)@).to_multiset(),
{
    v.sort()
}

/// Calls `slice::swap`, which std documents as swapping the two items and
/// panicking when either index is out of bounds.
#[verifier::external_body]
pub(crate) fn swap_items<T>(v: &mut Vec<T>, i: usize, j: usize)
    requires
        i < old(v)@.len(),
        j < old(v)@.len(),
    ensures
        final(v)@ == old(v)@.update(i as int, old(v)@[j as int]).update(j as int, old(v)@[i as int]),
{
    v.swap(i, j)
}

/// The keys sorted from last to first.
pub fn sort_keys_descending(keys: Vec<Vec<u8>>) -> (pool: Vec<Vec<u8>>)
    ensures
        keys_view(pool@).to_multiset() == keys_view(keys@).to_multiset(),
        keys_descending(keys_view(pool@)),
{
    broadcast use vstd::seq_lib::group_to_multiset_ensures;
    broadcast use vstd::multiset::group_multiset_axioms;

    let mut rest = keys;
    sort_keys(&mut rest);
    let ghost total = keys_view(rest@).to_multiset();
    let mut pool: Vec<Vec<u8>> = Vec::new();
    proof {
        lemma_key_le_total_order();
        assert(keys_view(pool@).to_multiset() =~= Multiset::empty());
    }
    while rest.len() > 0
        invariant
            keys_sorted(keys_view(rest@)),
            keys_descending(keys_view(pool@)),
            forall|i: int, j: int|
                0 <= i < pool@.len() && 0 <= j < rest@.len() ==> key_le(
                    #[trigger] rest@[j]@,
                    #[trigger] pool@[i]@,
                ),
            keys_view(pool@).to_multiset().add(keys_view(rest@).to_multiset()) == total,
            total == keys_view(keys@).to_multiset(),
            forall|a: Seq<u8>, b: Seq<u8>, c: Seq<u8>|
                #[trigger] key_le(a, b) && #[trigger] key_le(b, c) ==> key_le(a, c),
            forall|a: Seq<u8>| key_le(a, a),
        decreases rest@.len(),
    {
        let ghost before = rest@;
        let k = rest.pop().unwrap();
        proof {
            let last = before.len() - 1;
            assert(keys_view(before) =~= keys_view(rest@).push(k@));
            assert forall|i: int, j: int| 0 <= i < j < keys_view(rest@).len() implies key_le(
                #[trigger] keys_view(rest@)[i],
                #[trigger] keys_view(rest@)[j],
            ) by {
                assert(keys_view(before)[i] == keys_view(rest@)[i]);
                assert(keys_view(before)[j] == keys_view(rest@)[j]);
            }
            assert forall|j: int| 0 <= j < rest@.len() implies key_le(#[trigger] rest@[j]@, k@) by {
                assert(keys_view(before)[j] == rest@[j]@);
                assert(keys_view(before)[last] == k@);
            }
            assert forall|i: int| 0 <= i < pool@.len() implies key_le(k@, #[trigger] pool@[i]@) by {
                assert(before[last] == k);
            }
        }
        let ghost old_pool = pool@;
        pool.push(k);
        proof {
            assert(keys_view(pool@) =~= keys_view(old_pool).push(k@));
            assert forall|i: int, j: int| 0 <= i < j < keys_view(pool@).len() implies key_le(
                #[trigger] keys_view(pool@)[j],
                #[trigger] keys_view(pool@)[i],
            ) by {
                if j == old_pool.len() {
                    assert(key_le(k@, old_pool[i]@));
                } else {
                    assert(keys_view(old_pool)[i] == old_pool[i]@);
                    assert(keys_view(old_pool)[j] == old_pool[j]@);
                }
            }
            assert forall|i: int, j: int|
                0 <= i < pool@.len() && 0 <= j < rest@.len() implies key_le(
                #[trigger] rest@[j]@,
                #[trigger] pool@[i]@,
            ) by {
                if i == old_pool.len() {
                    assert(pool@[i] == k);
                } else {
                    assert(pool@[i] == old_pool[i]);
                    assert(before[j] == rest@[j]);
                }
            }
            broadcast use vstd::seq_lib::group_to_multiset_ensures;
            broadcast use vstd::multiset::group_multiset_axioms;

            assert(keys_view(rest@).push(k@).to_multiset() =~= keys_view(rest@).to_multiset().insert(k@));
            assert(keys_view(old_pool).push(k@).to_multiset() =~= keys_view(old_pool).to_multiset().insert(k@));
            assert(keys_view(before).to_multiset() =~= keys_view(rest@).to_multiset().insert(k@));
            assert(keys_view(pool@).to_multiset() =~= keys_view(old_pool).to_multiset().insert(k@));
            assert(keys_view(old_pool).to_multiset().add(keys_view(before).to_multiset()) == total);
            assert(keys_view(pool@).to_multiset().add(keys_view(rest@).to_multiset()) =~= total);
        }
    }
    proof {
        assert(keys_view(rest@).to_multiset() =~= Multiset::empty());
    }
    pool
}

/// Each key as a slot that holds it.
pub open spec fn held_slots(keys: Seq<Seq<u8>>) -> Seq<Option<Seq<u8>>> {
    keys.map_values(|k: Seq<u8>| Some(k))
}

/// `n` empty slots.
pub open spec fn empty_slots(n: nat) -> Seq<Option<Seq<u8>>> {
    Seq::new(n, |_i: int| None)
}

proof fn lemma_held_slots_count(keys: Seq<Seq<u8>>, x: Option<Seq<u8>>)
    ensures
        held_slots(keys).to_multiset().count(x) == match x {
            None => 0,
            Some(k) => keys.to_multiset().count(k),
        },
    decreases keys.len(),
{
    broadcast use vstd::seq_lib::group_to_multiset_ensures;
    broadcast use vstd::multiset::group_multiset_axioms;

    if keys.len() == 0 {
        assert(held_slots(keys) =~= Seq::<Option<Seq<u8>>>::empty());
    } else {
        let init = keys.drop_last();
        lemma_held_slots_count(init, x);
        assert(held_slots(keys) =~= held_slots(init).push(Some(keys.last())));
        assert(keys =~= init.push(keys.last()));
    }
}

proof fn lemma_empty_slots_count(n: nat, x: Option<Seq<u8>>)
    ensures
        empty_slots(n).to_multiset().count(x) == if x is None {
            n
        } else {
            0
        },
    decreases n,
{
    broadcast use vstd::seq_lib::group_to_multiset_ensures;
    broadcast use vstd::multiset::group_multiset_axioms;

    if n == 0 {
        assert(empty_slots(n) =~= Seq::<Option<Seq<u8>>>::empty());
    } else {
        lemma_empty_slots_count((n - 1) as nat, x);
        assert(empty_slots(n) =~= empty_slots((n - 1) as nat).push(None));
    }
}

/// Sorts slots as std orders optional keys: the empty slots first, then the
/// keys in lexicographic order. The keys are sorted by `sort_keys` and the
/// slots rebuilt around them.
pub fn sort_slots(v: &mut Vec<Option<Vec<u8>>>)
    ensures
        slots_sorted(slots_view(final(v)@)),
        slots_view(final(v)@).to_multiset() == slots_view(old(v)@).to_multiset(),
{
    broadcast use vstd::seq_lib::group_to_multiset_ensures;
    broadcast use vstd::multiset::group_multiset_axioms;

    let mut rest: Vec<Option<Vec<u8>>> = Vec::new();
    std::mem::swap(&mut rest, v);
    let ghost total = slots_view(rest@).to_multiset();
    let n = rest.len();
    let mut keys: Vec<Vec<u8>> = Vec::new();
    let mut empty: usize = 0;
    proof {
        assert(keys_view(keys@) =~= Seq::<Seq<u8>>::empty());
        assert(empty_slots(0) =~= Seq::<Option<Seq<u8>>>::empty());
        assert(held_slots(keys_view(keys@)) =~= Seq::<Option<Seq<u8>>>::empty());
    }
    while rest.len() > 0
        invariant
            slots_view(rest@).to_multiset().add(empty_slots(empty as nat).to_multiset()).add(
                held_slots(keys_view(keys@)).to_multiset(),
            ) == total,
            empty + rest@.len() + keys@.len() == n,
        decreases rest@.len(),
    {
        broadcast use vstd::seq_lib::group_to_multiset_ensures;
        broadcast use vstd::multiset::group_multiset_axioms;

        let ghost before = rest@;
        let ghost old_keys = keys@;
        let ghost old_empty = empty;
        let slot = rest.pop().unwrap();
        proof {
            assert(slots_view(before) =~= slots_view(rest@).push(slot_view(slot)));
        }
        match slot {
            None => {
                empty = empty + 1;
                proof {
                    assert(empty_slots(empty as nat) =~= empty_slots(old_empty as nat).push(None));
                }
            },
            Some(k) => {
                keys.push(k);
                proof {
                    assert(keys_view(keys@) =~= keys_view(old_keys).push(k@));
                    assert(held_slots(keys_view(keys@)) =~= held_slots(keys_view(old_keys)).push(
                        Some(k@),
                    ));
                }
            },
        }
        proof {
            assert(slots_view(rest@).to_multiset().add(empty_slots(empty as nat).to_multiset()).add(
                held_slots(keys_view(keys@)).to_multiset(),
            ) =~= total);
        }
    }
    let ghost sorted_keys = keys@;
    let mut pool = sort_keys_descending(keys);
    proof {
        assert forall|x: Option<Seq<u8>>|
            #[trigger] held_slots(keys_view(pool@)).to_multiset().count(x) == held_slots(
                keys_view(sorted_keys),
            ).to_multiset().count(x) by {
            lemma_held_slots_count(keys_view(pool@), x);
            lemma_held_slots_count(keys_view(sorted_keys), x);
        }
        assert(held_slots(keys_view(pool@)).to_multiset() =~= held_slots(
            keys_view(sorted_keys),
        ).to_multiset());
        assert(slots_view(rest@) =~= Seq::<Option<Seq<u8>>>::empty());
    }
    let mut out: Vec<Option<Vec<u8>>> = Vec::new();
    let mut i: usize = 0;
    while i < empty
        invariant
            i <= empty,
            slots_view(out@) == empty_slots(i as nat),
        decreases empty - i,
    {
        let ghost old_out = out@;
        out.push(None);
        proof {
            assert(slots_view(out@) =~= slots_view(old_out).push(None));
            assert(empty_slots((i + 1) as nat) =~= empty_slots(i as nat).push(None));
        }
        i += 1;
    }
    proof {
        lemma_key_le_total_order();
    }
    while pool.len() > 0
        invariant
            slots_sorted(slots_view(out@)),
            keys_descending(keys_view(pool@)),
            forall|a: int, b: int|
                0 <= a < out@.len() && 0 <= b < pool@.len() ==> slot_le(
                    #[trigger] slots_view(out@)[a],
                    Some(#[trigger] pool@[b]@),
                ),
            slots_view(out@).to_multiset().add(held_slots(keys_view(pool@)).to_multiset()) == total,
            forall|a: Seq<u8>| key_le(a, a),
            forall|a: Seq<u8>, b: Seq<u8>, c: Seq<u8>|
                #[trigger] key_le(a, b) && #[trigger] key_le(b, c) ==> key_le(a, c),
        decreases pool@.len(),
    {
        broadcast use vstd::seq_lib::group_to_multiset_ensures;
        broadcast use vstd::multiset::group_multiset_axioms;

        let ghost before = pool@;
        let ghost old_out = out@;
        let k = pool.pop().unwrap();
        out.push(Some(k));
        proof {
            let last = before.len() - 1;
            assert(keys_view(before) =~= keys_view(pool@).push(k@));
            assert(held_slots(keys_view(before)) =~= held_slots(keys_view(pool@)).push(Some(k@)));
            assert(slots_view(out@) =~= slots_view(old_out).push(Some(k@)));
            assert(before[last] == k);
            assert forall|b: int| 0 <= b < pool@.len() implies key_le(k@, #[trigger] pool@[b]@) by {
                assert(keys_view(before)[b] == before[b]@);
                assert(keys_view(before)[last] == k@);
                assert(before[b] == pool@[b]);
            }
            assert forall|a: int, b: int| 0 <= a < b < slots_view(out@).len() implies slot_le(
                #[trigger] slots_view(out@)[a],
                #[trigger] slots_view(out@)[b],
            ) by {
                if b == old_out.len() {
                    assert(slots_view(old_out)[a] == slots_view(out@)[a]);
                    assert(slot_le(slots_view(old_out)[a], Some(before[last]@)));
                } else {
                    assert(slots_view(old_out)[a] == slots_view(out@)[a]);
                    assert(slots_view(old_out)[b] == slots_view(out@)[b]);
                }
            }
            assert forall|a: int, b: int|
                0 <= a < out@.len() && 0 <= b < pool@.len() implies slot_le(
                #[trigger] slots_view(out@)[a],
                Some(#[trigger] pool@[b]@),
            ) by {
                assert(before[b] == pool@[b]);
                if a == old_out.len() {
                    assert(slots_view(out@)[a] == Some(k@));
                } else {
                    assert(slots_view(old_out)[a] == slots_view(out@)[a]);
                    assert(slot_le(slots_view(old_out)[a], Some(before[b]@)));
                }
            }
            assert forall|a: int, b: int| 0 <= a < b < keys_view(pool@).len() implies key_le(
                #[trigger] keys_view(pool@)[b],
                #[trigger] keys_view(pool@)[a],
            ) by {
                assert(keys_view(before)[a] == keys_view(pool@)[a]);
                assert(keys_view(before)[b] == keys_view(pool@)[b]);
            }
            assert(slots_view(out@).to_multiset().add(held_slots(keys_view(pool@)).to_multiset())
                =~= total);
        }
    }
    proof {
        assert(held_slots(keys_view(pool@)) =~= Seq::<Option<Seq<u8>>>::empty());
        assert(slots_view(out@).to_multiset() =~= total);
    }
    *v = out;
}

} // verus!
