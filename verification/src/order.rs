//! Lexicographic order on byte-string keys, the order in which key sets
//! sort their keys.

use vstd::prelude::*;

verus! {

/// `a` comes strictly before `b` in lexicographic byte order
/// (a proper prefix comes before any of its extensions).
pub open spec fn key_lt(a: Seq<u8>, b: Seq<u8>) -> bool
    decreases a.len(),
{
    if b.len() == 0 {
        false
    } else if a.len() == 0 {
        true
    } else if a[0] != b[0] {
        a[0] < b[0]
    } else {
        key_lt(a.drop_first(), b.drop_first())
    }
}

/// `a` comes before `b` or equals it.
pub open spec fn key_le(a: Seq<u8>, b: Seq<u8>) -> bool {
    key_lt(a, b) || a == b
}

/// The keys are in nondecreasing order.
pub open spec fn keys_sorted(s: Seq<Seq<u8>>) -> bool {
    forall|i: int, j: int| 0 <= i < j < s.len() ==> key_le(#[trigger] s[i], #[trigger] s[j])
}

/// The keys are in strictly increasing order (so none occurs twice).
pub open spec fn keys_increasing(s: Seq<Seq<u8>>) -> bool {
    forall|i: int, j: int| 0 <= i < j < s.len() ==> key_lt(#[trigger] s[i], #[trigger] s[j])
}

/// The keys are in nonincreasing order.
pub open spec fn keys_descending(s: Seq<Seq<u8>>) -> bool {
    forall|i: int, j: int| 0 <= i < j < s.len() ==> key_le(#[trigger] s[j], #[trigger] s[i])
}

/// The views of a vector of keys.
pub open spec fn keys_view(v: Seq<Vec<u8>>) -> Seq<Seq<u8>> {
    v.map_values(|k: Vec<u8>| k@)
}

/// No key comes strictly before itself.
pub proof fn lemma_key_lt_irreflexive(a: Seq<u8>)
    ensures
        !key_lt(a, a),
    decreases a.len(),
{
    if a.len() > 0 {
        lemma_key_lt_irreflexive(a.drop_first());
    }
}

/// Two sequences with the same first element and the same rest are equal.
proof fn lemma_cons_eq(a: Seq<u8>, b: Seq<u8>)
    requires
        a.len() > 0,
        b.len() > 0,
        a[0] == b[0],
        a.drop_first() == b.drop_first(),
    ensures
        a == b,
{
    assert(a.len() == a.drop_first().len() + 1);
    assert(b.len() == b.drop_first().len() + 1);
    assert(a =~= b) by {
        assert forall|i: int| 0 <= i < a.len() implies a[i] == b[i] by {
            if i > 0 {
                assert(a[i] == a.drop_first()[i - 1]);
                assert(b[i] == b.drop_first()[i - 1]);
            }
        }
    }
}

/// Any two keys are ordered one way or the other, or are equal.
pub proof fn lemma_key_trichotomy(a: Seq<u8>, b: Seq<u8>)
    ensures
        key_lt(a, b) || key_lt(b, a) || a == b,
    decreases a.len(),
{
    if a.len() == 0 && b.len() == 0 {
        assert(a =~= b);
    } else if a.len() > 0 && b.len() > 0 && a[0] == b[0] {
        lemma_key_trichotomy(a.drop_first(), b.drop_first());
        if a.drop_first() == b.drop_first() {
            lemma_cons_eq(a, b);
        }
    }
}

/// Strict order is asymmetric.
pub proof fn lemma_key_lt_asymmetric(a: Seq<u8>, b: Seq<u8>)
    requires
        key_lt(a, b),
    ensures
        !key_lt(b, a),
    decreases a.len(),
{
    if a.len() > 0 && b.len() > 0 && a[0] == b[0] {
        lemma_key_lt_asymmetric(a.drop_first(), b.drop_first());
    }
}

/// Strict order is transitive.
pub proof fn lemma_key_lt_transitive(a: Seq<u8>, b: Seq<u8>, c: Seq<u8>)
    requires
        key_lt(a, b),
        key_lt(b, c),
    ensures
        key_lt(a, c),
    decreases a.len(),
{
    if a.len() > 0 && b.len() > 0 && c.len() > 0 && a[0] == b[0] && b[0] == c[0] {
        lemma_key_lt_transitive(a.drop_first(), b.drop_first(), c.drop_first());
    }
}

/// Every fact about the order that the key sets rely on.
pub proof fn lemma_key_order()
    ensures
        forall|a: Seq<u8>| !key_lt(a, a),
        forall|a: Seq<u8>, b: Seq<u8>| key_lt(a, b) || key_lt(b, a) || a == b,
        forall|a: Seq<u8>, b: Seq<u8>| #[trigger] key_lt(a, b) ==> !key_lt(b, a),
        forall|a: Seq<u8>, b: Seq<u8>, c: Seq<u8>|
            #[trigger] key_lt(a, b) && #[trigger] key_lt(b, c) ==> key_lt(a, c),
{
    assert forall|a: Seq<u8>| !key_lt(a, a) by {
        lemma_key_lt_irreflexive(a);
    }
    assert forall|a: Seq<u8>, b: Seq<u8>| key_lt(a, b) || key_lt(b, a) || a == b by {
        lemma_key_trichotomy(a, b);
    }
    assert forall|a: Seq<u8>, b: Seq<u8>| #[trigger] key_lt(a, b) implies !key_lt(b, a) by {
        lemma_key_lt_asymmetric(a, b);
    }
    assert forall|a: Seq<u8>, b: Seq<u8>, c: Seq<u8>|
        #[trigger] key_lt(a, b) && #[trigger] key_lt(b, c) implies key_lt(a, c) by {
        lemma_key_lt_transitive(a, b, c);
    }
}

/// `key_le` is a total preorder that is antisymmetric: a total order.
pub proof fn lemma_key_le_total_order()
    ensures
        forall|a: Seq<u8>| key_le(a, a),
        forall|a: Seq<u8>, b: Seq<u8>| key_le(a, b) || key_le(b, a),
        forall|a: Seq<u8>, b: Seq<u8>| #[trigger] key_le(a, b) && #[trigger] key_le(b, a) ==> a == b,
        forall|a: Seq<u8>, b: Seq<u8>, c: Seq<u8>|
            #[trigger] key_le(a, b) && #[trigger] key_le(b, c) ==> key_le(a, c),
{
    lemma_key_order();
}

/// A key that does not come before the last of sorted keys keeps them
/// sorted when appended.
pub proof fn lemma_sorted_push(s: Seq<Seq<u8>>, k: Seq<u8>)
    requires
        keys_sorted(s),
        s.len() > 0 ==> !key_lt(k, s.last()),
    ensures
        keys_sorted(s.push(k)),
{
    lemma_key_le_total_order();
    lemma_key_order();
    let t = s.push(k);
    assert forall|i: int, j: int| 0 <= i < j < t.len() implies key_le(#[trigger] t[i], #[trigger] t[j]) by {
        if j == s.len() {
            assert(key_le(s.last(), k));
            if i < s.len() - 1 {
                assert(key_le(s[i], s[s.len() - 1]));
            }
        } else {
            assert(key_le(s[i], s[j]));
        }
    }
}

/// Removing a key keeps sorted keys sorted.
pub proof fn lemma_sorted_remove(s: Seq<Seq<u8>>, i: int)
    requires
        keys_sorted(s),
        0 <= i < s.len(),
    ensures
        keys_sorted(s.remove(i)),
{
    let t = s.remove(i);
    assert forall|a: int, b: int| 0 <= a < b < t.len() implies key_le(#[trigger] t[a], #[trigger] t[b]) by {
        let a1 = if a < i { a } else { a + 1 };
        let b1 = if b < i { b } else { b + 1 };
        assert(t[a] == s[a1] && t[b] == s[b1]);
        assert(key_le(s[a1], s[b1]));
    }
}

/// Removing a run of keys keeps sorted keys sorted.
pub proof fn lemma_sorted_cut(s: Seq<Seq<u8>>, start: int, end: int)
    requires
        keys_sorted(s),
        0 <= start <= end <= s.len(),
    ensures
        keys_sorted(s.subrange(0, start) + s.subrange(end, s.len() as int)),
{
    let t = s.subrange(0, start) + s.subrange(end, s.len() as int);
    assert forall|a: int, b: int| 0 <= a < b < t.len() implies key_le(#[trigger] t[a], #[trigger] t[b]) by {
        let a1 = if a < start { a } else { a + end - start };
        let b1 = if b < start { b } else { b + end - start };
        assert(t[a] == s[a1] && t[b] == s[b1]);
        assert(key_le(s[a1], s[b1]));
    }
}

/// Compares two keys in lexicographic byte order.
pub fn key_less(a: &[u8], b: &[u8]) -> (r: bool)
    ensures
        r == key_lt(a@, b@),
{
    let mut i: usize = 0;
    assert(a@.skip(0) =~= a@);
    assert(b@.skip(0) =~= b@);
    while i < a.len() && i < b.len()
        invariant
            i <= a@.len(),
            i <= b@.len(),
            key_lt(a@, b@) == key_lt(a@.skip(i as int), b@.skip(i as int)),
        decreases a@.len() - i,
    {
        assert(a@.skip(i as int).drop_first() =~= a@.skip(i + 1));
        assert(b@.skip(i as int).drop_first() =~= b@.skip(i + 1));
        if a[i] != b[i] {
            return a[i] < b[i];
        }
        i += 1;
    }
    i < b.len()
}

/// Whether two keys hold the same bytes.
pub fn keys_equal(a: &[u8], b: &[u8]) -> (r: bool)
    ensures
        r == (a@ == b@),
{
    if a.len() != b.len() {
        return false;
    }
    let mut i: usize = 0;
    while i < a.len()
        invariant
            a@.len() == b@.len(),
            i <= a@.len(),
            forall|j: int| 0 <= j < i ==> a@[j] == b@[j],
        decreases a@.len() - i,
    {
        if a[i] != b[i] {
            return false;
        }
        i += 1;
    }
    assert(a@ =~= b@);
    true
}

} // verus!
