//! A key set on a vector of keys with a Bloom filter beside it, which
//! answers `contains` with no false negatives.

use crate::keyset::{
    cut_keys,
    clip, dense, lemma_live_of_cut, lemma_live_of_dense, live_of, range_keys, Key, KeySet,
};
use crate::order::{
    key_le, key_less, key_lt, keys_sorted, keys_view, lemma_sorted_cut, lemma_sorted_push,
    lemma_sorted_remove,
};
use crate::sorting::sort_keys;
use bloom::{BloomFilter, ASMS};
use std::ops::Range;
use vstd::prelude::*;

verus! {

/// The Bloom filter of the `bloom` crate.
#[verifier::external_type_specification]
#[verifier::external_body]
#[verifier::reject_recursive_types(R)]
#[verifier::reject_recursive_types(S)]
pub struct ExBloomFilter<R, S>(BloomFilter<R, S>);

/// The items inserted into a Bloom filter since it was made.
pub uninterp spec fn bloom_inserted(filter: BloomFilter) -> Set<Seq<u8>>;

/// The number of bits of a Bloom filter, fixed when it is made.
pub uninterp spec fn bloom_bits(filter: BloomFilter) -> nat;

/// Calls `bloom::BloomFilter::with_size`, which makes an empty filter of
/// `num_bits` bits that hashes each item `num_hashes` times.
#[verifier::external_body]
fn bloom_with_size(num_bits: usize, num_hashes: u32) -> (f: BloomFilter)
    ensures
        bloom_inserted(f) == Set::<Seq<u8>>::empty(),
        bloom_bits(f) == num_bits,
{
    BloomFilter::with_size(num_bits, num_hashes)
}

/// Calls `bloom::ASMS::insert` on the filter with the key's bytes. The
/// source sets the bits of the item's hashes and keeps the bit count; it
/// takes each hash modulo the bit count, hence the `requires`. What the call
/// returns is not used.
#[verifier::external_body]
fn bloom_insert(filter: &mut BloomFilter, key: &Key)
    requires
        bloom_bits(*old(filter)) > 0,
    ensures
        bloom_inserted(*final(filter)) == bloom_inserted(*old(filter)).insert(key@),
        bloom_bits(*final(filter)) == bloom_bits(*old(filter)),
{
    filter.insert(key);
}

/// Calls `bloom::ASMS::contains` on the filter with the key's bytes. The
/// crate documents no false negatives: an inserted item is reported. For an
/// item never inserted the answer depends on the filter's randomly seeded
/// hashers, so nothing is claimed of it.
#[verifier::external_body]
fn bloom_contains(filter: &BloomFilter, key: &Key) -> (b: bool)
    requires
        bloom_bits(*filter) > 0,
    ensures
        bloom_inserted(*filter).contains(key@) ==> b,
{
    filter.contains(key)
}

/// A key set on a vector of keys, with a Bloom filter that answers
/// `contains`, a flag that says whether the keys need sorting, and a flag
/// that says whether any key was ever added. Keys taken out stay in the
/// filter.
pub struct VecBloomFilterKeySet {
    keys: Vec<Key>,
    bf: BloomFilter,
    sorted: bool,
    added: bool,
}

impl View for VecBloomFilterKeySet {
    type V = Seq<Seq<u8>>;

    /// The keys in index order.
    closed spec fn view(&self) -> Seq<Seq<u8>> {
        keys_view(self.keys@)
    }
}

impl VecBloomFilterKeySet {
    /// Every key ever added.
    pub closed spec fn inserted(&self) -> Set<Seq<u8>> {
        bloom_inserted(self.bf)
    }

    /// The flag that lets `sort` skip the sorting.
    pub closed spec fn marked_sorted(&self) -> bool {
        self.sorted
    }

    /// The invariant: the filter has bits, has had every held key inserted,
    /// and the flag holds only of sorted keys.
    pub closed spec fn inv(&self) -> bool {
        &&& bloom_bits(self.bf) > 0
        &&& forall|i: int| 0 <= i < self@.len() ==> bloom_inserted(self.bf).contains(#[trigger] self@[i])
        &&& self.sorted ==> keys_sorted(self@)
        &&& self.added == (bloom_inserted(self.bf) != Set::<Seq<u8>>::empty())
    }

    proof fn lemma_view(&self)
        ensures
            self@.len() == self.keys@.len(),
            forall|i: int| 0 <= i < self@.len() ==> #[trigger] self@[i] == self.keys@[i]@,
    {
    }

    /// An empty set over a new filter of `num_bits` bits and `num_hashes`
    /// hashes; `capacity` is the room reserved for keys. (The bit and hash
    /// counts are those that a false-positive rate gives for the expected
    /// number of keys.)
    pub fn with_filter_size(capacity: usize, num_bits: usize, num_hashes: u32) -> (s: Self)
        requires
            num_bits > 0,
        ensures
            s.inv(),
            s@ == Seq::<Seq<u8>>::empty(),
            s.inserted() == Set::<Seq<u8>>::empty(),
            s.marked_sorted(),
    {
        let s = VecBloomFilterKeySet {
            keys: Vec::with_capacity(capacity),
            bf: bloom_with_size(num_bits, num_hashes),
            sorted: true,
            added: false,
        };
        assert(s@ =~= Seq::<Seq<u8>>::empty());
        s
    }
}

impl KeySet for VecBloomFilterKeySet {
    open spec fn wf(&self) -> bool {
        self.inv()
    }

    open spec fn slots(&self) -> Seq<Option<Seq<u8>>> {
        dense(self@)
    }

    open spec fn must_contain(&self, key: Seq<u8>) -> bool {
        self.inserted().contains(key)
    }

    open spec fn may_contain(&self, key: Seq<u8>) -> bool {
        true
    }

    open spec fn index_ok(&self, idx: usize) -> bool {
        true
    }

    open spec fn range_ok(&self, start: usize, end: usize) -> bool {
        start <= end <= self@.len()
    }

    open spec fn sort_orders(&self) -> bool {
        true
    }

    open spec fn removed_key_at(&self, idx: int) -> Option<Seq<u8>> {
        Some(self@[idx])
    }

    open spec fn slots_after_remove(&self, idx: int) -> Seq<Option<Seq<u8>>> {
        dense(self@.remove(idx))
    }

    open spec fn slots_without_range(&self, start: int, end: int) -> Seq<Option<Seq<u8>>> {
        dense(cut_keys(self@, start, end))
    }

    proof fn lemma_slots_hold_keys(&self) {
        broadcast use vstd::seq_lib::group_to_multiset_ensures;

        lemma_live_of_dense(self@);
    }

    proof fn lemma_in_bounds_accepted(&self, idx: usize, start: usize, end: usize) {
        assert(dense(self@).len() == self@.len());
        assert(self.index_ok(idx));
        assert(start <= end <= self.slots().len() ==> self.range_ok(start, end));
    }

    fn len(&self) -> (n: usize) {
        proof {
            self.lemma_view();
        }
        return self.keys.len();
    }

    fn is_empty(&self) -> (b: bool) {
        proof {
            self.lemma_view();
        }
        return self.keys.is_empty();
    }

    /// Inserts the key into the filter and appends it; the flag drops when
    /// the key comes before the last.
    fn push(&mut self, key: Key)
        ensures
            final(self)@ == old(self)@.push(key@),
            final(self).inserted() == old(self).inserted().insert(key@),
            final(self).marked_sorted() == (old(self).marked_sorted() && !(old(self)@.len() > 0
                && key_lt(key@, old(self)@.last()))),
    {
        broadcast use vstd::seq_lib::group_to_multiset_ensures;

        proof {
            self.lemma_view();
        }
        let n = self.keys.len();
        if self.sorted && n > 0 && key_less(key.as_slice(), self.keys[n - 1].as_slice()) {
            self.sorted = false;
        }
        bloom_insert(&mut self.bf, &key);
        self.added = true;
        self.keys.push(key);
        proof {
            assert(bloom_inserted(self.bf).contains(key@));
            assert(self@ =~= old(self)@.push(key@));
            if self.sorted {
                lemma_sorted_push(old(self)@, key@);
            }
            assert forall|i: int| 0 <= i < self@.len() implies bloom_inserted(self.bf).contains(
                #[trigger] self@[i],
            ) by {
                if i < n {
                    assert(self@[i] == old(self)@[i]);
                }
            }
            lemma_live_of_dense(self@);
            lemma_live_of_dense(old(self)@);
        }
    }

    /// Removes the key at the index, keeping the order of the rest; the key
    /// stays in the filter.
    fn remove(&mut self, idx: usize) -> (r: Option<Key>)
        ensures
            r matches Some(k) && k@ == old(self)@[idx as int],
            final(self)@ == old(self)@.remove(idx as int),
            final(self).inserted() == old(self).inserted(),
            final(self).marked_sorted() == old(self).marked_sorted(),
    {
        broadcast use vstd::seq_lib::group_to_multiset_ensures;

        proof {
            self.lemma_view();
        }
        let key = self.keys.remove(idx);
        proof {
            let v = old(self)@;
            assert(self@ =~= v.remove(idx as int));
            if self.sorted {
                lemma_sorted_remove(v, idx as int);
            }
            assert forall|i: int| 0 <= i < self@.len() implies bloom_inserted(self.bf).contains(
                #[trigger] self@[i],
            ) by {
                if i < idx {
                    assert(self@[i] == v[i]);
                } else {
                    assert(self@[i] == v[i + 1]);
                }
            }
            lemma_live_of_dense(v);
            lemma_live_of_dense(self@);
        }
        return Some(key);
    }

    /// Removes the keys `idx_range`, keeping the order of the rest; they
    /// stay in the filter.
    fn remove_range(&mut self, idx_range: Range<usize>)
        ensures
            final(self)@ == old(self)@.subrange(0, idx_range.start as int) + old(self)@.subrange(
                idx_range.end as int,
                old(self)@.len() as int,
            ),
            final(self).inserted() == old(self).inserted(),
            final(self).marked_sorted() == old(self).marked_sorted(),
    {
        proof {
            self.lemma_view();
        }
        let mut tail = self.keys.split_off(idx_range.end);
        self.keys.truncate(idx_range.start);
        self.keys.append(&mut tail);
        proof {
            let v = old(self)@;
            let (s, e) = (idx_range.start as int, idx_range.end as int);
            assert(self@ =~= v.subrange(0, s) + v.subrange(e, v.len() as int));
            assert(dense(self@) =~= dense(v).subrange(0, s) + dense(v).subrange(e, v.len() as int));
            assert(dense(v).subrange(s, clip(idx_range.end, v.len())) =~= dense(v).subrange(s, e));
            assert(range_keys(dense(v), idx_range.start, idx_range.end) == live_of(dense(v).subrange(s, e)));
            lemma_live_of_cut(dense(v), s, e);
            if self.sorted {
                lemma_sorted_cut(v, s, e);
            }
            assert forall|i: int| 0 <= i < self@.len() implies bloom_inserted(self.bf).contains(
                #[trigger] self@[i],
            ) by {
                if i < s {
                    assert(self@[i] == v[i]);
                } else {
                    assert(self@[i] == v[i + e - s]);
                }
            }
        }
    }

    /// The key at the index, if the index is within the keys.
    fn get(&self, idx: usize) -> (r: Option<&Key>)
        ensures
            idx < self@.len() ==> (r matches Some(k) && k@ == self@[idx as int]),
            idx >= self@.len() ==> r is None,
    {
        proof {
            self.lemma_view();
        }
        if idx < self.keys.len() {
            proof {
                assert(self.slots()[idx as int] == Some(self@[idx as int]));
            }
            Some(&self.keys[idx])
        } else {
            None
        }
    }

    /// Asks the filter: true for every key ever added, and possibly for
    /// others. A set to which no key was ever added holds none, and says so
    /// without asking the filter (whose bits are all clear then).
    fn contains(&self, key: &Key) -> (b: bool)
        ensures
            self.inserted().contains(key@) ==> b,
            self.inserted() == Set::<Seq<u8>>::empty() ==> !b,
    {
        if !self.added {
            return false;
        }
        bloom_contains(&self.bf, key)
    }

    /// Sorts the keys unless the flag says they are sorted.
    fn sort(&mut self)
        ensures
            old(self).marked_sorted() ==> final(self)@ == old(self)@,
            keys_sorted(final(self)@),
            final(self)@.to_multiset() == old(self)@.to_multiset(),
            final(self).inserted() == old(self).inserted(),
            final(self).marked_sorted(),
    {
        broadcast use vstd::seq_lib::group_to_multiset_ensures;

        if !self.sorted {
            sort_keys(&mut self.keys);
            self.sorted = true;
        }
        proof {
            lemma_live_of_dense(old(self)@);
            lemma_live_of_dense(self@);
            assert(self@.to_multiset().len() == old(self)@.to_multiset().len());
            assert(self.slots().len() == self@.len());
            assert forall|i: int| 0 <= i < self@.len() implies bloom_inserted(self.bf).contains(
                #[trigger] self@[i],
            ) by {
                assert(self@.to_multiset().count(self@[i]) > 0);
                assert(old(self)@.contains(self@[i]));
                let j = choose|j: int| 0 <= j < old(self)@.len() && old(self)@[j] == self@[i];
                assert(bloom_inserted(self.bf).contains(old(self)@[j]));
            }
            assert forall|a: int, b: int|
                0 <= a < b < self.slots().len() && (#[trigger] self.slots()[a]) is Some && (
                #[trigger] self.slots()[b]) is Some implies key_le(
                self.slots()[a]->0,
                self.slots()[b]->0,
            ) by {
                assert(key_le(self@[a], self@[b]));
            }
        }
    }
}

} // verus!
