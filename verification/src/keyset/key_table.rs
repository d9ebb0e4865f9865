//! Small tables of keys in which no key occurs twice: a set of keys, and a
//! map from keys to indices. They are the buckets of the hash tables.

use crate::keyset::Key;
use crate::order::{keys_equal, keys_view};
use vstd::prelude::*;

verus! {

/// The position of a key among distinct keys, if it is there.
fn position_of(keys: &Vec<Key>, key: &[u8]) -> (r: Option<usize>)
    ensures
        match r {
            Some(i) => i < keys@.len() && keys@[i as int]@ == key@,
            None => !keys_view(keys@).contains(key@),
        },
{
    let mut i: usize = 0;
    while i < keys.len()
        invariant
            i <= keys@.len(),
            forall|j: int| 0 <= j < i ==> keys@[j]@ != key@,
        decreases keys@.len() - i,
    {
        if keys_equal(keys[i].as_slice(), key) {
            return Some(i);
        }
        i += 1;
    }
    proof {
        if keys_view(keys@).contains(key@) {
            let j = choose|j: int| 0 <= j < keys_view(keys@).len() && keys_view(keys@)[j] == key@;
            assert(keys@[j]@ == key@);
        }
    }
    None
}

/// A set of keys, on a vector in which no key occurs twice.
pub struct KeyList {
    keys: Vec<Key>,
}

impl View for KeyList {
    type V = Set<Seq<u8>>;

    closed spec fn view(&self) -> Set<Seq<u8>> {
        keys_view(self.keys@).to_set()
    }
}

impl KeyList {
    /// No key occurs twice.
    pub closed spec fn wf(&self) -> bool {
        keys_view(self.keys@).no_duplicates()
    }

    /// An empty set.
    pub fn new() -> (s: Self)
        ensures
            s.wf(),
            s@ == Set::<Seq<u8>>::empty(),
    {
        let s = KeyList { keys: Vec::new() };
        assert(keys_view(s.keys@) =~= Seq::<Seq<u8>>::empty());
        assert(s@ =~= Set::<Seq<u8>>::empty());
        s
    }

    /// Whether the key is in the set.
    pub fn contains(&self, key: &[u8]) -> (b: bool)
        requires
            self.wf(),
        ensures
            b == self@.contains(key@),
    {
        match position_of(&self.keys, key) {
            Some(i) => {
                assert(keys_view(self.keys@)[i as int] == key@);
                assert(keys_view(self.keys@).contains(key@));
                true
            },
            None => false,
        }
    }

    /// Adds the key.
    pub fn insert(&mut self, key: &[u8])
        requires
            old(self).wf(),
        ensures
            final(self).wf(),
            final(self)@ == old(self)@.insert(key@),
    {
        let found = position_of(&self.keys, key);
        if found.is_none() {
            let mut k: Key = Vec::new();
            k.extend_from_slice(key);
            assert(k@ =~= key@);
            self.keys.push(k);
            assert(keys_view(self.keys@) =~= keys_view(old(self).keys@).push(key@));
            proof {
                keys_view(old(self).keys@).lemma_push_to_set_commute(key@);
            }
        } else {
            let i = found.unwrap();
            assert(keys_view(self.keys@)[i as int] == key@);
            assert(old(self)@.contains(key@));
            assert(old(self)@.insert(key@) =~= old(self)@);
        }
    }

    /// Takes the key out.
    pub fn remove(&mut self, key: &[u8])
        requires
            old(self).wf(),
        ensures
            final(self).wf(),
            final(self)@ == old(self)@.remove(key@),
    {
        match position_of(&self.keys, key) {
            Some(i) => {
                self.keys.remove(i);
                proof {
                    let s = keys_view(old(self).keys@);
                    assert(keys_view(self.keys@) =~= s.remove(i as int));
                    assert forall|x: Seq<u8>| #[trigger]
                        s.remove(i as int).to_set().contains(x) == s.to_set().remove(
                            key@,
                        ).contains(x) by {
                        assert(s.remove(i as int).to_set().contains(x) == s.remove(i as int).contains(x));
                        assert(s.to_set().contains(x) == s.contains(x));
                        assert(s[i as int] == key@);
                        if s.remove(i as int).contains(x) {
                            let j = choose|j: int|
                                0 <= j < s.remove(i as int).len() && s.remove(i as int)[j] == x;
                            if j < i {
                                assert(s[j] == x);
                                assert(j != i);
                            } else {
                                assert(s[j + 1] == x);
                                assert(j + 1 != i);
                            }
                        }
                        if s.contains(x) && x != key@ {
                            let j = choose|j: int| 0 <= j < s.len() && s[j] == x;
                            if j < i {
                                assert(s.remove(i as int)[j] == x);
                            } else {
                                assert(j != i);
                                assert(s.remove(i as int)[j - 1] == x);
                            }
                        }
                    }
                    assert(self@ =~= old(self)@.remove(key@));
                }
            },
            None => {
                assert(old(self)@.remove(key@) =~= old(self)@);
            },
        }
    }
}

} // verus!

verus! {

/// The map that a run of entries describes (a later entry for a key
/// overrides an earlier one).
pub open spec fn entries_map(e: Seq<(Seq<u8>, usize)>) -> Map<Seq<u8>, usize>
    decreases e.len(),
{
    if e.len() == 0 {
        Map::empty()
    } else {
        entries_map(e.drop_last()).insert(e.last().0, e.last().1)
    }
}

/// The keys of a run of entries.
pub open spec fn entry_keys(e: Seq<(Seq<u8>, usize)>) -> Seq<Seq<u8>> {
    e.map_values(|p: (Seq<u8>, usize)| p.0)
}

/// The views of a vector of entries.
pub open spec fn entries_view(v: Seq<(Vec<u8>, usize)>) -> Seq<(Seq<u8>, usize)> {
    v.map_values(|p: (Vec<u8>, usize)| (p.0@, p.1))
}

/// A key is mapped just when some entry has it.
proof fn lemma_entries_map_dom(e: Seq<(Seq<u8>, usize)>, k: Seq<u8>)
    ensures
        entries_map(e).dom().contains(k) <==> exists|i: int| 0 <= i < e.len() && e[i].0 == k,
    decreases e.len(),
{
    if e.len() > 0 {
        let init = e.drop_last();
        lemma_entries_map_dom(init, k);
        if exists|i: int| 0 <= i < init.len() && init[i].0 == k {
            let i = choose|i: int| 0 <= i < init.len() && init[i].0 == k;
            assert(e[i].0 == k);
        }
        if exists|i: int| 0 <= i < e.len() && e[i].0 == k {
            let i = choose|i: int| 0 <= i < e.len() && e[i].0 == k;
            if i < e.len() - 1 {
                assert(init[i].0 == k);
            }
        }
    }
}

/// With distinct keys, a key maps to the value of its entry.
proof fn lemma_entries_map_value(e: Seq<(Seq<u8>, usize)>, i: int)
    requires
        entry_keys(e).no_duplicates(),
        0 <= i < e.len(),
    ensures
        entries_map(e).dom().contains(e[i].0),
        entries_map(e)[e[i].0] == e[i].1,
    decreases e.len(),
{
    let init = e.drop_last();
    if i < e.len() - 1 {
        assert(entry_keys(init) =~= entry_keys(e).drop_last());
        assert(entry_keys(e)[i] != entry_keys(e)[e.len() - 1]);
        lemma_entries_map_value(init, i);
    }
}

/// Both facts above, for every key.
proof fn lemma_entries_map(e: Seq<(Seq<u8>, usize)>)
    requires
        entry_keys(e).no_duplicates(),
    ensures
        forall|k: Seq<u8>| #[trigger]
            entries_map(e).dom().contains(k) <==> exists|i: int| 0 <= i < e.len() && e[i].0 == k,
        forall|i: int| 0 <= i < e.len() ==> #[trigger] entries_map(e)[e[i].0] == e[i].1,
{
    assert forall|k: Seq<u8>| #[trigger]
        entries_map(e).dom().contains(k) <==> exists|i: int| 0 <= i < e.len() && e[i].0 == k by {
        lemma_entries_map_dom(e, k);
    }
    assert forall|i: int| 0 <= i < e.len() implies #[trigger] entries_map(e)[e[i].0] == e[i].1 by {
        lemma_entries_map_value(e, i);
    }
}

/// A map from keys to indices, on a vector of entries in which no key
/// occurs twice.
pub struct KeyIndex {
    entries: Vec<(Key, usize)>,
}

impl View for KeyIndex {
    type V = Map<Seq<u8>, usize>;

    closed spec fn view(&self) -> Map<Seq<u8>, usize> {
        entries_map(entries_view(self.entries@))
    }
}

impl KeyIndex {
    /// No key occurs twice.
    pub closed spec fn wf(&self) -> bool {
        entry_keys(entries_view(self.entries@)).no_duplicates()
    }

    /// The entry that holds a key, if any.
    fn position_of(&self, key: &[u8]) -> (r: Option<usize>)
        ensures
            match r {
                Some(i) => i < self.entries@.len() && self.entries@[i as int].0@ == key@,
                None => forall|i: int| 0 <= i < self.entries@.len() ==> self.entries@[i].0@ != key@,
            },
    {
        let mut i: usize = 0;
        while i < self.entries.len()
            invariant
                i <= self.entries@.len(),
                forall|j: int| 0 <= j < i ==> self.entries@[j].0@ != key@,
            decreases self.entries@.len() - i,
        {
            if keys_equal(self.entries[i].0.as_slice(), key) {
                return Some(i);
            }
            i += 1;
        }
        None
    }

    /// An empty map.
    pub fn new() -> (s: Self)
        ensures
            s.wf(),
            s@ == Map::<Seq<u8>, usize>::empty(),
    {
        let s = KeyIndex { entries: Vec::new() };
        assert(entries_view(s.entries@) =~= Seq::<(Seq<u8>, usize)>::empty());
        assert(entry_keys(entries_view(s.entries@)) =~= Seq::<Seq<u8>>::empty());
        s
    }

    /// Empties the map.
    pub fn clear(&mut self)
        ensures
            final(self).wf(),
            final(self)@ == Map::<Seq<u8>, usize>::empty(),
    {
        self.entries.clear();
        assert(entries_view(self.entries@) =~= Seq::<(Seq<u8>, usize)>::empty());
        assert(entry_keys(entries_view(self.entries@)) =~= Seq::<Seq<u8>>::empty());
    }

    /// Whether the key is mapped.
    pub fn contains_key(&self, key: &[u8]) -> (b: bool)
        requires
            self.wf(),
        ensures
            b == self@.dom().contains(key@),
    {
        let ghost e = entries_view(self.entries@);
        proof {
            lemma_entries_map(e);
        }
        match self.position_of(key) {
            Some(i) => {
                assert(e[i as int].0 == key@);
                true
            },
            None => {
                assert(forall|i: int| 0 <= i < e.len() ==> e[i].0 != key@);
                false
            },
        }
    }

    /// Maps the key to the value.
    pub fn insert(&mut self, key: &[u8], value: usize)
        requires
            old(self).wf(),
        ensures
            final(self).wf(),
            final(self)@ == old(self)@.insert(key@, value),
    {
        let ghost e = entries_view(self.entries@);
        proof {
            lemma_entries_map(e);
        }
        let mut k: Key = Vec::new();
        k.extend_from_slice(key);
        assert(k@ =~= key@);
        match self.position_of(key) {
            Some(i) => {
                self.entries.set(i, (k, value));
                proof {
                    let e2 = entries_view(self.entries@);
                    assert(e2 =~= e.update(i as int, (key@, value)));
                    assert(entry_keys(e2) =~= entry_keys(e));
                    lemma_entries_map(e2);
                    assert forall|x: Seq<u8>| #[trigger]
                        entries_map(e2).dom().contains(x) == entries_map(e).insert(
                            key@,
                            value,
                        ).dom().contains(x) by {
                        if entries_map(e).dom().contains(x) {
                            let j = choose|j: int| 0 <= j < e.len() && e[j].0 == x;
                            assert(e2[j].0 == x);
                        }
                        if entries_map(e2).dom().contains(x) {
                            let j = choose|j: int| 0 <= j < e2.len() && e2[j].0 == x;
                            assert(e[j].0 == x);
                        }
                        assert(e2[i as int].0 == key@);
                    }
                    assert forall|x: Seq<u8>| #[trigger]
                        entries_map(e2).dom().contains(x) implies entries_map(e2)[x] == entries_map(
                        e,
                    ).insert(key@, value)[x] by {
                        let j = choose|j: int| 0 <= j < e2.len() && e2[j].0 == x;
                        assert(entries_map(e2)[e2[j].0] == e2[j].1);
                        if j != i {
                            assert(entries_map(e)[e[j].0] == e[j].1);
                            assert(entry_keys(e)[j] != entry_keys(e)[i as int]);
                        }
                    }
                    assert(entries_map(e2) =~= entries_map(e).insert(key@, value));
                }
            },
            None => {
                self.entries.push((k, value));
                proof {
                    let e2 = entries_view(self.entries@);
                    assert(e2 =~= e.push((key@, value)));
                    assert(e2.drop_last() =~= e);
                    assert(entry_keys(e2) =~= entry_keys(e).push(key@));
                    assert(!entry_keys(e).contains(key@)) by {
                        if entry_keys(e).contains(key@) {
                            let j = choose|j: int|
                                0 <= j < entry_keys(e).len() && entry_keys(e)[j] == key@;
                            assert(self.entries@[j].0@ == key@);
                        }
                    }
                    assert(entry_keys(e2).no_duplicates()) by {
                        assert forall|a: int, b: int|
                            0 <= a < entry_keys(e2).len() && 0 <= b < entry_keys(e2).len() && a
                                != b implies entry_keys(e2)[a] != entry_keys(e2)[b] by {
                            if a == e.len() as int {
                                assert(entry_keys(e)[b] == entry_keys(e2)[b]);
                            } else if b == e.len() as int {
                                assert(entry_keys(e)[a] == entry_keys(e2)[a]);
                            }
                        }
                    }
                }
            },
        }
    }

    /// Takes the key out of the map.
    pub fn remove(&mut self, key: &[u8])
        requires
            old(self).wf(),
        ensures
            final(self).wf(),
            final(self)@ == old(self)@.remove(key@),
    {
        let ghost e = entries_view(self.entries@);
        proof {
            lemma_entries_map(e);
        }
        match self.position_of(key) {
            Some(i) => {
                self.entries.remove(i);
                proof {
                    let e2 = entries_view(self.entries@);
                    assert(e2 =~= e.remove(i as int));
                    assert(entry_keys(e2) =~= entry_keys(e).remove(i as int));
                    assert(entry_keys(e2).no_duplicates()) by {
                        assert forall|a: int, b: int|
                            0 <= a < entry_keys(e2).len() && 0 <= b < entry_keys(e2).len() && a
                                != b implies entry_keys(e2)[a] != entry_keys(e2)[b] by {
                            let a1 = if a < i { a } else { a + 1 };
                            let b1 = if b < i { b } else { b + 1 };
                            assert(entry_keys(e2)[a] == entry_keys(e)[a1]);
                            assert(entry_keys(e2)[b] == entry_keys(e)[b1]);
                        }
                    }
                    lemma_entries_map(e2);
                    assert forall|x: Seq<u8>| #[trigger]
                        entries_map(e2).dom().contains(x) == entries_map(e).remove(
                            key@,
                        ).dom().contains(x) by {
                        if entries_map(e2).dom().contains(x) {
                            let j = choose|j: int| 0 <= j < e2.len() && e2[j].0 == x;
                            let j1 = if j < i { j } else { j + 1 };
                            assert(e[j1].0 == x);
                            assert(j1 != i);
                            assert(entry_keys(e)[j1] != entry_keys(e)[i as int]);
                        }
                        if entries_map(e).dom().contains(x) && x != key@ {
                            let j = choose|j: int| 0 <= j < e.len() && e[j].0 == x;
                            assert(j != i);
                            if j < i {
                                assert(e2[j].0 == x);
                            } else {
                                assert(e2[j - 1].0 == x);
                            }
                        }
                    }
                    assert forall|x: Seq<u8>| #[trigger]
                        entries_map(e2).dom().contains(x) implies entries_map(e2)[x] == entries_map(
                        e,
                    ).remove(key@)[x] by {
                        let j = choose|j: int| 0 <= j < e2.len() && e2[j].0 == x;
                        let j1 = if j < i { j } else { j + 1 };
                        assert(e2[j] == e[j1]);
                        assert(entries_map(e2)[e2[j].0] == e2[j].1);
                        assert(entries_map(e)[e[j1].0] == e[j1].1);
                    }
                    assert(entries_map(e2) =~= entries_map(e).remove(key@));
                }
            },
            None => {
                assert(!entries_map(e).dom().contains(key@));
                assert(entries_map(e).remove(key@) =~= entries_map(e));
            },
        }
    }
}

} // verus!
