//! Byte strings for keys and values: character sets, random strings over
//! them, hot keys, and strings made of segments.

use crate::keyset::{copy_key, Key};
use crate::random::{
    is_alphanumeric, is_digit, is_letter, random_alphabetic, random_alphanumeric, random_index,
};
use rand_xoshiro::Xoshiro256Plus;
use vstd::prelude::*;

verus! {

/// The characters that random strings are drawn from.
#[derive(Clone, Copy, Debug, PartialEq, Eq, Structural)]
pub enum CharacterSet {
    /// ASCII letters and digits.
    Alphanumeric,
    /// ASCII letters.
    Alphabetic,
    /// ASCII digits.
    Numeric,
}

impl CharacterSet {
    /// Whether the set holds the byte.
    pub open spec fn admits(self, c: u8) -> bool {
        match self {
            CharacterSet::Alphanumeric => is_alphanumeric(c),
            CharacterSet::Alphabetic => is_letter(c),
            CharacterSet::Numeric => is_digit(c),
        }
    }
}

impl Default for CharacterSet {
    /// Letters and digits.
    fn default() -> (r: Self)
        ensures
            r == CharacterSet::Alphanumeric,
    {
        CharacterSet::Alphanumeric
    }
}

/// The character set that applies: the expression's own, else the one it
/// inherits, else letters and digits.
pub fn resolve_character_set(own: Option<CharacterSet>, inherited: Option<CharacterSet>) -> (r:
    CharacterSet)
    ensures
        r == match (own, inherited) {
            (Some(c), _) => c,
            (None, Some(c)) => c,
            (None, None) => CharacterSet::Alphanumeric,
        },
{
    match own {
        Some(c) => c,
        None => match inherited {
            Some(c) => c,
            None => CharacterSet::default(),
        },
    }
}

/// A random ASCII digit: `0` plus a random number below ten.
pub fn random_numeric(rng: &mut Xoshiro256Plus) -> (c: u8)
    ensures
        is_digit(c),
{
    let d = random_index(rng, 10);
    (d as u8) + 48
}

/// A random byte of the character set.
pub fn random_char(rng: &mut Xoshiro256Plus, character_set: CharacterSet) -> (c: u8)
    ensures
        character_set.admits(c),
{
    match character_set {
        CharacterSet::Alphanumeric => random_alphanumeric(rng),
        CharacterSet::Alphabetic => random_alphabetic(rng),
        CharacterSet::Numeric => random_numeric(rng),
    }
}

/// A random string of `len` bytes of the character set.
pub fn random_string(rng: &mut Xoshiro256Plus, character_set: CharacterSet, len: usize) -> (s: Key)
    ensures
        s@.len() == len,
        forall|i: int| 0 <= i < len ==> character_set.admits(#[trigger] s@[i]),
{
    let mut s: Key = Vec::with_capacity(len);
    let mut i: usize = 0;
    while i < len
        invariant
            i <= len,
            s@.len() == i,
            forall|j: int| 0 <= j < i ==> character_set.admits(#[trigger] s@[j]),
        decreases len - i,
    {
        s.push(random_char(rng, character_set));
        i += 1;
    }
    s
}

/// The hot keys of a hot range: `amount` random strings of `len` letters
/// and digits.
pub fn hot_range_keys(rng: &mut Xoshiro256Plus, amount: usize, len: usize) -> (keys: Vec<Key>)
    ensures
        keys@.len() == amount,
        forall|i: int| 0 <= i < amount ==> (#[trigger] keys@[i])@.len() == len,
        forall|i: int, j: int|
            0 <= i < amount && 0 <= j < len ==> is_alphanumeric(#[trigger] keys@[i]@[j]),
{
    let mut keys: Vec<Key> = Vec::with_capacity(amount);
    let mut i: usize = 0;
    while i < amount
        invariant
            i <= amount,
            keys@.len() == i,
            forall|a: int| 0 <= a < i ==> (#[trigger] keys@[a])@.len() == len,
            forall|a: int, b: int| 0 <= a < i && 0 <= b < len ==> is_alphanumeric(#[trigger] keys@[a]@[b]),
        decreases amount - i,
    {
        let key = random_string(rng, CharacterSet::Alphanumeric, len);
        keys.push(key);
        i += 1;
    }
    keys
}

/// One of the hot keys, drawn at random.
pub fn pick_hot_key(rng: &mut Xoshiro256Plus, hot_ranges: &Vec<Key>) -> (k: Key)
    requires
        hot_ranges@.len() > 0,
    ensures
        exists|i: int| 0 <= i < hot_ranges@.len() && k@ == (#[trigger] hot_ranges@[i])@,
{
    let index = random_index(rng, hot_ranges.len());
    copy_key(&hot_ranges[index])
}

/// The segments with the separator between each two.
pub open spec fn joined(parts: Seq<Seq<u8>>, separator: Seq<u8>) -> Seq<u8>
    decreases parts.len(),
{
    if parts.len() == 0 {
        Seq::empty()
    } else if parts.len() == 1 {
        parts[0]
    } else {
        joined(parts.drop_last(), separator) + separator + parts.last()
    }
}

/// A string made of segments, the separator between each two.
pub fn join_segments(parts: &Vec<Key>, separator: &[u8]) -> (s: Key)
    ensures
        s@ == joined(crate::order::keys_view(parts@), separator@),
{
    let ghost view = crate::order::keys_view(parts@);
    let mut buf: Key = Vec::new();
    let mut i: usize = 0;
    assert(view.subrange(0, 0) =~= Seq::<Seq<u8>>::empty());
    while i < parts.len()
        invariant
            i <= parts@.len(),
            view == crate::order::keys_view(parts@),
            buf@ == joined(view.subrange(0, i as int), separator@),
        decreases parts@.len() - i,
    {
        let ghost prev = view.subrange(0, i as int);
        assert(view.subrange(0, i + 1).drop_last() =~= prev);
        assert(view.subrange(0, i + 1).last() == parts@[i as int]@);
        if i > 0 {
            crate::format::append_bytes(&mut buf, separator);
        }
        crate::format::append_bytes(&mut buf, parts[i].as_slice());
        proof {
            if i == 0 {
                assert(prev =~= Seq::<Seq<u8>>::empty());
                assert(buf@ =~= parts@[0]@);
            }
        }
        i += 1;
    }
    assert(view.subrange(0, parts@.len() as int) =~= view);
    buf
}

} // verus!
