use tectonic::keyset::hashed::{hash_key, KeyHashMap, KeyHashSet};
use tectonic::keyset::key_table::{KeyIndex, KeyList};

#[test]
fn fnv1a_hash_of_known_strings() {
    assert_eq!(hash_key(b""), 0xcbf29ce484222325);
    assert_eq!(hash_key(b"a"), 0xaf63dc4c8601ec8c);
    assert_eq!(hash_key(b"foobar"), 0x85944171f73967e8);
}

#[test]
fn key_hash_set_insert_contains_remove() {
    let mut s = KeyHashSet::new();
    assert!(!s.contains(b"a"));
    s.insert(b"a");
    s.insert(b"b");
    s.insert(b"a");
    assert!(s.contains(b"a"));
    assert!(s.contains(b"b"));
    s.remove(b"a");
    assert!(!s.contains(b"a"));
    assert!(s.contains(b"b"));
    s.remove(b"zzz");
    assert!(s.contains(b"b"));
}

#[test]
fn key_hash_set_holds_many_keys() {
    let mut s = KeyHashSet::new();
    for i in 0..500u32 {
        s.insert(i.to_string().as_bytes());
    }
    for i in 0..500u32 {
        assert!(s.contains(i.to_string().as_bytes()));
    }
    assert!(!s.contains(b"500"));
}

#[test]
fn key_hash_map_insert_overrides_and_clears() {
    let mut m = KeyHashMap::new();
    m.insert(b"k", 1);
    assert!(m.contains_key(b"k"));
    m.insert(b"k", 2);
    m.remove(b"k");
    assert!(!m.contains_key(b"k"));
    m.insert(b"x", 3);
    m.clear();
    assert!(!m.contains_key(b"x"));
}

#[test]
fn key_list_and_key_index_basics() {
    let mut l = KeyList::new();
    l.insert(b"q");
    assert!(l.contains(b"q"));
    l.remove(b"q");
    assert!(!l.contains(b"q"));
    let mut ix = KeyIndex::new();
    ix.insert(b"q", 4);
    assert!(ix.contains_key(b"q"));
    ix.remove(b"q");
    assert!(!ix.contains_key(b"q"));
    ix.insert(b"r", 1);
    ix.clear();
    assert!(!ix.contains_key(b"r"));
}
