use tectonic::order::{key_less, keys_equal};

#[test]
fn key_less_compares_bytes_lexicographically() {
    assert!(key_less(b"a", b"b"));
    assert!(!key_less(b"b", b"a"));
    assert!(key_less(b"ab", b"b"));
    assert!(!key_less(b"abc", b"abc"));
}

#[test]
fn key_less_puts_a_prefix_first() {
    assert!(key_less(b"", b"a"));
    assert!(key_less(b"ab", b"abc"));
    assert!(!key_less(b"abc", b"ab"));
    assert!(!key_less(b"", b""));
}

#[test]
fn key_less_agrees_with_std_order() {
    let keys: Vec<&[u8]> = vec![b"", b"0", b"09", b"1", b"A", b"Az", b"a", b"aa", b"b"];
    for a in &keys {
        for b in &keys {
            assert_eq!(key_less(a, b), a < b);
        }
    }
}

#[test]
fn keys_equal_compares_all_bytes() {
    assert!(keys_equal(b"abc", b"abc"));
    assert!(!keys_equal(b"abc", b"abd"));
    assert!(!keys_equal(b"ab", b"abc"));
    assert!(keys_equal(b"", b""));
}
