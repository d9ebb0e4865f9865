use tectonic::format::{append_bytes, append_decimal, AsciiOperationFormatter};

#[test]
fn insert_line_has_tag_key_and_value() {
    let mut out = Vec::new();
    AsciiOperationFormatter::write_insert(&mut out, b"key1", b"value1");
    assert_eq!(out, b"I key1 value1\n".to_vec());
}

#[test]
fn update_line_has_tag_key_and_value() {
    let mut out = Vec::new();
    AsciiOperationFormatter::write_update(&mut out, b"k", b"v");
    assert_eq!(out, b"U k v\n".to_vec());
}

#[test]
fn merge_line_has_tag_key_and_value() {
    let mut out = Vec::new();
    AsciiOperationFormatter::write_merge(&mut out, b"k", b"v");
    assert_eq!(out, b"M k v\n".to_vec());
}

#[test]
fn point_delete_line_has_tag_and_key() {
    let mut out = Vec::new();
    AsciiOperationFormatter::write_point_delete(&mut out, b"abc");
    assert_eq!(out, b"D abc\n".to_vec());
}

#[test]
fn point_query_line_has_tag_and_key() {
    let mut out = Vec::new();
    AsciiOperationFormatter::write_point_query(&mut out, b"abc");
    assert_eq!(out, b"P abc\n".to_vec());
}

#[test]
fn range_query_line_has_both_keys() {
    let mut out = Vec::new();
    AsciiOperationFormatter::write_range_query(&mut out, b"a", b"z");
    assert_eq!(out, b"S a z\n".to_vec());
}

#[test]
fn range_delete_line_has_both_keys() {
    let mut out = Vec::new();
    AsciiOperationFormatter::write_range_delete(&mut out, b"a", b"z");
    assert_eq!(out, b"R a z\n".to_vec());
}

#[test]
fn lines_append_after_earlier_output() {
    let mut out = b"P x\n".to_vec();
    AsciiOperationFormatter::write_point_delete(&mut out, b"y");
    AsciiOperationFormatter::write_insert(&mut out, b"", b"");
    assert_eq!(out, b"P x\nD y\nI  \n".to_vec());
}

#[test]
fn append_bytes_appends_all_bytes() {
    let mut out = vec![1u8];
    append_bytes(&mut out, &[2, 3, 4]);
    assert_eq!(out, vec![1, 2, 3, 4]);
    append_bytes(&mut out, &[]);
    assert_eq!(out, vec![1, 2, 3, 4]);
}

#[test]
fn decimal_digits_are_written_most_significant_first() {
    let mut out = Vec::new();
    append_decimal(&mut out, 0);
    out.push(b' ');
    append_decimal(&mut out, 7);
    out.push(b' ');
    append_decimal(&mut out, 1203);
    out.push(b' ');
    append_decimal(&mut out, usize::MAX);
    assert_eq!(out, format!("0 7 1203 {}", usize::MAX).into_bytes());
}

#[test]
fn range_lines_with_a_count() {
    let mut out = Vec::new();
    AsciiOperationFormatter::write_range_query_count(&mut out, b"k", 25);
    AsciiOperationFormatter::write_range_delete_count(&mut out, b"j", 0);
    assert_eq!(out, b"S k 25\nR j 0\n".to_vec());
}
