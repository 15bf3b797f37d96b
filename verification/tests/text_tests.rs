use dioxide::text::{
    clone_bytes, contains_sub, eq_bytes, find_sub, join_sep, lit_bytes, split_lines, subvec,
    trim_quotes, trim_ws, usize_to_dec,
};

#[test]
fn eq_bytes_basic() {
    assert!(eq_bytes(&b"abc".to_vec(), &b"abc".to_vec()));
    assert!(!eq_bytes(&b"abc".to_vec(), &b"abd".to_vec()));
    assert!(!eq_bytes(&b"abc".to_vec(), &b"ab".to_vec()));
    assert!(eq_bytes(&b"".to_vec(), &b"".to_vec()));
}

#[test]
fn find_and_contains() {
    assert_eq!(find_sub(&b"hello world".to_vec(), &b"world".to_vec()), Some(6));
    assert_eq!(find_sub(&b"aaa".to_vec(), &b"aa".to_vec()), Some(0));
    assert_eq!(find_sub(&b"abc".to_vec(), &b"x".to_vec()), None);
    assert!(contains_sub(&b"abc".to_vec(), &b"".to_vec()));
    assert!(contains_sub(&b"if(x)".to_vec(), &b"if(".to_vec()));
}

#[test]
fn lit_bytes_is_utf8() {
    assert_eq!(lit_bytes("import "), b"import ".to_vec());
}

#[test]
fn trims() {
    assert_eq!(trim_ws(&b"  a b \t".to_vec()), b"a b".to_vec());
    assert_eq!(trim_ws(&b"\n\r x \n".to_vec()), b"x".to_vec());
    assert_eq!(trim_ws(&b"   ".to_vec()), b"".to_vec());
    assert_eq!(trim_quotes(&b"\"fmt\"".to_vec()), b"fmt".to_vec());
    assert_eq!(trim_quotes(&b"\"\"x\"\"".to_vec()), b"x".to_vec());
    assert_eq!(trim_quotes(&b"fmt".to_vec()), b"fmt".to_vec());
}

#[test]
fn lines_split_like_str_lines() {
    let parts = split_lines(&b"a\nb".to_vec());
    assert_eq!(parts, vec![b"a".to_vec(), b"b".to_vec()]);
    let parts = split_lines(&b"a\nb\n".to_vec());
    assert_eq!(parts, vec![b"a".to_vec(), b"b".to_vec()]);
    let parts = split_lines(&b"\n".to_vec());
    assert_eq!(parts, vec![b"".to_vec()]);
    let parts = split_lines(&b"".to_vec());
    assert!(parts.is_empty());
}

#[test]
fn lines_strip_carriage_returns_before_newlines() {
    let parts = split_lines(&b"a\r\nb\r\n".to_vec());
    assert_eq!(parts, vec![b"a".to_vec(), b"b".to_vec()]);
    // a bare trailing carriage return is not a line ending
    let parts = split_lines(&b"a\r".to_vec());
    assert_eq!(parts, vec![b"a\r".to_vec()]);
    let parts = split_lines(&b"\r\n".to_vec());
    assert_eq!(parts, vec![b"".to_vec()]);
}

#[test]
fn join_with_separator() {
    let parts = vec![b"a".to_vec(), b"b".to_vec(), b"c".to_vec()];
    assert_eq!(join_sep(&parts, &b" -> ".to_vec()), b"a -> b -> c".to_vec());
    let one = vec![b"x".to_vec()];
    assert_eq!(join_sep(&one, &b"\n".to_vec()), b"x".to_vec());
    let none: Vec<Vec<u8>> = Vec::new();
    assert_eq!(join_sep(&none, &b"\n".to_vec()), b"".to_vec());
}

#[test]
fn decimal_rendering() {
    assert_eq!(usize_to_dec(0), b"0".to_vec());
    assert_eq!(usize_to_dec(7), b"7".to_vec());
    assert_eq!(usize_to_dec(42), b"42".to_vec());
    assert_eq!(usize_to_dec(120), b"120".to_vec());
    assert_eq!(usize_to_dec(90061), b"90061".to_vec());
}

#[test]
fn subvec_and_clone() {
    let v = b"abcdef".to_vec();
    assert_eq!(subvec(&v, 1, 4), b"bcd".to_vec());
    assert_eq!(clone_bytes(&v), v);
}
