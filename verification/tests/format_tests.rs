use station_stats::byteseq::{bytes_eq, find_byte, key_lt, rfind_byte};
use station_stats::format::Join;

#[test]
fn join_separates_items() {
    let items: Vec<Vec<u8>> = vec![b"1".to_vec(), b"2".to_vec(), b"3".to_vec()];
    assert_eq!(items.join(b", "), b"1, 2, 3".to_vec());
}

#[test]
fn join_of_single_item_has_no_separator() {
    let items: Vec<Vec<u8>> = vec![b"only".to_vec()];
    assert_eq!(items.join(b", "), b"only".to_vec());
}

#[test]
fn join_of_nothing_is_empty() {
    let items: Vec<Vec<u8>> = Vec::new();
    assert_eq!(items.join(b", "), Vec::<u8>::new());
}

#[test]
fn join_with_empty_separator_concatenates() {
    let items: Vec<Vec<u8>> = vec![b"ab".to_vec(), b"cd".to_vec()];
    assert_eq!(items.join(b""), b"abcd".to_vec());
}

#[test]
fn find_byte_returns_first_match() {
    let data: &[u8] = b"a;b;c";
    assert_eq!(find_byte(data, 0, data.len(), b';'), Some(1));
    assert_eq!(find_byte(data, 2, data.len(), b';'), Some(3));
    assert_eq!(find_byte(data, 0, data.len(), b'x'), None);
}

#[test]
fn rfind_byte_returns_last_match() {
    let data: &[u8] = b"a;b;c";
    assert_eq!(rfind_byte(data, 0, data.len(), b';'), Some(3));
    assert_eq!(rfind_byte(data, 0, 2, b';'), Some(1));
    assert_eq!(rfind_byte(data, 0, 1, b';'), None);
}

#[test]
fn key_order_is_byte_lexicographic() {
    assert!(key_lt(b"A", b"B"));
    assert!(key_lt(b"A", b"a"));
    assert!(key_lt(b"ab", b"b"));
    assert!(key_lt(b"a", b"ab"));
    assert!(!key_lt(b"ab", b"ab"));
    assert!(!key_lt(b"b", b"ab"));
}

#[test]
fn byte_equality_compares_contents() {
    assert!(bytes_eq(b"abc", b"abc"));
    assert!(!bytes_eq(b"abc", b"abd"));
    assert!(!bytes_eq(b"abc", b"ab"));
    assert!(bytes_eq(b"", b""));
}
