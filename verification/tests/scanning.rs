use http_head::{bytes_eq, find_from};

#[test]
fn find_from_locates_first_occurrence() {
    let data = b"abcabc";
    assert_eq!(find_from(data, 0, b'b'), 1);
    assert_eq!(find_from(data, 2, b'b'), 4);
    assert_eq!(find_from(data, 0, b'z'), 6);
    assert_eq!(find_from(data, 6, b'a'), 6);
}

#[test]
fn bytes_eq_compares_contents() {
    assert!(bytes_eq(b"", b""));
    assert!(bytes_eq(b"abc", b"abc"));
    assert!(!bytes_eq(b"abc", b"abd"));
    assert!(!bytes_eq(b"abc", b"ab"));
    assert!(!bytes_eq(b"", b"a"));
}
