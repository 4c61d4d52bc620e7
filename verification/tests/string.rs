use badgeros::misc::string::{memcmp, memcpy, memmove, memset, strlen};

#[test]
fn copies_and_fills() {
    let mut d = vec![9u8; 6];
    memcpy(&mut d, b"abcd", 3);
    assert_eq!(d, b"abc\x09\x09\x09".to_vec());
    memset(&mut d, 0x141, 2);
    assert_eq!(d, b"AAc\x09\x09\x09".to_vec());
    memset(&mut d, 0, 0);
    assert_eq!(d[0], b'A');
}

#[test]
fn moves_with_overlap() {
    let mut b = b"0123456789".to_vec();
    memmove(&mut b, 2, 0, 5);
    assert_eq!(b, b"0101234789".to_vec());
    let mut c = b"0123456789".to_vec();
    memmove(&mut c, 0, 3, 5);
    assert_eq!(c, b"3456756789".to_vec());
    let mut e = b"0123".to_vec();
    memmove(&mut e, 1, 1, 2);
    assert_eq!(e, b"0123".to_vec());
}

#[test]
fn compares_bytes() {
    assert_eq!(memcmp(b"abc", b"abd", 3), -1);
    assert_eq!(memcmp(b"abz", b"aba", 3), 25);
    assert_eq!(memcmp(b"abz", b"aba", 2), 0);
    assert_eq!(memcmp(b"", b"", 0), 0);
    assert_eq!(memcmp(&[0xff], &[0x00], 1), 255);
}

#[test]
fn string_lengths() {
    assert_eq!(strlen(b"hello\0world\0"), 5);
    assert_eq!(strlen(b"\0"), 0);
}
