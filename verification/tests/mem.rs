use goish::runtime::mem::{bcmp, memcmp, memcpy, memmove, memset, strlen};

#[test]
fn copy_and_fill() {
    let mut d = [9u8; 5];
    memcpy(&mut d, b"abc", 3);
    assert_eq!(&d, b"abc\x09\x09");
    memset(&mut d, 0x141, 2);
    assert_eq!(&d, b"AAc\x09\x09");
    memset(&mut d, 0, 0);
    assert_eq!(&d, b"AAc\x09\x09");
}

#[test]
fn overlapping_moves() {
    let mut b = *b"abcdefgh";
    memmove(&mut b, 2, 0, 4);
    assert_eq!(&b, b"ababcdgh");
    let mut b = *b"abcdefgh";
    memmove(&mut b, 0, 2, 4);
    assert_eq!(&b, b"cdefefgh");
    let mut b = *b"abcdefgh";
    memmove(&mut b, 3, 3, 2);
    assert_eq!(&b, b"abcdefgh");
}

#[test]
fn compare_and_length() {
    assert_eq!(memcmp(b"abc", b"abd", 3), -1);
    assert_eq!(memcmp(b"abz", b"aba", 3), 25);
    assert_eq!(memcmp(b"abc", b"abd", 2), 0);
    assert_eq!(bcmp(b"\xff", b"\x00", 1), 255);
    assert_eq!(strlen(b"hello\0world\0"), 5);
    assert_eq!(strlen(b"\0"), 0);
}
