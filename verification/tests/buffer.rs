//! The file in memory.

use oxideav_mp4::buffer::{SeekTo, SharedBuf};

#[test]
fn writes_append_and_move() {
    let mut f = SharedBuf::new();
    assert_eq!(f.write(b"abc"), 3);
    assert_eq!(f.write(b"de"), 2);
    assert_eq!(f.bytes, b"abcde");
    assert_eq!(f.pos, 5);
}

#[test]
fn overwrite_keeps_the_rest() {
    let mut f = SharedBuf::new();
    f.write(b"abcdef");
    assert_eq!(f.seek(SeekTo::Start(2)), Some(2));
    f.write(b"XY");
    assert_eq!(f.bytes, b"abXYef");
    assert_eq!(f.pos, 4);
    assert_eq!(f.seek(SeekTo::End(-1)), Some(5));
    f.write(b"12");
    assert_eq!(f.bytes, b"abXYe12");
}

#[test]
fn hole_is_filled_with_zeros() {
    let mut f = SharedBuf::new();
    f.write(b"a");
    assert_eq!(f.seek(SeekTo::Current(3)), Some(4));
    assert_eq!(f.bytes, b"a");
    f.write(b"z");
    assert_eq!(f.bytes, b"a\0\0\0z");
}

#[test]
fn nothing_lies_before_the_start() {
    let mut f = SharedBuf::new();
    f.write(b"abc");
    assert_eq!(f.seek(SeekTo::End(-4)), None);
    assert_eq!(f.seek(SeekTo::Current(-4)), None);
    assert_eq!(f.seek(SeekTo::Start(u64::MAX)), None);
    assert_eq!(f.pos, 3);
    assert_eq!(f.seek(SeekTo::End(0)), Some(3));
    assert_eq!(f.seek(SeekTo::Current(-3)), Some(0));
}
