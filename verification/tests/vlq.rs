use rusty_beads::vlq::{add_as_vlq, read_vlq, zigzag_decode, zigzag_encode};

#[test]
fn add_vlq() {
    let mut buf = vec![0u8, 0, 0];
    assert_eq!(add_as_vlq(buf.as_mut_slice(), 45), 1);
    assert_eq!(buf[0], 45);
    // assert_eq!(read_vlq(buf.as_slice()), (1, 45));
    assert_eq!(add_as_vlq(buf.as_mut_slice(), 146), 2);
    assert_eq!(buf[0], 146);
    assert_eq!(buf[1], 1);
    // assert_eq!(read_vlq(buf.as_slice()), (2, 146));
    assert_eq!(add_as_vlq(buf.as_mut_slice(), 256), 2);
    assert_eq!(buf[0], 128);
    assert_eq!(buf[1], 2);
    assert_eq!(read_vlq(buf.as_slice()).ok().unwrap(), (2, 256));
    assert_eq!(add_as_vlq(buf.as_mut_slice(), 257), 2);
    assert_eq!(buf[0], 129);
    assert_eq!(buf[1], 2);
    assert_eq!(read_vlq(buf.as_slice()).ok().unwrap(), (2, 257));
    assert_eq!(add_as_vlq(buf.as_mut_slice(), 258), 2);
    assert_eq!(buf[0], 130);
    assert_eq!(buf[1], 2);
    assert_eq!(read_vlq(buf.as_slice()).ok().unwrap(), (2, 258));
    assert_eq!(add_as_vlq(buf.as_mut_slice(), 2580), 2);
    assert_eq!(buf[0], 148);
    assert_eq!(buf[1], 20);
    assert_eq!(read_vlq(buf.as_slice()).ok().unwrap(), (2, 2580));
    assert_eq!(add_as_vlq(buf.as_mut_slice(), 22580), 3);
    assert_eq!(buf[0], 180);
    assert_eq!(buf[1], 176);
    assert_eq!(buf[2], 1);
    assert_eq!(read_vlq(buf.as_slice()).ok().unwrap(), (3, 22580));
}

#[test]
fn zig_zag_encode() {
    assert_eq!(zigzag_encode(0), 0);
    assert_eq!(zigzag_encode(-1), 1);
    assert_eq!(zigzag_encode(1), 2);
    assert_eq!(zigzag_encode(-2), 3);
    assert_eq!(zigzag_encode(2), 4);
    assert_eq!(zigzag_encode(-3), 5);
    assert_eq!(zigzag_encode(3), 6);
    assert_eq!(zigzag_encode(-127), 253);
    assert_eq!(zigzag_encode(127), 254);
    assert_eq!(zigzag_encode(-128), 255);
}

#[test]
fn zig_zag_decode() {
    assert_eq!(zigzag_decode(zigzag_encode(0)), 0);
    assert_eq!(zigzag_decode(zigzag_encode(-1)), -1);
    assert_eq!(zigzag_decode(zigzag_encode(1)), 1);
    assert_eq!(zigzag_decode(zigzag_encode(-2)), -2);
    assert_eq!(zigzag_decode(zigzag_encode(2)), 2);
    assert_eq!(zigzag_decode(zigzag_encode(-3)), -3);
    assert_eq!(zigzag_decode(zigzag_encode(3)), 3);
    assert_eq!(zigzag_decode(zigzag_encode(-127)), -127);
    assert_eq!(zigzag_decode(zigzag_encode(127)), 127);
    assert_eq!(zigzag_decode(zigzag_encode(-128)), -128);
}
