use emu_utils::raw::{push_be, push_le, read_be_at, read_le_at};
use emu_utils::value::{native_is_little, push_value, read_value, ByteMutSlice, ByteSlice};

#[test]
fn little_and_big_endian_bytes() {
    let mut out = Vec::new();
    push_le(&mut out, 0x0102_0304, 4);
    push_be(&mut out, 0x0102_0304, 4);
    assert_eq!(out, vec![4, 3, 2, 1, 1, 2, 3, 4]);
    assert_eq!(read_le_at(&out, 0, 4), 0x0102_0304);
    assert_eq!(read_be_at(&out, 4, 4), 0x0102_0304);
    assert_eq!(read_le_at(&out, 1, 2), 0x0203);
    assert_eq!(read_be_at(&out, 1, 2), 0x0302);
}

#[test]
fn values_in_both_orders() {
    let mut out = Vec::new();
    push_value(&mut out, -2i16, true);
    push_value(&mut out, -2i16, false);
    push_value(&mut out, 0x8000_0000_0000_0001u64, false);
    assert_eq!(&out[..4], &[0xfe, 0xff, 0xff, 0xfe]);
    assert_eq!(read_value::<i16>(&out, 0, true), -2);
    assert_eq!(read_value::<i16>(&out, 2, false), -2);
    assert_eq!(read_value::<u64>(&out, 4, false), 0x8000_0000_0000_0001);
    assert_eq!(read_value::<i64>(&out, 4, false), i64::MIN + 1);
}

#[test]
fn native_order_matches_the_machine() {
    assert_eq!(native_is_little(), 1u16.to_ne_bytes()[0] == 1);
}

#[test]
fn byte_slice_reads_and_writes_at_offsets() {
    let mut buf = [0u8; 8];
    buf[..].write_le(1, 0x0102_0304u32);
    assert_eq!(buf, [0, 4, 3, 2, 1, 0, 0, 0]);
    assert_eq!(buf[..].read_le::<u32>(1), 0x0102_0304);
    buf[..].write_be(4, 0x0a0bu16);
    assert_eq!(buf, [0, 4, 3, 2, 0x0a, 0x0b, 0, 0]);
    buf[..].write(7, 9);
    assert_eq!(buf[..].read(7), 9);
    assert_eq!(buf[..].read_le::<u32>(1), 0x0a02_0304);
    assert_eq!(buf[..].read_be::<u16>(4), 0x0a0b);
    buf[..].write_ne(0, -2i16);
    assert_eq!(buf[..].read_ne::<i16>(0), -2);
    assert_eq!(&buf[..2], &(-2i16).to_ne_bytes());
}
