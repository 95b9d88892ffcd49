use rookiedb::bit::Bit;
use rookiedb::buffer::{ByteBuffer, Endian};
use rookiedb::error::DBError;

#[test]
fn integers_are_written_in_the_buffer_byte_order() {
    let mut buf = ByteBuffer::new();
    assert_eq!(buf.endian(), Endian::Big);
    buf.write_u16(0x1234);
    buf.write_u32(0x0102_0304);
    buf.write_u64(0x0102_0304_0506_0708);
    assert_eq!(
        buf.to_bytes(),
        vec![0x12, 0x34, 1, 2, 3, 4, 1, 2, 3, 4, 5, 6, 7, 8]
    );
    let mut little = ByteBuffer::new();
    little.set_endian(Endian::Little);
    little.write_u16(0x1234);
    little.write_u32(0x0102_0304);
    little.write_u64(0x0102_0304_0506_0708);
    assert_eq!(
        little.to_bytes(),
        vec![0x34, 0x12, 4, 3, 2, 1, 8, 7, 6, 5, 4, 3, 2, 1]
    );
}

#[test]
fn integers_read_back_as_written() {
    for endian in [Endian::Big, Endian::Little] {
        let mut buf = ByteBuffer::new();
        buf.set_endian(endian);
        buf.write_u8(200);
        buf.write_i8(-5);
        buf.write_u16(65535);
        buf.write_i16(-2);
        buf.write_u32(3_000_000_000);
        buf.write_i32(-70_000);
        buf.write_u64(u64::MAX - 1);
        buf.write_i64(i64::MIN);
        assert_eq!(buf.len(), 1 + 1 + 2 + 2 + 4 + 4 + 8 + 8);
        assert_eq!(buf.read_u8(), Ok(200));
        assert_eq!(buf.read_i8(), Ok(-5));
        assert_eq!(buf.read_u16(), Ok(65535));
        assert_eq!(buf.read_i16(), Ok(-2));
        assert_eq!(buf.read_u32(), Ok(3_000_000_000));
        assert_eq!(buf.read_i32(), Ok(-70_000));
        assert_eq!(buf.read_u64(), Ok(u64::MAX - 1));
        assert_eq!(buf.read_i64(), Ok(i64::MIN));
        assert_eq!(buf.read_u8(), Err(DBError::BufferUnderflow));
    }
}

#[test]
fn reads_past_the_end_fail() {
    let mut buf = ByteBuffer::from_bytes(&[0x00, 0x01, 0x02]);
    assert_eq!(buf.get_w_pos(), 3);
    assert_eq!(buf.read_u32(), Err(DBError::BufferUnderflow));
    assert_eq!(buf.get_r_pos(), 0);
    assert_eq!(buf.read_u16(), Ok(1));
    assert_eq!(buf.read_u16(), Err(DBError::BufferUnderflow));
    assert_eq!(buf.read_u64(), Err(DBError::BufferUnderflow));
    assert_eq!(buf.read_bytes(2), Err(DBError::BufferUnderflow));
    assert_eq!(buf.read_bytes(1), Ok(vec![2]));
    assert_eq!(buf.read_bytes(0), Ok(vec![]));
}

#[test]
fn strings_carry_their_length() {
    let mut buf = ByteBuffer::new();
    buf.write_string("héllo");
    assert_eq!(buf.to_bytes()[0..4], [0, 0, 0, 6]);
    buf.write_string("");
    assert_eq!(buf.read_string(), Ok("héllo".to_string()));
    assert_eq!(buf.read_string(), Ok(String::new()));
    assert_eq!(buf.read_string(), Err(DBError::BufferUnderflow));

    let mut bad = ByteBuffer::from_bytes(&[0, 0, 0, 2, 0xff, 0xfe]);
    assert_eq!(bad.read_string(), Err(DBError::InvalidUtf8));
    let mut short = ByteBuffer::from_bytes(&[0, 0, 0, 9, b'a']);
    assert_eq!(short.read_string(), Err(DBError::BufferUnderflow));
}

#[test]
fn bits_are_packed_most_significant_first() {
    let mut buf = ByteBuffer::new();
    buf.write_bits(0b101, 3);
    buf.write_bit(Bit::One);
    assert_eq!(buf.to_bytes(), vec![0b1011_0000]);
    buf.write_bits(0x1ff, 9);
    assert_eq!(buf.to_bytes(), vec![0b1011_1111, 0b1111_1000]);
    buf.write_u8(0xaa);
    assert_eq!(buf.to_bytes(), vec![0b1011_1111, 0b1111_1000, 0xaa]);

    assert_eq!(buf.read_bits(4), Ok(0b1011));
    assert_eq!(buf.read_bit(), Ok(Bit::One));
    assert_eq!(buf.read_bits(8), Ok(0xff));
    assert_eq!(buf.read_u8(), Ok(0xaa));
    assert_eq!(buf.read_bit(), Err(DBError::BufferUnderflow));
    assert_eq!(buf.read_bits(1), Err(DBError::BufferUnderflow));
    assert_eq!(buf.read_bits(0), Ok(0));
}

#[test]
fn wide_bit_fields() {
    let mut buf = ByteBuffer::new();
    buf.write_bits(u64::MAX, 64);
    buf.write_bits(0x0123_4567_89ab_cdef, 64);
    assert_eq!(buf.len(), 16);
    assert_eq!(buf.read_bits(64), Ok(u64::MAX));
    assert_eq!(buf.read_bits(64), Ok(0x0123_4567_89ab_cdef));
}

#[test]
fn cursors_resize_and_clear() {
    let mut buf = ByteBuffer::from_bytes(&[1, 2, 3, 4]);
    buf.set_r_pos(2);
    assert_eq!(buf.read_u8(), Ok(3));
    buf.set_r_pos(100);
    assert_eq!(buf.get_r_pos(), 4);
    buf.set_w_pos(1);
    buf.write_u8(9);
    assert_eq!(buf.to_bytes(), vec![1, 9, 3, 4]);
    buf.resize(6);
    assert_eq!(buf.to_bytes(), vec![1, 9, 3, 4, 0, 0]);
    buf.resize(2);
    assert_eq!(buf.len(), 6);
    buf.clear();
    assert!(buf.is_empty());
    assert_eq!(buf.get_w_pos(), 0);
    assert_eq!(buf.get_r_pos(), 0);
}

#[test]
fn to_string_is_a_hex_dump() {
    let buf = ByteBuffer::from_bytes(&[0x01, 0xff, 0x0a, 0xb0]);
    assert_eq!(buf.to_string(), "0x01 0xff 0x0a 0xb0");
    assert_eq!(ByteBuffer::new().to_string(), "");
    assert_eq!(ByteBuffer::from_bytes(&[0x7c]).to_string(), "0x7c");
}
