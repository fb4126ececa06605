use dns_codec::byte_packet_buffer::{BytePacketBuffer, PACKET_TRANSPORT_LIMIT};
use dns_codec::error::CodecError;

#[test]
fn new_buffer_is_zero_filled_with_cursor_at_start() {
    let b = BytePacketBuffer::new();
    assert_eq!(b.position(), 0);
    assert_eq!(b.buffer.len(), 512);
    assert_eq!(PACKET_TRANSPORT_LIMIT, 512);
    assert!(b.buffer.iter().all(|x| *x == 0));
}

#[test]
fn read_returns_byte_and_advances() {
    let mut b = BytePacketBuffer::new();
    b.buffer[0] = 0xAB;
    b.buffer[1] = 0xCD;
    assert_eq!(b.read(), Ok(0xAB));
    assert_eq!(b.position(), 1);
    assert_eq!(b.read(), Ok(0xCD));
    assert_eq!(b.position(), 2);
}

#[test]
fn read_last_byte_then_overrun() {
    let mut b = BytePacketBuffer::new();
    b.buffer[511] = 7;
    assert!(b.seek(511).is_ok());
    assert_eq!(b.read(), Ok(7));
    assert_eq!(b.position(), 512);
    assert_eq!(b.read(), Err(CodecError::BufferOverrun));
    assert_eq!(b.position(), 512);
}

#[test]
fn get_peeks_without_moving_cursor() {
    let mut b = BytePacketBuffer::new();
    b.buffer[100] = 42;
    assert!(b.seek(5).is_ok());
    assert_eq!(b.get(100), Ok(42));
    assert_eq!(b.position(), 5);
    assert_eq!(b.get(511), Ok(0));
    assert_eq!(b.get(512), Err(CodecError::BufferOverrun));
    assert_eq!(b.get(usize::MAX), Err(CodecError::BufferOverrun));
    assert_eq!(b.position(), 5);
}

#[test]
fn get_range_returns_the_bytes_asked_for() {
    let mut b = BytePacketBuffer::new();
    b.buffer[10] = 1;
    b.buffer[11] = 2;
    b.buffer[12] = 3;
    assert_eq!(b.get_range(10, 3), Ok(&[1u8, 2, 3][..]));
    assert_eq!(b.get_range(10, 0), Ok(&[][..]));
    assert_eq!(b.position(), 0);
}

#[test]
fn get_range_rejects_a_range_that_reaches_the_end() {
    let mut b = BytePacketBuffer::new();
    assert_eq!(b.get_range(510, 3), Err(CodecError::BufferOverrun));
    // The range may not even touch the last byte: 500 + 12 is the capacity.
    assert_eq!(b.get_range(500, 12), Err(CodecError::BufferOverrun));
    assert_eq!(b.get_range(510, 2), Err(CodecError::BufferOverrun));
    assert_eq!(b.get_range(512, 0), Err(CodecError::BufferOverrun));
    assert_eq!(b.get_range(usize::MAX, 2), Err(CodecError::BufferOverrun));
    assert_eq!(b.get_range(2, usize::MAX), Err(CodecError::BufferOverrun));
    assert_eq!(b.get_range(500, 11).map(|s| s.len()), Ok(11));
    assert_eq!(b.get_range(510, 1).map(|s| s.len()), Ok(1));
    assert_eq!(b.get_range(511, 0).map(|s| s.len()), Ok(0));
}

#[test]
fn seek_sets_cursor_without_checking() {
    let mut b = BytePacketBuffer::new();
    assert_eq!(b.seek(300), Ok(()));
    assert_eq!(b.position(), 300);
    assert_eq!(b.seek(9999), Ok(()));
    assert_eq!(b.position(), 9999);
    assert_eq!(b.read(), Err(CodecError::BufferOverrun));
    assert_eq!(b.write_u8(1), Err(CodecError::BufferOverrun));
    assert_eq!(b.position(), 9999);
}

#[test]
fn step_moves_cursor_forward() {
    let mut b = BytePacketBuffer::new();
    assert_eq!(b.step(4), Ok(()));
    assert_eq!(b.position(), 4);
    assert_eq!(b.step(10), Ok(()));
    assert_eq!(b.position(), 14);
    assert_eq!(b.step(0), Ok(()));
    assert_eq!(b.position(), 14);
}

#[test]
fn read_u16_is_big_endian() {
    let mut b = BytePacketBuffer::new();
    b.buffer[0] = 0x01;
    b.buffer[1] = 0x02;
    assert_eq!(b.read_u16(), Ok(258));
    assert_eq!(b.position(), 2);
}

#[test]
fn read_u32_is_big_endian() {
    let mut b = BytePacketBuffer::new();
    b.buffer[0] = 0x00;
    b.buffer[1] = 0x00;
    b.buffer[2] = 0x01;
    b.buffer[3] = 0x00;
    assert_eq!(b.read_u32(), Ok(256));
    assert_eq!(b.position(), 4);
    b.buffer[4] = 0xDE;
    b.buffer[5] = 0xAD;
    b.buffer[6] = 0xBE;
    b.buffer[7] = 0xEF;
    assert_eq!(b.read_u32(), Ok(0xDEAD_BEEF));
    assert_eq!(b.position(), 8);
}

#[test]
fn read_u16_at_the_end_of_storage() {
    let mut b = BytePacketBuffer::new();
    b.buffer[510] = 0xFF;
    b.buffer[511] = 0xFE;
    assert!(b.seek(510).is_ok());
    assert_eq!(b.read_u16(), Ok(0xFFFE));
    assert_eq!(b.position(), 512);
}

#[test]
fn failed_read_u16_leaves_cursor_behind_the_byte_it_read() {
    let mut b = BytePacketBuffer::new();
    assert!(b.seek(511).is_ok());
    assert_eq!(b.read_u16(), Err(CodecError::BufferOverrun));
    assert_eq!(b.position(), 512);
    assert_eq!(b.read_u16(), Err(CodecError::BufferOverrun));
    assert_eq!(b.position(), 512);
}

#[test]
fn failed_read_u32_leaves_cursor_behind_the_bytes_it_read() {
    let mut b = BytePacketBuffer::new();
    assert!(b.seek(509).is_ok());
    assert_eq!(b.read_u32(), Err(CodecError::BufferOverrun));
    assert_eq!(b.position(), 512);
    assert!(b.seek(508).is_ok());
    assert_eq!(b.read_u32(), Ok(0));
    assert_eq!(b.position(), 512);
}

#[test]
fn write_u8_stores_byte_and_advances() {
    let mut b = BytePacketBuffer::new();
    assert_eq!(b.write_u8(0x7F), Ok(()));
    assert_eq!(b.write(0x80), Ok(()));
    assert_eq!(b.position(), 2);
    assert_eq!(b.buffer[0], 0x7F);
    assert_eq!(b.buffer[1], 0x80);
    assert_eq!(b.buffer[2], 0);
}

#[test]
fn write_at_the_end_of_storage_fails() {
    let mut b = BytePacketBuffer::new();
    assert!(b.seek(511).is_ok());
    assert_eq!(b.write_u8(9), Ok(()));
    assert_eq!(b.buffer[511], 9);
    assert_eq!(b.position(), 512);
    assert_eq!(b.write_u8(1), Err(CodecError::BufferOverrun));
    assert_eq!(b.write(1), Err(CodecError::BufferOverrun));
    assert_eq!(b.position(), 512);
    assert_eq!(b.buffer[511], 9);
}

#[test]
fn write_u16_is_big_endian() {
    let mut b = BytePacketBuffer::new();
    assert_eq!(b.write_u16(0x1234), Ok(()));
    assert_eq!(b.position(), 2);
    assert_eq!(&b.buffer[0..3], &[0x12, 0x34, 0x00]);
}

#[test]
fn write_u32_is_big_endian() {
    let mut b = BytePacketBuffer::new();
    assert_eq!(b.write_u32(0x0102_0304), Ok(()));
    assert_eq!(b.position(), 4);
    assert_eq!(&b.buffer[0..5], &[0x01, 0x02, 0x03, 0x04, 0x00]);
}

#[test]
fn failed_write_u16_keeps_the_byte_that_fitted() {
    let mut b = BytePacketBuffer::new();
    assert!(b.seek(511).is_ok());
    assert_eq!(b.write_u16(0xABCD), Err(CodecError::BufferOverrun));
    assert_eq!(b.buffer[511], 0xAB);
    assert_eq!(b.position(), 512);
}

#[test]
fn failed_write_u32_keeps_the_bytes_that_fitted() {
    let mut b = BytePacketBuffer::new();
    assert!(b.seek(510).is_ok());
    assert_eq!(b.write_u32(0xA1B2_C3D4), Err(CodecError::BufferOverrun));
    assert_eq!(b.buffer[510], 0xA1);
    assert_eq!(b.buffer[511], 0xB2);
    assert_eq!(b.position(), 512);
}

#[test]
fn written_numbers_are_read_back() {
    let mut b = BytePacketBuffer::new();
    assert!(b.write_u16(0xBEEF).is_ok());
    assert!(b.write_u32(0x8000_0001).is_ok());
    assert!(b.write_u16(0).is_ok());
    assert!(b.write_u32(u32::MAX).is_ok());
    assert!(b.seek(0).is_ok());
    assert_eq!(b.read_u16(), Ok(0xBEEF));
    assert_eq!(b.read_u32(), Ok(0x8000_0001));
    assert_eq!(b.read_u16(), Ok(0));
    assert_eq!(b.read_u32(), Ok(u32::MAX));
    assert_eq!(b.position(), 12);
}
