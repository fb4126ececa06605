use dns_codec::byte_packet_buffer::BytePacketBuffer;
use dns_codec::error::CodecError;

#[test]
fn encodes_labels_behind_their_lengths() {
    let mut b = BytePacketBuffer::new();
    assert_eq!(b.write_qname("google.com"), Ok(()));
    assert_eq!(b.position(), 12);
    assert_eq!(&b.buffer[0..13], b"\x06google\x03com\x00\x00");
}

#[test]
fn encodes_at_the_cursor() {
    let mut b = BytePacketBuffer::new();
    assert!(b.seek(100).is_ok());
    assert_eq!(b.write_qname("a.bc"), Ok(()));
    assert_eq!(b.position(), 106);
    assert_eq!(&b.buffer[99..107], &[0, 1, b'a', 2, b'b', b'c', 0, 0]);
}

#[test]
fn encoding_keeps_the_case_of_letters() {
    let mut b = BytePacketBuffer::new();
    assert_eq!(b.write_qname("Ab"), Ok(()));
    assert_eq!(&b.buffer[0..4], &[2, b'A', b'b', 0]);
}

#[test]
fn empty_name_is_one_empty_label() {
    let mut b = BytePacketBuffer::new();
    b.buffer[0] = 0xEE;
    b.buffer[1] = 0xEE;
    b.buffer[2] = 0xEE;
    assert_eq!(b.write_qname(""), Ok(()));
    assert_eq!(b.position(), 2);
    assert_eq!(&b.buffer[0..3], &[0, 0, 0xEE]);
}

#[test]
fn every_dot_separates_two_labels() {
    let mut b = BytePacketBuffer::new();
    assert_eq!(b.write_qname("a."), Ok(()));
    assert_eq!(b.position(), 4);
    assert_eq!(&b.buffer[0..4], &[1, b'a', 0, 0]);

    let mut b = BytePacketBuffer::new();
    b.buffer[0] = 0xEE;
    b.buffer[1] = 0xEE;
    b.buffer[2] = 0xEE;
    assert_eq!(b.write_qname("."), Ok(()));
    assert_eq!(b.position(), 3);
    assert_eq!(&b.buffer[0..3], &[0, 0, 0]);

    let mut b = BytePacketBuffer::new();
    assert_eq!(b.write_qname("a..b"), Ok(()));
    assert_eq!(b.position(), 6);
    assert_eq!(&b.buffer[0..6], &[1, b'a', 0, 1, b'b', 0]);
}

#[test]
fn label_length_counts_utf8_bytes() {
    let mut b = BytePacketBuffer::new();
    assert_eq!(b.write_qname("\u{E9}.x"), Ok(()));
    assert_eq!(b.position(), 6);
    assert_eq!(&b.buffer[0..6], &[2, 0xC3, 0xA9, 1, b'x', 0]);
}

#[test]
fn longest_label_is_encoded() {
    let mut b = BytePacketBuffer::new();
    let label = "a".repeat(63);
    assert_eq!(b.write_qname(&label), Ok(()));
    assert_eq!(b.position(), 65);
    assert_eq!(b.buffer[0], 63);
    assert!(b.buffer[1..64].iter().all(|x| *x == b'a'));
    assert_eq!(b.buffer[64], 0);
}

#[test]
fn label_of_64_bytes_is_refused_and_not_written() {
    let mut b = BytePacketBuffer::new();
    for i in 0..512 {
        b.buffer[i] = 0xEE;
    }
    let label = "a".repeat(64);
    assert_eq!(b.write_qname(&label), Err(CodecError::LabelTooLong));
    assert_eq!(b.position(), 0);
    assert!(b.buffer.iter().all(|x| *x == 0xEE));
}

#[test]
fn labels_before_a_long_one_are_written() {
    let mut b = BytePacketBuffer::new();
    for i in 0..512 {
        b.buffer[i] = 0xEE;
    }
    let name = format!("ok.{}.com", "b".repeat(64));
    assert_eq!(b.write_qname(&name), Err(CodecError::LabelTooLong));
    assert_eq!(b.position(), 3);
    assert_eq!(&b.buffer[0..3], &[2, b'o', b'k']);
    assert!(b.buffer[3..].iter().all(|x| *x == 0xEE));
}

#[test]
fn long_label_is_counted_in_bytes() {
    let mut b = BytePacketBuffer::new();
    // 32 characters of two bytes each.
    let label = "\u{E9}".repeat(32);
    assert_eq!(b.write_qname(&label), Err(CodecError::LabelTooLong));
    assert_eq!(b.position(), 0);
    assert_eq!(b.buffer[0], 0);
}

#[test]
fn long_label_is_refused_even_without_room() {
    let mut b = BytePacketBuffer::new();
    assert!(b.seek(512).is_ok());
    assert_eq!(b.write_qname(&"a".repeat(64)), Err(CodecError::LabelTooLong));
    assert_eq!(b.position(), 512);
}

#[test]
fn name_that_ends_with_the_storage_is_encoded() {
    let mut b = BytePacketBuffer::new();
    assert!(b.seek(503).is_ok());
    assert_eq!(b.write_qname("example"), Ok(()));
    assert_eq!(b.position(), 512);
    assert_eq!(&b.buffer[503..512], b"\x07example\x00");
}

#[test]
fn name_cut_by_the_end_is_an_overrun() {
    let mut b = BytePacketBuffer::new();
    for i in 0..512 {
        b.buffer[i] = 0xEE;
    }
    assert!(b.seek(505).is_ok());
    assert_eq!(b.write_qname("example"), Err(CodecError::BufferOverrun));
    assert_eq!(b.position(), 512);
    assert_eq!(&b.buffer[504..512], b"\xEE\x07exampl");
}

#[test]
fn missing_room_for_the_closing_zero_is_an_overrun() {
    let mut b = BytePacketBuffer::new();
    assert!(b.seek(504).is_ok());
    assert_eq!(b.write_qname("example"), Err(CodecError::BufferOverrun));
    assert_eq!(b.position(), 512);
    assert_eq!(&b.buffer[504..512], b"\x07example");
}

#[test]
fn overrun_comes_before_a_later_long_label() {
    let mut b = BytePacketBuffer::new();
    assert!(b.seek(510).is_ok());
    let name = format!("abc.{}", "d".repeat(64));
    assert_eq!(b.write_qname(&name), Err(CodecError::BufferOverrun));
    assert_eq!(b.position(), 512);
    assert_eq!(&b.buffer[510..512], &[3, b'a']);
}

#[test]
fn encoding_without_room_is_an_overrun() {
    let mut b = BytePacketBuffer::new();
    assert!(b.seek(600).is_ok());
    assert_eq!(b.write_qname("a"), Err(CodecError::BufferOverrun));
    assert_eq!(b.position(), 600);
    assert!(b.buffer.iter().all(|x| *x == 0));
}
