use dns_codec::byte_packet_buffer::BytePacketBuffer;
use dns_codec::error::CodecError;

fn written_and_read(name: &str, at: usize) -> (Result<(), CodecError>, String, usize, usize) {
    let mut b = BytePacketBuffer::new();
    assert!(b.seek(at).is_ok());
    assert_eq!(b.write_qname(name), Ok(()));
    let end = b.position();
    assert!(b.seek(at).is_ok());
    let mut out = String::new();
    let r = b.read_qname(&mut out);
    (r, out, b.position(), end)
}

#[test]
fn encoded_name_is_decoded_in_lower_case() {
    let (r, out, cursor, end) = written_and_read("Google.COM", 0);
    assert_eq!(r, Ok(()));
    assert_eq!(out, "google.com");
    assert_eq!(cursor, 12);
    assert_eq!(end, 12);
}

#[test]
fn encoded_name_is_decoded_anywhere_in_the_storage() {
    let (r, out, cursor, end) = written_and_read("a.b-c.D_9", 200);
    assert_eq!(r, Ok(()));
    assert_eq!(out, "a.b-c.d_9");
    assert_eq!(cursor, 211);
    assert_eq!(end, 211);
}

#[test]
fn longest_labels_survive_the_round_trip() {
    let name = format!("{}.{}", "X".repeat(63), "y".repeat(63));
    let (r, out, cursor, end) = written_and_read(&name, 0);
    assert_eq!(r, Ok(()));
    assert_eq!(out, name.to_ascii_lowercase());
    assert_eq!(cursor, 129);
    assert_eq!(end, 129);
}

#[test]
fn name_that_fills_the_storage_survives_the_round_trip() {
    let name = "Example";
    let (r, out, cursor, end) = written_and_read(name, 503);
    assert_eq!(r, Ok(()));
    assert_eq!(out, "example");
    assert_eq!(cursor, 512);
    assert_eq!(end, 512);
}

#[test]
fn name_outside_ascii_survives_the_round_trip() {
    let (r, out, cursor, end) = written_and_read("M\u{DC}NCHEN.de", 0);
    assert_eq!(r, Ok(()));
    assert_eq!(out, "m\u{FC}nchen.de");
    assert_eq!(cursor, end);
}

#[test]
fn empty_name_is_decoded_as_empty_text() {
    let (r, out, cursor, end) = written_and_read("", 0);
    assert_eq!(r, Ok(()));
    assert_eq!(out, "");
    assert_eq!(cursor, 1);
    assert_eq!(end, 2);
}

#[test]
fn empty_label_ends_the_name_when_decoding() {
    let (r, out, cursor, end) = written_and_read("a..b", 0);
    assert_eq!(r, Ok(()));
    assert_eq!(out, "a");
    assert_eq!(cursor, 3);
    assert_eq!(end, 6);
}
