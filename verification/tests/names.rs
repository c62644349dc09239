use dnsrust::error::DnsError;
use dnsrust::name::{label_string, zone_covers};
use dnsrust::packets::{same_text, BytePacketBuffer};

fn buffer_with(bytes: &[u8]) -> BytePacketBuffer {
    let mut b = BytePacketBuffer::new();
    b.buf[..bytes.len()].copy_from_slice(bytes);
    b
}

#[test]
fn write_qname_lays_out_labels() {
    let mut b = BytePacketBuffer::new();
    assert_eq!(b.write_qname("example.com"), Ok(()));
    assert_eq!(b.pos(), 13);
    assert_eq!(&b.buf[0..13], b"\x07example\x03com\x00");
}

#[test]
fn write_qname_of_empty_name_is_two_zero_bytes() {
    let mut b = buffer_with(&[9, 9, 9]);
    assert_eq!(b.write_qname(""), Ok(()));
    assert_eq!(b.pos(), 2);
    assert_eq!(&b.buf[0..3], &[0, 0, 9]);
}

#[test]
fn write_qname_keeps_empty_labels() {
    let mut b = BytePacketBuffer::new();
    assert_eq!(b.write_qname("a..b."), Ok(()));
    assert_eq!(&b.buf[0..b.pos()], &[1, b'a', 0, 1, b'b', 0, 0]);
}

#[test]
fn write_qname_label_of_63_is_accepted() {
    let label = "a".repeat(63);
    let mut b = BytePacketBuffer::new();
    assert_eq!(b.write_qname(&label), Ok(()));
    assert_eq!(b.pos(), 65);
    assert_eq!(b.buf[0], 63);
    assert_eq!(b.buf[64], 0);
}

#[test]
fn write_qname_label_of_64_is_refused() {
    let label = "a".repeat(64);
    let mut b = BytePacketBuffer::new();
    assert_eq!(b.write_qname(&label), Err(DnsError::LabelTooLong));
    assert_eq!(b.pos(), 0);
    assert!(b.buf.iter().all(|x| *x == 0));
}

#[test]
fn write_qname_stops_before_the_long_label() {
    let name = format!("www.{}.com", "b".repeat(70));
    let mut b = BytePacketBuffer::new();
    assert_eq!(b.write_qname(&name), Err(DnsError::LabelTooLong));
    assert_eq!(b.pos(), 4);
    assert_eq!(&b.buf[0..5], &[3, b'w', b'w', b'w', 0]);
}

#[test]
fn write_qname_counts_bytes_not_characters() {
    // 32 two-byte characters are 64 bytes.
    let label = "\u{e9}".repeat(32);
    let mut b = BytePacketBuffer::new();
    assert_eq!(b.write_qname(&label), Err(DnsError::LabelTooLong));
    let label = "\u{e9}".repeat(31);
    assert_eq!(b.write_qname(&label), Ok(()));
    assert_eq!(b.buf[0], 62);
}

#[test]
fn write_qname_runs_out_of_room_before_long_label() {
    let name = format!("abc.{}", "b".repeat(70));
    let mut b = BytePacketBuffer::new();
    b.seek(510).unwrap();
    assert_eq!(b.write_qname(&name), Err(DnsError::BufferBounds));
    assert_eq!(b.pos(), 512);
    assert_eq!(&b.buf[510..512], &[3, b'a']);
}

#[test]
fn write_qname_exactly_fills_the_buffer() {
    let mut b = BytePacketBuffer::new();
    b.seek(512 - 13).unwrap();
    assert_eq!(b.write_qname("example.com"), Ok(()));
    assert_eq!(b.pos(), 512);
    b.seek(512 - 12).unwrap();
    assert_eq!(b.write_qname("example.com"), Err(DnsError::BufferBounds));
}

#[test]
fn read_qname_plain() {
    let mut b = buffer_with(b"\x03www\x06Google\x03COM\x00\x01");
    let mut out = String::new();
    assert_eq!(b.read_qname(&mut out), Ok(()));
    assert_eq!(out, "www.google.com");
    assert_eq!(b.pos(), 16);
}

#[test]
fn read_qname_appends_to_what_is_there() {
    let mut b = buffer_with(b"\x02ab\x00");
    let mut out = String::from("x");
    assert_eq!(b.read_qname(&mut out), Ok(()));
    assert_eq!(out, "xab");
}

#[test]
fn read_qname_of_root_is_empty() {
    let mut b = buffer_with(&[0]);
    let mut out = String::new();
    assert_eq!(b.read_qname(&mut out), Ok(()));
    assert_eq!(out, "");
    assert_eq!(b.pos(), 1);
}

#[test]
fn read_qname_follows_a_pointer() {
    // "example.com" at 0, then "www" and a pointer to 0 at 13.
    let mut b = buffer_with(b"\x07example\x03com\x00\x03www\xC0\x00\xFF");
    let mut direct = String::new();
    assert_eq!(b.read_qname(&mut direct), Ok(()));
    assert_eq!(direct, "example.com");
    assert_eq!(b.pos(), 13);
    let mut out = String::new();
    assert_eq!(b.read_qname(&mut out), Ok(()));
    assert_eq!(out, "www.example.com");
    assert_eq!(b.pos(), 19);
}

#[test]
fn read_qname_pointer_alone_equals_the_earlier_name() {
    let mut b = buffer_with(b"\x07example\x03com\x00\xC0\x00");
    let mut direct = String::new();
    b.read_qname(&mut direct).unwrap();
    let mut through = String::new();
    assert_eq!(b.read_qname(&mut through), Ok(()));
    assert_eq!(through, direct);
    assert_eq!(b.pos(), 15);
}

#[test]
fn read_qname_pointer_into_the_middle_of_a_name() {
    let mut b = buffer_with(b"\x07example\x03com\x00\x02ns\xC0\x08");
    b.seek(13).unwrap();
    let mut out = String::new();
    assert_eq!(b.read_qname(&mut out), Ok(()));
    assert_eq!(out, "ns.com");
    assert_eq!(b.pos(), 18);
}

#[test]
fn read_qname_self_pointer_is_malformed() {
    let mut b = buffer_with(&[0xC0, 0x00]);
    let mut out = String::new();
    assert_eq!(b.read_qname(&mut out), Err(DnsError::MalformedName));
}

#[test]
fn read_qname_pointer_cycle_is_malformed() {
    let mut b = buffer_with(&[0xC0, 0x02, 0xC0, 0x00]);
    let mut out = String::new();
    assert_eq!(b.read_qname(&mut out), Err(DnsError::MalformedName));
}

#[test]
fn read_qname_cycle_through_labels_is_malformed() {
    let mut b = buffer_with(&[1, b'a', 0xC0, 0x00]);
    let mut out = String::new();
    assert_eq!(b.read_qname(&mut out), Err(DnsError::MalformedName));
}

#[test]
fn read_qname_five_pointers_are_followed() {
    // Pointers at 3, 5, 7, 9, 11 lead down to the name at 0.
    let mut b =
        buffer_with(&[1, b'z', 0, 0xC0, 0, 0xC0, 3, 0xC0, 5, 0xC0, 7, 0xC0, 9, 0xC0, 11]);
    b.seek(11).unwrap();
    let mut out = String::new();
    assert_eq!(b.read_qname(&mut out), Ok(()));
    assert_eq!(out, "z");
    assert_eq!(b.pos(), 13);
    b.seek(13).unwrap();
    let mut out = String::new();
    assert_eq!(b.read_qname(&mut out), Err(DnsError::MalformedName));
}

#[test]
fn read_qname_label_past_the_end_fails() {
    let mut b = BytePacketBuffer::new();
    b.buf[509] = 3;
    b.seek(509).unwrap();
    let mut out = String::new();
    assert_eq!(b.read_qname(&mut out), Err(DnsError::BufferBounds));
    b.buf[509] = 2;
    b.buf[510] = b'a';
    b.buf[511] = b'b';
    b.seek(509).unwrap();
    let mut out = String::new();
    // The label fits, its zero byte does not.
    assert_eq!(b.read_qname(&mut out), Err(DnsError::BufferBounds));
}

#[test]
fn read_qname_pointer_at_the_last_byte_fails() {
    let mut b = BytePacketBuffer::new();
    b.buf[511] = 0xC0;
    b.seek(511).unwrap();
    let mut out = String::new();
    assert_eq!(b.read_qname(&mut out), Err(DnsError::BufferBounds));
}

#[test]
fn read_qname_pointer_in_the_last_two_bytes_is_read() {
    let mut b = buffer_with(b"\x02ab\x00");
    b.buf[510] = 0xC0;
    b.buf[511] = 0x00;
    b.seek(510).unwrap();
    let mut out = String::new();
    assert_eq!(b.read_qname(&mut out), Ok(()));
    assert_eq!(out, "ab");
    assert_eq!(b.pos(), 512);
}

#[test]
fn read_qname_pointer_beyond_the_buffer_fails() {
    let mut b = buffer_with(&[0xC2, 0x00]);
    let mut out = String::new();
    assert_eq!(b.read_qname(&mut out), Err(DnsError::BufferBounds));
}

#[test]
fn read_qname_at_capacity_fails() {
    let mut b = BytePacketBuffer::new();
    b.seek(512).unwrap();
    let mut out = String::new();
    assert_eq!(b.read_qname(&mut out), Err(DnsError::BufferBounds));
}

#[test]
fn label_string_lowers_and_replaces() {
    assert_eq!(label_string(b"WwW-1"), "www-1");
    assert_eq!(label_string(&[0xC3, 0x89]), "\u{e9}");
    assert_eq!(label_string(&[b'a', 0xFF]), "a\u{FFFD}");
    assert_eq!(label_string(b""), "");
}

#[test]
fn zone_covers_whole_labels_only() {
    assert!(zone_covers("com", "yahoo.com"));
    assert!(zone_covers("yahoo.com", "yahoo.com"));
    assert!(zone_covers("", "yahoo.com"));
    assert!(zone_covers("", ""));
    assert!(!zone_covers("om", "yahoo.com"));
    assert!(!zone_covers("hoo.com", "yahoo.com"));
    assert!(!zone_covers("www.yahoo.com", "yahoo.com"));
    assert!(!zone_covers("org", "yahoo.com"));
    assert!(!zone_covers("COM", "yahoo.com"));
}

#[test]
fn same_text_compares_exactly() {
    assert!(same_text("a.gtld-servers.net", "a.gtld-servers.net"));
    assert!(!same_text("a.gtld-servers.net", "b.gtld-servers.net"));
    assert!(!same_text("a", "ab"));
    assert!(same_text("", ""));
}
