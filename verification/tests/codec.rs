use dnsrust::error::DnsError;
use dnsrust::header::{DnsHeader, ResultCode};
use dnsrust::packets::{build_query, read_questions, read_records, BytePacketBuffer, DnsPacket};
use dnsrust::packets::{write_questions, write_records};
use dnsrust::record::{DnsQuestion, DnsRecord, Ipv4Address, QueryType};

fn buffer_with(bytes: &[u8]) -> BytePacketBuffer {
    let mut b = BytePacketBuffer::new();
    b.buf[..bytes.len()].copy_from_slice(bytes);
    b
}

fn a_record(domain: &str, addr: [u8; 4], ttl: u32) -> DnsRecord {
    DnsRecord::A {
        domain: domain.to_string(),
        addr: Ipv4Address::new(addr[0], addr[1], addr[2], addr[3]),
        ttl,
    }
}

fn ns_record(domain: &str, host: &str, ttl: u32) -> DnsRecord {
    DnsRecord::NS { domain: domain.to_string(), host: host.to_string(), ttl }
}

#[test]
fn query_type_codes() {
    assert_eq!(QueryType::from_num(1), QueryType::A);
    assert_eq!(QueryType::from_num(2), QueryType::NS);
    assert_eq!(QueryType::from_num(5), QueryType::CNAME);
    assert_eq!(QueryType::from_num(15), QueryType::MX);
    assert_eq!(QueryType::from_num(28), QueryType::AAAA);
    assert_eq!(QueryType::from_num(0), QueryType::UNKNOWN(0));
    assert_eq!(QueryType::from_num(99), QueryType::UNKNOWN(99));
    assert_eq!(QueryType::A.to_num(), 1);
    assert_eq!(QueryType::NS.to_num(), 2);
    assert_eq!(QueryType::CNAME.to_num(), 5);
    assert_eq!(QueryType::MX.to_num(), 15);
    assert_eq!(QueryType::AAAA.to_num(), 28);
    assert_eq!(QueryType::UNKNOWN(4711).to_num(), 4711);
}

#[test]
fn query_type_code_survives_for_every_code() {
    for num in 0..=u16::MAX {
        assert_eq!(QueryType::from_num(num).to_num(), num);
    }
}

#[test]
fn result_codes() {
    assert_eq!(ResultCode::from_num(0), ResultCode::NOERROR);
    assert_eq!(ResultCode::from_num(1), ResultCode::FORMERR);
    assert_eq!(ResultCode::from_num(2), ResultCode::SERVFAIL);
    assert_eq!(ResultCode::from_num(3), ResultCode::NXDOMAIN);
    assert_eq!(ResultCode::from_num(4), ResultCode::NOTIMP);
    assert_eq!(ResultCode::from_num(5), ResultCode::REFUSED);
    assert_eq!(ResultCode::from_num(9), ResultCode::UNKNOWN(9));
    for num in 0..=u8::MAX {
        assert_eq!(ResultCode::from_num(num).to_num(), num);
    }
}

#[test]
fn header_new_is_blank() {
    let h = DnsHeader::new();
    assert_eq!(h.id, 0);
    assert!(!h.response && !h.recursion_desired && !h.recursion_available);
    assert!(!h.truncated_message && !h.authoritative_answer && !h.z);
    assert_eq!(h.opcode, 0);
    assert_eq!(h.rescode, ResultCode::NOERROR);
    assert_eq!((h.questions, h.answers, h.authoritative_entries, h.resource_entries), (0, 0, 0, 0));
}

#[test]
fn header_bit_layout() {
    let mut h = DnsHeader::new();
    h.id = 0x1A2B;
    h.response = true;
    h.opcode = 2;
    h.authoritative_answer = true;
    h.recursion_desired = true;
    h.recursion_available = true;
    h.rescode = ResultCode::NXDOMAIN;
    h.questions = 1;
    h.answers = 2;
    h.authoritative_entries = 3;
    h.resource_entries = 0x0104;
    let mut b = BytePacketBuffer::new();
    assert_eq!(h.write(&mut b), Ok(()));
    assert_eq!(b.pos(), 12);
    assert_eq!(&b.buf[0..12], &[0x1A, 0x2B, 0x95, 0x83, 0, 1, 0, 2, 0, 3, 1, 4]);
    b.seek(0).unwrap();
    let mut back = DnsHeader::new();
    assert_eq!(back.read(&mut b), Ok(()));
    assert_eq!(back, h);
    assert_eq!(b.pos(), 12);
}

#[test]
fn header_single_flags() {
    let mut h = DnsHeader::new();
    h.truncated_message = true;
    h.z = true;
    let mut b = BytePacketBuffer::new();
    h.write(&mut b).unwrap();
    assert_eq!(&b.buf[2..4], &[0x02, 0x40]);
    let mut b = buffer_with(&[0, 0, 0x7A, 0x3F, 0, 0, 0, 0, 0, 0, 0, 0]);
    let mut back = DnsHeader::new();
    back.read(&mut b).unwrap();
    assert!(!back.response);
    assert_eq!(back.opcode, 15);
    assert!(!back.authoritative_answer);
    assert!(back.truncated_message);
    assert!(!back.recursion_desired);
    assert!(!back.recursion_available);
    assert!(!back.z);
    assert_eq!(back.rescode, ResultCode::UNKNOWN(15));
}

#[test]
fn header_keeps_four_bits_of_opcode_and_result_code() {
    let mut h = DnsHeader::new();
    h.opcode = 0x1F;
    h.rescode = ResultCode::UNKNOWN(0x23);
    let mut b = BytePacketBuffer::new();
    h.write(&mut b).unwrap();
    assert_eq!(&b.buf[2..4], &[0x78, 0x03]);
}

#[test]
fn header_needs_twelve_bytes() {
    let mut b = BytePacketBuffer::new();
    b.seek(501).unwrap();
    let mut h = DnsHeader::new();
    assert_eq!(h.read(&mut b), Err(DnsError::BufferBounds));
    assert_eq!(b.pos(), 512);
    b.seek(501).unwrap();
    assert_eq!(h.write(&mut b), Err(DnsError::BufferBounds));
    b.seek(500).unwrap();
    assert_eq!(h.write(&mut b), Ok(()));
    b.seek(500).unwrap();
    assert_eq!(h.read(&mut b), Ok(()));
}

#[test]
fn question_write_and_read() {
    let q = DnsQuestion::new("example.com".to_string(), QueryType::MX);
    let mut b = BytePacketBuffer::new();
    assert_eq!(q.write(&mut b), Ok(()));
    assert_eq!(b.pos(), 17);
    assert_eq!(&b.buf[0..17], b"\x07example\x03com\x00\x00\x0f\x00\x01");
    b.seek(0).unwrap();
    let mut back = DnsQuestion::new(String::new(), QueryType::UNKNOWN(0));
    assert_eq!(back.read(&mut b), Ok(()));
    assert_eq!(back, q);
    assert_eq!(b.pos(), 17);
}

#[test]
fn question_read_ignores_class_and_keeps_unknown_type() {
    let mut b = buffer_with(b"\x01A\x00\x01\x00\x00\xff");
    let mut q = DnsQuestion::new(String::new(), QueryType::A);
    assert_eq!(q.read(&mut b), Ok(()));
    assert_eq!(q.name, "a");
    assert_eq!(q.qtype, QueryType::UNKNOWN(256));
    assert_eq!(b.pos(), 7);
}

#[test]
fn question_errors() {
    let q = DnsQuestion::new("x".repeat(64), QueryType::A);
    let mut b = BytePacketBuffer::new();
    assert_eq!(q.write(&mut b), Err(DnsError::LabelTooLong));
    let q = DnsQuestion::new("ab".to_string(), QueryType::A);
    b.seek(505).unwrap();
    assert_eq!(q.write(&mut b), Err(DnsError::BufferBounds));
    b.seek(504).unwrap();
    assert_eq!(q.write(&mut b), Ok(()));
    b.seek(505).unwrap();
    let mut back = DnsQuestion::new(String::new(), QueryType::A);
    assert_eq!(back.read(&mut b), Err(DnsError::BufferBounds));
    let mut b = buffer_with(&[0xC0, 0x00]);
    assert_eq!(back.read(&mut b), Err(DnsError::MalformedName));
}

#[test]
fn a_record_write_and_read() {
    let r = a_record("example.com", [93, 184, 216, 34], 3600);
    let mut b = BytePacketBuffer::new();
    assert_eq!(r.write(&mut b), Ok(27));
    assert_eq!(b.pos(), 27);
    assert_eq!(
        &b.buf[0..27],
        b"\x07example\x03com\x00\x00\x01\x00\x01\x00\x00\x0e\x10\x00\x04\x5d\xb8\xd8\x22"
    );
    b.seek(0).unwrap();
    assert_eq!(DnsRecord::read(&mut b), Ok(r));
    assert_eq!(b.pos(), 27);
}

#[test]
fn ns_record_length_is_patched() {
    let r = ns_record("com", "a.gtld-servers.net", 172800);
    let mut b = BytePacketBuffer::new();
    assert_eq!(r.write(&mut b), Ok(35));
    assert_eq!(&b.buf[0..5], b"\x03com\x00");
    assert_eq!(&b.buf[5..15], &[0, 2, 0, 1, 0x00, 0x02, 0xA3, 0x00, 0, 20]);
    assert_eq!(&b.buf[15..35], b"\x01a\x0cgtld-servers\x03net\x00");
    b.seek(0).unwrap();
    assert_eq!(DnsRecord::read(&mut b), Ok(r));
    assert_eq!(b.pos(), 35);
}

#[test]
fn cname_and_mx_records_round_trip() {
    let c = DnsRecord::CNAME { domain: "www.a.org".to_string(), host: "a.org".to_string(), ttl: 7 };
    let m = DnsRecord::MX {
        domain: "a.org".to_string(),
        priority: 0x0A0B,
        host: "mail.a.org".to_string(),
        ttl: 0xFFFFFFFF,
    };
    let mut b = BytePacketBuffer::new();
    assert_eq!(c.write(&mut b), Ok(11 + 10 + 7));
    let first = b.pos();
    assert_eq!(m.write(&mut b), Ok(7 + 10 + 2 + 12));
    assert_eq!(&b.buf[first + 7..first + 7 + 12], &[0, 15, 0, 1, 255, 255, 255, 255, 0, 14, 0x0A, 0x0B]);
    b.seek(0).unwrap();
    assert_eq!(DnsRecord::read(&mut b), Ok(c));
    assert_eq!(DnsRecord::read(&mut b), Ok(m));
    assert_eq!(b.pos(), 28 + 31);
}

#[test]
fn record_read_follows_pointers_in_payload() {
    // CNAME for "a" whose target is a pointer back to the owner name.
    let mut b = buffer_with(b"\x01a\x00\x00\x05\x00\x01\x00\x00\x00\x01\x00\x02\xC0\x00\x07");
    assert_eq!(
        DnsRecord::read(&mut b),
        Ok(DnsRecord::CNAME { domain: "a".to_string(), host: "a".to_string(), ttl: 1 })
    );
    assert_eq!(b.pos(), 15);
}

#[test]
fn unknown_record_is_skipped_by_its_length() {
    let mut bytes = b"\x01a\x00\x00\x63\x00\x01\x00\x00\x00\x09\x00\x05".to_vec();
    bytes.extend_from_slice(&[0xC0, 0xC0, 0xFF, 0x00, 0x40]);
    bytes.extend_from_slice(b"\x01b\x00\x00\x01\x00\x01\x00\x00\x00\x02\x00\x04\x01\x02\x03\x04");
    let mut b = buffer_with(&bytes);
    assert_eq!(
        DnsRecord::read(&mut b),
        Ok(DnsRecord::UNKNOWN { domain: "a".to_string(), qtype: 99, data_len: 5, ttl: 9 })
    );
    assert_eq!(b.pos(), 13 + 5);
    assert_eq!(DnsRecord::read(&mut b), Ok(a_record("b", [1, 2, 3, 4], 2)));
    // Other payload bytes, same result.
    let mut other = bytes.clone();
    for i in 13..18 {
        other[i] = 0x11;
    }
    let mut b = buffer_with(&other);
    assert_eq!(
        DnsRecord::read(&mut b),
        Ok(DnsRecord::UNKNOWN { domain: "a".to_string(), qtype: 99, data_len: 5, ttl: 9 })
    );
    assert_eq!(b.pos(), 18);
    assert_eq!(DnsRecord::read(&mut b), Ok(a_record("b", [1, 2, 3, 4], 2)));
}

#[test]
fn ipv6_record_is_kept_as_unknown() {
    let mut bytes = b"\x01a\x00\x00\x1c\x00\x01\x00\x00\x00\x09\x00\x10".to_vec();
    bytes.extend_from_slice(&[0xAA; 16]);
    let mut b = buffer_with(&bytes);
    assert_eq!(
        DnsRecord::read(&mut b),
        Ok(DnsRecord::UNKNOWN { domain: "a".to_string(), qtype: 28, data_len: 16, ttl: 9 })
    );
    assert_eq!(b.pos(), 29);
}

#[test]
fn unknown_record_is_written_with_zero_payload() {
    let r = DnsRecord::UNKNOWN { domain: "a".to_string(), qtype: 99, data_len: 3, ttl: 9 };
    let mut b = buffer_with(&[0xEE; 32]);
    assert_eq!(r.write(&mut b), Ok(16));
    assert_eq!(&b.buf[0..17], b"\x01a\x00\x00\x63\x00\x01\x00\x00\x00\x09\x00\x03\x00\x00\x00\xEE");
    b.seek(0).unwrap();
    assert_eq!(DnsRecord::read(&mut b), Ok(r));
    assert_eq!(b.pos(), 16);
}

#[test]
fn unknown_record_past_the_end_fails() {
    let mut b = BytePacketBuffer::new();
    let at = 512 - 13 - 4;
    b.buf[at..at + 13].copy_from_slice(b"\x01a\x00\x00\x63\x00\x01\x00\x00\x00\x09\x00\x05");
    b.seek(at).unwrap();
    assert_eq!(DnsRecord::read(&mut b), Err(DnsError::BufferBounds));
    b.buf[at + 12] = 4;
    b.seek(at).unwrap();
    assert!(DnsRecord::read(&mut b).is_ok());
    assert_eq!(b.pos(), 512);
}

#[test]
fn record_errors() {
    let r = ns_record("com", &"h".repeat(64), 1);
    let mut b = BytePacketBuffer::new();
    assert_eq!(r.write(&mut b), Err(DnsError::LabelTooLong));
    let r = ns_record(&"d".repeat(64), "h", 1);
    assert_eq!(r.write(&mut b), Err(DnsError::LabelTooLong));
    let r = a_record("a", [1, 2, 3, 4], 1);
    b.seek(512 - 16).unwrap();
    assert_eq!(r.write(&mut b), Err(DnsError::BufferBounds));
    b.seek(512 - 17).unwrap();
    assert_eq!(r.write(&mut b), Ok(17));
    b.seek(512 - 16).unwrap();
    assert_eq!(DnsRecord::read(&mut b), Err(DnsError::BufferBounds));
    // Out of room comes before the long label behind it.
    let r = ns_record("com", &"h".repeat(64), 1);
    b.seek(512 - 10).unwrap();
    assert_eq!(r.write(&mut b), Err(DnsError::BufferBounds));
}

#[test]
fn record_getters() {
    let r = DnsRecord::MX { domain: "a".to_string(), priority: 1, host: "m".to_string(), ttl: 77 };
    assert_eq!(r.domain(), "a");
    assert_eq!(r.ttl(), 77);
    assert_eq!(r.type_code(), 15);
    assert_eq!(a_record("x", [0; 4], 1).type_code(), 1);
    assert_eq!(ns_record("x", "y", 1).type_code(), 2);
    let c = DnsRecord::CNAME { domain: "x".to_string(), host: "y".to_string(), ttl: 1 };
    assert_eq!(c.type_code(), 5);
    let u = DnsRecord::UNKNOWN { domain: "x".to_string(), qtype: 300, data_len: 0, ttl: 1 };
    assert_eq!(u.type_code(), 300);
    assert_eq!(Ipv4Address::new(1, 2, 3, 4).octets(), [1, 2, 3, 4]);
}

#[test]
fn sections_are_read_and_written_in_order() {
    let records = vec![a_record("a", [1, 1, 1, 1], 1), ns_record("b", "c", 2)];
    let questions = vec![
        DnsQuestion::new("q.a".to_string(), QueryType::A),
        DnsQuestion::new("q.b".to_string(), QueryType::NS),
    ];
    let mut b = BytePacketBuffer::new();
    assert_eq!(write_questions(&questions, &mut b), Ok(()));
    let mid = b.pos();
    assert_eq!(mid, 18);
    assert_eq!(write_records(&records, &mut b), Ok(()));
    let end = b.pos();
    b.seek(0).unwrap();
    assert_eq!(read_questions(&mut b, 2), Ok(questions));
    assert_eq!(b.pos(), mid);
    assert_eq!(read_records(&mut b, 2), Ok(records));
    assert_eq!(b.pos(), end);
    assert_eq!(read_records(&mut b, 0), Ok(vec![]));
    assert_eq!(b.pos(), end);
}

#[test]
fn query_for_example_com_round_trips() {
    let mut query = build_query("example.com", QueryType::A, 0x1A2B, true);
    let bytes = query.encode().unwrap();
    assert_eq!(
        bytes,
        b"\x1a\x2b\x01\x00\x00\x01\x00\x00\x00\x00\x00\x00\x07example\x03com\x00\x00\x01\x00\x01"
    );
    let back = DnsPacket::decode(&bytes).unwrap();
    assert_eq!(back.header.id, 0x1A2B);
    assert!(back.header.recursion_desired);
    assert!(!back.header.response);
    assert_eq!(back.header.questions, 1);
    assert_eq!(back.questions.len(), 1);
    assert_eq!(back.questions[0].name, "example.com");
    assert_eq!(back.questions[0].qtype, QueryType::A);
    assert!(back.answers.is_empty() && back.authorities.is_empty() && back.resources.is_empty());
}

#[test]
fn build_query_without_recursion() {
    let q = build_query("a.b", QueryType::NS, 7, false);
    assert_eq!(q.header.id, 7);
    assert!(!q.header.recursion_desired);
    assert_eq!(q.header.questions, 1);
    assert_eq!(q.questions, vec![DnsQuestion::new("a.b".to_string(), QueryType::NS)]);
}

fn sample_packet() -> DnsPacket {
    let mut p = DnsPacket::new();
    p.header.id = 0xBEEF;
    p.header.response = true;
    p.header.recursion_available = true;
    p.header.rescode = ResultCode::REFUSED;
    p.header.questions = 99;
    p.header.answers = 99;
    p.questions.push(DnsQuestion::new("example.com".to_string(), QueryType::A));
    p.answers.push(a_record("example.com", [93, 184, 216, 34], 300));
    p.answers.push(DnsRecord::CNAME {
        domain: "www.example.com".to_string(),
        host: "example.com".to_string(),
        ttl: 5,
    });
    p.authorities.push(ns_record("com", "a.gtld-servers.net", 172800));
    p.authorities.push(DnsRecord::UNKNOWN { domain: "com".to_string(), qtype: 6, data_len: 9, ttl: 1 });
    p.resources.push(a_record("a.gtld-servers.net", [192, 5, 6, 30], 172800));
    p.resources.push(DnsRecord::MX {
        domain: "example.com".to_string(),
        priority: 10,
        host: "mx.example.com".to_string(),
        ttl: 60,
    });
    p
}

#[test]
fn message_round_trips_with_counts_recomputed() {
    let mut p = sample_packet();
    let bytes = p.encode().unwrap();
    assert_eq!(p.header.questions, 1);
    assert_eq!(p.header.answers, 2);
    assert_eq!(p.header.authoritative_entries, 2);
    assert_eq!(p.header.resource_entries, 2);
    assert_eq!(&bytes[4..12], &[0, 1, 0, 2, 0, 2, 0, 2]);
    let back = DnsPacket::decode(&bytes).unwrap();
    assert_eq!(back.header, p.header);
    assert_eq!(back.questions, p.questions);
    assert_eq!(back.answers, p.answers);
    assert_eq!(back.authorities, p.authorities);
    assert_eq!(back.resources, p.resources);
    assert_eq!(back.questions.len(), back.header.questions as usize);
    assert_eq!(back.answers.len(), back.header.answers as usize);
    assert_eq!(back.authorities.len(), back.header.authoritative_entries as usize);
    assert_eq!(back.resources.len(), back.header.resource_entries as usize);
}

#[test]
fn message_write_and_from_buffer_at_an_offset() {
    let mut p = sample_packet();
    let mut b = BytePacketBuffer::new();
    b.seek(100).unwrap();
    assert_eq!(p.write(&mut b), Ok(()));
    let end = b.pos();
    b.seek(100).unwrap();
    let back = DnsPacket::from_buffer(&mut b).unwrap();
    assert_eq!(b.pos(), end);
    assert_eq!(back.answers, p.answers);
    assert!(b.buf[..100].iter().all(|x| *x == 0));
}

#[test]
fn message_with_long_label_is_not_encoded() {
    let mut p = sample_packet();
    p.resources.push(ns_record("x", &format!("a.{}", "y".repeat(64)), 1));
    assert_eq!(p.encode(), Err(DnsError::LabelTooLong));
    let mut q = build_query(&"z".repeat(64), QueryType::A, 1, true);
    assert_eq!(q.encode(), Err(DnsError::LabelTooLong));
}

#[test]
fn message_too_large_is_not_encoded() {
    let mut p = DnsPacket::new();
    for _ in 0..30 {
        p.answers.push(a_record("example.com", [1, 2, 3, 4], 1));
    }
    assert_eq!(p.encode(), Err(DnsError::BufferBounds));
    p.answers.truncate(18);
    // 12 + 18 * 27 = 498
    assert_eq!(p.encode().unwrap().len(), 498);
}

#[test]
fn decode_fails_as_its_first_part_fails() {
    // Header announces one question, the name is a pointer loop.
    let mut bytes = vec![0, 1, 0, 0, 0, 1, 0, 0, 0, 0, 0, 0];
    bytes.extend_from_slice(&[0xC0, 12]);
    assert_eq!(DnsPacket::decode(&bytes).err(), Some(DnsError::MalformedName));
    // Header announces more records than the buffer can hold.
    let mut bytes = vec![0, 1, 0x80, 0, 0, 0, 0xFF, 0xFF, 0, 0, 0, 0];
    bytes.extend_from_slice(&[0; 40]);
    assert_eq!(DnsPacket::decode(&bytes).err(), Some(DnsError::BufferBounds));
}

#[test]
fn decode_reads_the_first_512_bytes() {
    let mut p = sample_packet();
    let mut bytes = p.encode().unwrap();
    bytes.resize(600, 0xFF);
    let back = DnsPacket::decode(&bytes).unwrap();
    assert_eq!(back.resources, p.resources);
    assert_eq!(BytePacketBuffer::from_bytes(&bytes).buf[511], 0xFF);
    let short = BytePacketBuffer::from_bytes(&[1, 2, 3]);
    assert_eq!(&short.buf[0..4], &[1, 2, 3, 0]);
    assert_eq!(short.pos(), 0);
    assert!(DnsPacket::decode(&[]).is_ok());
}

#[test]
fn empty_name_does_not_round_trip() {
    let mut q = build_query("", QueryType::A, 1, false);
    let bytes = q.encode().unwrap();
    assert_eq!(bytes.len(), 12 + 2 + 4);
    let back = DnsPacket::decode(&bytes).unwrap();
    assert_eq!(back.questions[0].name, "");
    assert_ne!(back.questions[0].qtype, QueryType::A);
}

#[test]
fn upper_case_name_reads_back_lowered() {
    let mut q = build_query("Example.COM", QueryType::A, 1, false);
    let bytes = q.encode().unwrap();
    let back = DnsPacket::decode(&bytes).unwrap();
    assert_eq!(back.questions[0].name, "example.com");
}

#[test]
fn non_utf8_label_reads_with_replacement() {
    let mut b = buffer_with(&[2, b'A', 0xFF, 1, 0xC9, 0]);
    let mut out = String::new();
    assert_eq!(b.read_qname(&mut out), Ok(()));
    assert_eq!(out, "a\u{FFFD}.\u{FFFD}");
}

#[test]
fn packet_new_is_empty() {
    let p = DnsPacket::new();
    assert_eq!(p.header, DnsHeader::new());
    assert!(p.questions.is_empty() && p.answers.is_empty());
    assert!(p.authorities.is_empty() && p.resources.is_empty());
}
