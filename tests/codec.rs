use diaw::encoding::{decode_compressed_name, decode_name, decode_name_simple, encode_domain_name};
use diaw::header::DNSHeader;
use diaw::packet::DNSPacket;
use diaw::query::{build_query, QueryBuilder};
use diaw::question::DNSQuestion;
use diaw::record::{DNSRecord, DNSRecordResult, IpAddress};
use diaw::wire::WireError;
use diaw::{CLASS_IN, TYPE_A, TYPE_NS};
use rand::rngs::mock::StepRng;
use rand::Rng;

const GOLDEN_QUERY: [u8; 33] = [
    0x82, 0x98, 0x01, 0x00, 0x00, 0x01, 0x00, 0x00, 0x00, 0x00, 0x00, 0x00, 0x03, 0x77, 0x77,
    0x77, 0x07, 0x65, 0x78, 0x61, 0x6d, 0x70, 0x6c, 0x65, 0x03, 0x63, 0x6f, 0x6d, 0x00, 0x00,
    0x01, 0x00, 0x01,
];

#[test]
fn test_decode_domain() {
    let (decoded, _) =
        decode_name_simple(b"\x03www\x07example\x03com\x00\x00\x01", 0).unwrap();
    assert_eq!("www.example.com", decoded)
}

#[test]
fn encoding_test_encode_dns_name() {
    let xs = encode_domain_name("google.com").unwrap();
    assert_eq!(xs, b"\x06google\x03com\x00");
}

#[test]
fn main_test_encode_dns_name() {
    let xs = encode_domain_name("google.com").unwrap();
    assert_eq!(xs, b"\x06google\x03com\x00");
}

#[test]
fn main_test_build_query() {
    let mut mock_rng = StepRng::new(0x8298, 0);
    let res = build_query(mock_rng.gen::<u16>(), "www.example.com", TYPE_A).unwrap();
    assert_eq!(res, GOLDEN_QUERY)
}

#[test]
fn query_test_build_query() {
    let mut mock_rng = StepRng::new(0x8298, 0);
    let res = build_query(mock_rng.gen::<u16>(), "www.example.com", TYPE_A).unwrap();
    assert_eq!(res, GOLDEN_QUERY)
}

#[test]
fn query_builder_matches_build_query() {
    let mut b = QueryBuilder::new(0x1234, "www.example.com".to_string(), TYPE_A);
    b.with_id(0x8298);
    assert_eq!(b.build_query().unwrap(), GOLDEN_QUERY);
}

#[test]
fn simple_decoder_stops_after_terminator() {
    let (name, end) = decode_name_simple(b"\x03www\x07example\x03com\x00\x00\x01", 0).unwrap();
    assert_eq!(name, "www.example.com");
    assert_eq!(end, 17);
}

#[test]
fn name_round_trips() {
    for name in ["google.com", "www.example.com", "a", "x.y.z.w", "\u{e9}t\u{e9}.fr"] {
        let wire = encode_domain_name(name).unwrap();
        let (back, end) = decode_name(&wire, 0).unwrap();
        assert_eq!(back, name);
        assert_eq!(end, wire.len());
        let (back, end) = decode_name_simple(&wire, 0).unwrap();
        assert_eq!(back, name);
        assert_eq!(end, wire.len());
    }
}

#[test]
fn label_of_63_bytes_is_encoded() {
    let label = "a".repeat(63);
    let wire = encode_domain_name(&format!("{}.com", label)).unwrap();
    assert_eq!(wire[0], 63);
    assert_eq!(wire.len(), 1 + 63 + 1 + 3 + 1);
}

#[test]
fn label_of_64_bytes_is_refused() {
    let label = "a".repeat(64);
    assert_eq!(
        encode_domain_name(&format!("www.{}.com", label)),
        Err(WireError::LabelTooLong)
    );
    assert_eq!(encode_domain_name(&label), Err(WireError::LabelTooLong));
    assert_eq!(build_query(1, &label, TYPE_A), Err(WireError::LabelTooLong));
}

#[test]
fn empty_name_encodes_one_empty_label() {
    assert_eq!(encode_domain_name("").unwrap(), vec![0, 0]);
}

fn compressed_buffer() -> Vec<u8> {
    // "www.example.com" at 0, then "mail" followed by a pointer to "example.com" at 4,
    // then a bare pointer to 0.
    let mut buf = b"\x03www\x07example\x03com\x00".to_vec();
    buf.extend_from_slice(b"\x04mail\xc0\x04");
    buf.extend_from_slice(b"\xc0\x00");
    buf
}

#[test]
fn pointer_decodes_as_its_target() {
    let buf = compressed_buffer();
    let (a, _) = decode_name(&buf, 0).unwrap();
    let (b, end) = decode_name(&buf, 24).unwrap();
    assert_eq!(a, "www.example.com");
    assert_eq!(b, a);
    assert_eq!(end, 26);
}

#[test]
fn labels_then_pointer() {
    let buf = compressed_buffer();
    let (name, end) = decode_name(&buf, 17).unwrap();
    assert_eq!(name, "mail.example.com");
    assert_eq!(end, 24);
}

#[test]
fn compressed_name_follows_pointer() {
    let buf = compressed_buffer();
    let (name, end) = decode_compressed_name(0xc0, &buf, 25).unwrap();
    assert_eq!(name, "www.example.com");
    assert_eq!(end, 26);
    assert_eq!(decode_compressed_name(0xc0, &buf, 26), Err(WireError::UnexpectedEnd));
}

#[test]
fn pointer_to_itself_is_refused() {
    assert_eq!(decode_name(b"\xc0\x00", 0), Err(WireError::BadPointer));
    assert_eq!(decode_name(b"\x01a\xc0\x00", 0), Err(WireError::BadPointer));
    assert_eq!(decode_name(b"\x00\xc0\x05\x00\x00\x00", 1), Err(WireError::BadPointer));
}

#[test]
fn truncated_names_are_refused() {
    assert_eq!(decode_name(b"\x03ww", 0), Err(WireError::UnexpectedEnd));
    assert_eq!(decode_name(b"\x03www", 0), Err(WireError::UnexpectedEnd));
    assert_eq!(decode_name(b"\xc0", 0), Err(WireError::UnexpectedEnd));
    assert_eq!(decode_name(b"", 0), Err(WireError::UnexpectedEnd));
    assert_eq!(decode_name_simple(b"\x03www", 0), Err(WireError::UnexpectedEnd));
}

#[test]
fn invalid_utf8_is_refused() {
    assert_eq!(decode_name(b"\x02\xff\xfe\x00", 0), Err(WireError::InvalidUtf8));
    assert_eq!(decode_name_simple(b"\x01\x80\x00", 0), Err(WireError::InvalidUtf8));
}

#[test]
fn header_round_trips() {
    let h = DNSHeader {
        id: 0xbeef,
        flags: 0x8180,
        num_questions: 1,
        num_answers: 2,
        num_authorities: 3,
        num_additionals: 0xffff,
    };
    let bytes = h.to_be_bytes();
    assert_eq!(
        bytes,
        vec![0xbe, 0xef, 0x81, 0x80, 0, 1, 0, 2, 0, 3, 0xff, 0xff]
    );
    let (back, end) = DNSHeader::parse_header(&bytes, 0).unwrap();
    assert_eq!(back, h);
    assert_eq!(end, 12);
    assert_eq!(DNSHeader::parse_header(&bytes[..11], 0), Err(WireError::UnexpectedEnd));
}

#[test]
fn new_header_has_no_counts() {
    let h = DNSHeader::new(7, 0x0100);
    assert_eq!(h.to_be_bytes(), vec![0, 7, 1, 0, 0, 0, 0, 0, 0, 0, 0, 0]);
}

#[test]
fn question_round_trips() {
    let q = DNSQuestion {
        name: encode_domain_name("www.example.com").unwrap(),
        qtype: TYPE_NS,
        class: CLASS_IN,
    };
    let bytes = q.to_be_bytes();
    let (back, end) = DNSQuestion::parse_question(&bytes, 0).unwrap();
    assert_eq!(back.name, q.name);
    assert_eq!(back.qtype, TYPE_NS);
    assert_eq!(back.class, CLASS_IN);
    assert_eq!(end, bytes.len());
    assert_eq!(
        DNSQuestion::parse_question(&bytes[..bytes.len() - 1], 0).map(|(q, _)| q.qtype),
        Err(WireError::UnexpectedEnd)
    );
}

#[test]
fn address_record_written_and_read() {
    let r = DNSRecord::new(
        "example.com".to_string(),
        TYPE_A,
        CLASS_IN,
        3600,
        DNSRecordResult::Address(IpAddress::V4([93, 184, 216, 34])),
    );
    let bytes = r.to_record().unwrap();
    let mut expected = b"\x07example\x03com\x00".to_vec();
    expected.extend_from_slice(&[0, 1, 0, 1, 0, 0, 0x0e, 0x10, 0, 4, 93, 184, 216, 34]);
    assert_eq!(bytes, expected);
    let (back, end) = DNSRecord::parse_record(&bytes, 0).unwrap();
    assert_eq!(back.qtype(), TYPE_A);
    assert_eq!(back.name, "example.com");
    assert_eq!(back.ttl, 3600);
    assert_eq!(back.res(), &DNSRecordResult::Address(IpAddress::V4([93, 184, 216, 34])));
    assert_eq!(end, bytes.len());
}

#[test]
fn nameserver_record_written_and_read() {
    let r = DNSRecord::new(
        "com".to_string(),
        TYPE_NS,
        CLASS_IN,
        172800,
        DNSRecordResult::NameServer("a.gtld-servers.net".to_string()),
    );
    let bytes = r.to_record().unwrap();
    let (back, end) = DNSRecord::parse_record(&bytes, 0).unwrap();
    assert_eq!(back.res(), &DNSRecordResult::NameServer("a.gtld-servers.net".to_string()));
    assert_eq!(back.class, CLASS_IN);
    assert_eq!(end, bytes.len());
    // rdlength covers the encoded name
    assert_eq!(bytes[13], 0);
    assert_eq!(bytes[14], 20);
}

#[test]
fn unknown_record_written_and_read() {
    let r = DNSRecord::new(
        "x".to_string(),
        16,
        CLASS_IN,
        5,
        DNSRecordResult::Unknown(b"\x05hello".to_vec()),
    );
    let bytes = r.to_record().unwrap();
    assert_eq!(
        bytes,
        vec![1, b'x', 0, 0, 16, 0, 1, 0, 0, 0, 5, 0, 6, 5, b'h', b'e', b'l', b'l', b'o']
    );
    let (back, _) = DNSRecord::parse_record(&bytes, 0).unwrap();
    assert_eq!(back.res(), &DNSRecordResult::Unknown(b"\x05hello".to_vec()));
}

#[test]
fn v6_address_record_is_written() {
    let r = DNSRecord::new(
        "x".to_string(),
        28,
        CLASS_IN,
        1,
        DNSRecordResult::Address(IpAddress::V6([1; 16])),
    );
    let bytes = r.to_record().unwrap();
    assert_eq!(&bytes[11..13], &[0, 16]);
    assert_eq!(&bytes[13..], &[1u8; 16]);
}

#[test]
fn oversized_payload_is_refused() {
    let r = DNSRecord::new(
        "x".to_string(),
        16,
        CLASS_IN,
        1,
        DNSRecordResult::Unknown(vec![0; 70000]),
    );
    assert_eq!(r.to_record(), Err(WireError::RdataTooLong));
    let r = DNSRecord::new(
        "x".to_string(),
        TYPE_NS,
        CLASS_IN,
        1,
        DNSRecordResult::NameServer("b".repeat(70)),
    );
    assert_eq!(r.to_record(), Err(WireError::LabelTooLong));
}

#[test]
fn truncated_record_is_refused() {
    let r = DNSRecord::new(
        "example.com".to_string(),
        TYPE_A,
        CLASS_IN,
        1,
        DNSRecordResult::Address(IpAddress::V4([1, 2, 3, 4])),
    );
    let bytes = r.to_record().unwrap();
    for cut in [5, 14, 20, bytes.len() - 1] {
        assert_eq!(
            DNSRecord::parse_record(&bytes[..cut], 0).map(|(r, _)| r.qtype()),
            Err(WireError::UnexpectedEnd)
        );
    }
}

fn response_bytes() -> Vec<u8> {
    let mut h = DNSHeader::new(0x8298, 0x8100);
    h.num_questions = 1;
    h.num_answers = 2;
    h.num_authorities = 1;
    h.num_additionals = 1;
    let mut out = h.to_be_bytes();
    out.extend_from_slice(b"\x03www\x07example\x03com\x00\x00\x01\x00\x01");
    // answer: a CNAME-like record of another type, then an A record, both named by pointer
    out.extend_from_slice(&[0xc0, 12, 0, 5, 0, 1, 0, 0, 0, 60, 0, 2, 0xc0, 16]);
    out.extend_from_slice(&[0xc0, 12, 0, 1, 0, 1, 0, 0, 0, 60, 0, 4, 10, 0, 0, 1]);
    // authority: NS record whose name points into the question
    out.extend_from_slice(&[0xc0, 16, 0, 2, 0, 1, 0, 0, 0, 60, 0, 6, 3, b'n', b's', b'1', 0xc0, 16]);
    // additional: glue address
    out.extend_from_slice(&[3, b'n', b's', b'1', 0xc0, 16, 0, 1, 0, 1, 0, 0, 0, 60, 0, 4, 10, 0, 0, 53]);
    out
}

#[test]
fn packet_sections_and_lookups() {
    let bytes = response_bytes();
    let p = DNSPacket::parse_dns_packet(&bytes).unwrap();
    assert_eq!(p.header.id, 0x8298);
    assert_eq!(p.questions.len(), 1);
    assert_eq!(p.answers().len(), 2);
    assert_eq!(p.authorities().len(), 1);
    assert_eq!(p.additionals().len(), 1);
    assert_eq!(p.answers()[0].res(), &DNSRecordResult::Unknown(vec![0xc0, 16]));
    assert_eq!(p.answers()[1].name, "www.example.com");
    assert_eq!(p.get_answer(), Some(&DNSRecordResult::Address(IpAddress::V4([10, 0, 0, 1]))));
    assert_eq!(
        p.get_nameserver(),
        Some(&DNSRecordResult::NameServer("ns1.example.com".to_string()))
    );
    assert_eq!(
        p.get_nameserver_ip(),
        Some(&DNSRecordResult::Address(IpAddress::V4([10, 0, 0, 53])))
    );
    assert_eq!(p.additionals()[0].name, "ns1.example.com");
}

#[test]
fn trailing_bytes_are_ignored() {
    let mut bytes = response_bytes();
    bytes.extend_from_slice(&[0; 100]);
    let p = DNSPacket::parse_dns_packet(&bytes).unwrap();
    assert_eq!(p.additionals().len(), 1);
}

#[test]
fn truncated_packet_is_refused() {
    let bytes = response_bytes();
    let r = DNSPacket::parse_dns_packet(&bytes[..bytes.len() - 2]).map(|p| p.header.id);
    assert_eq!(r, Err(WireError::UnexpectedEnd));
    let r = DNSPacket::parse_dns_packet(&bytes[..5]).map(|p| p.header.id);
    assert_eq!(r, Err(WireError::UnexpectedEnd));
}

#[test]
fn empty_sections_give_no_lookups() {
    let h = DNSHeader::new(1, 0x8000);
    let p = DNSPacket::parse_dns_packet(&h.to_be_bytes()).unwrap();
    assert_eq!(p.get_answer(), None);
    assert_eq!(p.get_nameserver(), None);
    assert_eq!(p.get_nameserver_ip(), None);
}
