use dns_resolver::buffer::{DnsBufferError, DnsReadBuffer, DnsWriteBuffer};
use dns_resolver::bytebuf::{Buffer, BufferError};
use dns_resolver::name::DnsName;
use dns_resolver::types::{AnswerRecord, Dns, DnsError, Flags, QueryRecord, RData, Type};

fn name_of(parts: &[&str]) -> DnsName {
    let mut n = DnsName::root();
    for p in parts {
        n.push_label(p.as_bytes().to_vec());
    }
    n
}

fn question_wire() -> Vec<u8> {
    // id=1, flags=0x0100 (rd), one question for www.example.com A IN.
    let mut b: Vec<u8> = vec![0x00, 0x01, 0x01, 0x00, 0x00, 0x01, 0x00, 0x00, 0x00, 0x00, 0x00,
        0x00];
    b.extend_from_slice(&[3]);
    b.extend_from_slice(b"www");
    b.extend_from_slice(&[7]);
    b.extend_from_slice(b"example");
    b.extend_from_slice(&[3]);
    b.extend_from_slice(b"com");
    b.extend_from_slice(&[0, 0x00, 0x01, 0x00, 0x01]);
    b
}

#[test]
fn uncompressed_question_round_trip() {
    let bytes = question_wire();
    let mut buf = DnsReadBuffer::new(&bytes);
    let msg = Dns::decode(&mut buf).unwrap();
    assert_eq!(msg.header.id, 1);
    assert!(msg.header.flags.rd);
    assert!(!msg.header.flags.qr);
    assert_eq!(msg.header.qd_count, 1);
    assert_eq!(msg.questions.len(), 1);
    assert_eq!(msg.questions[0].qname, name_of(&["www", "example", "com"]));
    assert_eq!(msg.questions[0].qtype, 1);
    assert_eq!(msg.questions[0].qclass, 1);
    assert!(msg.answers.is_empty());
    let encoded = msg.encode().unwrap().into_inner();
    assert_eq!(encoded, bytes);
}

#[test]
fn compressed_answer_name() {
    let mut bytes = question_wire();
    // Claim one answer in the header.
    bytes[7] = 0x01;
    // Answer: pointer to offset 12, type A, class IN, ttl 60, 4-byte A.
    bytes.extend_from_slice(&[0xC0, 0x0C, 0x00, 0x01, 0x00, 0x01, 0x00, 0x00, 0x00, 0x3C, 0x00,
        0x04, 0x5D, 0xB8, 0xD8, 0x22]);
    let mut buf = DnsReadBuffer::new(&bytes);
    let msg = Dns::decode(&mut buf).unwrap();
    assert_eq!(msg.answers.len(), 1);
    let a = &msg.answers[0];
    assert_eq!(a.aname, name_of(&["www", "example", "com"]));
    assert_eq!(a.atype, 1);
    assert_eq!(a.ttl, 60);
    assert_eq!(a.rdata, RData::A(0x5DB8D822));
}

#[test]
fn pointer_loop_is_rejected() {
    let mut data = [0u8; 16];
    data[0] = 0xC0;
    data[1] = 0x0C;
    data[12] = 0xC0;
    data[13] = 0x0C;
    let mut buf = DnsReadBuffer::new(&data);
    assert_eq!(buf.read_str(), Err(DnsBufferError::InvalidName));
}

#[test]
fn reserved_length_tags_are_rejected() {
    for tag in [0x40u8, 0x80u8] {
        let data = [tag, 0x00, 0x00];
        let mut buf = DnsReadBuffer::new(&data);
        assert_eq!(buf.read_str(), Err(DnsBufferError::InvalidName));
    }
}

#[test]
fn pointer_past_end_is_rejected() {
    let data = [0xC0, 0xFF];
    let mut buf = DnsReadBuffer::new(&data);
    assert_eq!(buf.read_str(), Err(DnsBufferError::InvalidName));
}

#[test]
fn truncated_name_is_end_of_buffer() {
    let data = [3, b'w', b'w'];
    let mut buf = DnsReadBuffer::new(&data);
    assert_eq!(buf.read_str(), Err(DnsBufferError::EndOfBuffer));
}

#[test]
fn invalid_utf8_label_is_rejected() {
    let data = [1, 0xFF, 0];
    let mut buf = DnsReadBuffer::new(&data);
    assert_eq!(buf.read_str(), Err(DnsBufferError::InvalidName));
}

#[test]
fn root_name_decodes_to_no_labels() {
    let data = [0u8];
    let mut buf = DnsReadBuffer::new(&data);
    let name = buf.read_str().unwrap();
    assert_eq!(name, DnsName::root());
    assert_eq!(buf.get_index(), 1);
}

#[test]
fn write_name_rejects_long_label() {
    let mut w = DnsWriteBuffer::new();
    let long = name_of(&[&"a".repeat(64)]);
    assert_eq!(w.write_str(&long), Err(DnsBufferError::LabelTooLong));
    assert!(w.into_inner().is_empty());
}

#[test]
fn write_name_wire_form() {
    let mut w = DnsWriteBuffer::new();
    w.write_str(&name_of(&["ab", "c"])).unwrap();
    assert_eq!(w.into_inner(), vec![2, b'a', b'b', 1, b'c', 0]);
}

#[test]
fn flags_pack_and_unpack() {
    let f = Flags {
        qr: true,
        opcode: 5,
        aa: false,
        tc: true,
        rd: true,
        ra: false,
        z: 3,
        rcode: 9,
    };
    let raw = Dns::encode_flags(&f);
    assert_eq!(raw, 0x8000 | (5 << 11) | 0x0200 | 0x0100 | (3 << 4) | 9);
    assert_eq!(Dns::decode_flags(raw), f);
    let g = Dns::decode_flags(0x8180);
    assert!(g.qr && g.rd && g.ra);
    assert_eq!(g.opcode, 0);
    assert_eq!(g.rcode, 0);
}

#[test]
fn short_a_record_is_invalid_rdata() {
    let mut bytes = question_wire();
    bytes[7] = 0x01;
    // Answer with a 3-byte payload for an A record.
    bytes.extend_from_slice(&[0xC0, 0x0C, 0x00, 0x01, 0x00, 0x01, 0x00, 0x00, 0x00, 0x3C, 0x00,
        0x03, 0x5D, 0xB8, 0xD8]);
    let mut buf = DnsReadBuffer::new(&bytes);
    assert_eq!(Dns::decode(&mut buf), Err(DnsError::InvalidRData));
}

#[test]
fn count_beyond_body_is_fatal() {
    let mut bytes = question_wire();
    bytes[5] = 0x02; // claim two questions; the body holds one
    let mut buf = DnsReadBuffer::new(&bytes);
    assert_eq!(Dns::decode(&mut buf), Err(DnsError::InvalidField));
}

#[test]
fn encode_rejects_oversized_label() {
    let q = QueryRecord::new(name_of(&[&"b".repeat(64)]), 1, 1);
    let msg = Dns::new(7, Dns::decode_flags(0), 1, 0, 0, 0, vec![q], vec![], vec![], vec![]);
    match msg.encode() {
        Err(DnsError::InvalidField) => {}
        Err(e) => panic!("wrong error: {:?}", e),
        Ok(_) => panic!("an oversized label must not encode"),
    }
}

#[test]
fn opt_record_name_is_root_on_the_wire() {
    let opt = dns_resolver::solver::opt_record();
    let msg = Dns::new(1, Dns::decode_flags(0), 0, 0, 0, 1, vec![], vec![], vec![], vec![opt]);
    let bytes = msg.encode().unwrap().into_inner();
    // Header, then: root name, type 41, class 4096, ttl 0, rdlength 0.
    assert_eq!(&bytes[12..], &[0, 0x00, 0x29, 0x10, 0x00, 0, 0, 0, 0, 0x00, 0x00]);
}

#[test]
fn ns_rdata_round_trips_through_records() {
    let ns = RData::NS(name_of(&["a", "root"]));
    let rec = AnswerRecord::new(name_of(&["com"]), ns.clone());
    let msg = Dns::new(9, Dns::decode_flags(0), 0, 0, 1, 0, vec![], vec![], vec![rec], vec![]);
    let bytes = msg.encode().unwrap().into_inner();
    let mut buf = DnsReadBuffer::new(&bytes);
    let back = Dns::decode(&mut buf).unwrap();
    assert_eq!(back.authorities.len(), 1);
    assert_eq!(back.authorities[0].rdata, ns);
    assert_eq!(back.authorities[0].atype, 2);
}

#[test]
fn type_codes_round_trip() {
    assert_eq!(Type::from_u16(1), Some(Type::A));
    assert_eq!(Type::from_u16(2), Some(Type::NS));
    assert_eq!(Type::from_u16(5), Some(Type::CNAME));
    assert_eq!(Type::from_u16(6), Some(Type::SOA));
    assert_eq!(Type::from_u16(12), Some(Type::PTR));
    assert_eq!(Type::from_u16(15), Some(Type::MX));
    assert_eq!(Type::from_u16(16), Some(Type::TXT));
    assert_eq!(Type::from_u16(28), Some(Type::AAAA));
    assert_eq!(Type::from_u16(3), None);
    for t in [Type::A, Type::NS, Type::CNAME, Type::SOA, Type::PTR, Type::MX, Type::TXT,
        Type::AAAA] {
        assert_eq!(Type::from_u16(t.code()), Some(t));
    }
}

#[test]
fn rdata_accessors() {
    assert_eq!(RData::A(7).as_a(), Some(7));
    assert_eq!(RData::Opaque(vec![1]).as_a(), None);
    let n = name_of(&["x"]);
    assert_eq!(RData::NS(n.clone()).as_ns(), Some(&n));
    assert_eq!(RData::CNAME(n.clone()).as_cname(), Some(&n));
    assert_eq!(RData::NS(n.clone()).as_cname(), None);
    let groups = vec![0u16, 0, 0, 0, 0, 0, 0, 1];
    assert_eq!(RData::AAAA(groups.clone()).as_aaaa(), Some(&groups));
}

#[test]
fn owned_buffer_reads_and_writes() {
    let mut b = Buffer::new(vec![]);
    b.write_u8(0xAB);
    b.write_u16(0x1234);
    b.write_u32(0xDEADBEEF);
    b.write_bytes(&[1, 2]);
    b.write_str(&name_of(&["io"])).unwrap();
    assert_eq!(b.get_data(), &vec![0xAB, 0x12, 0x34, 0xDE, 0xAD, 0xBE, 0xEF, 1, 2, 2, b'i',
        b'o', 0]);
    assert_eq!(b.read_u8().unwrap(), 0xAB);
    assert_eq!(b.read_u16().unwrap(), 0x1234);
    assert_eq!(b.read_u32().unwrap(), 0xDEADBEEF);
    assert_eq!(b.read_n_bytes(2).unwrap(), vec![1, 2]);
    assert_eq!(b.read_str().unwrap(), name_of(&["io"]));
    assert_eq!(b.read_u8(), Err(BufferError::EndOfBuffer));
    assert!(b.set_index(0).is_ok());
    assert_eq!(b.read_u8().unwrap(), 0xAB);
    assert_eq!(b.set_index(100), Err(BufferError::EndOfBuffer));
}

#[test]
fn reader_primitives_and_bounds() {
    let data = [0x01, 0x02, 0x03, 0x04, 0x05];
    let mut r = DnsReadBuffer::new(&data);
    assert_eq!(r.read_u8().unwrap(), 1);
    assert_eq!(r.read_u16().unwrap(), 0x0203);
    assert_eq!(r.get_index(), 3);
    assert_eq!(r.read_u32(), Err(DnsBufferError::EndOfBuffer));
    assert_eq!(r.read_n_bytes(2).unwrap(), &[0x04, 0x05]);
    assert!(r.set_index(5).is_ok());
    assert_eq!(r.set_index(6), Err(DnsBufferError::EndOfBuffer));
}

#[test]
fn case_insensitive_name_equality() {
    let a = name_of(&["WWW", "Example", "COM"]);
    let b = name_of(&["www", "example", "com"]);
    assert!(a.eq_ignore_case(&b));
    assert!(!a.eq_ignore_case(&name_of(&["www", "example", "org"])));
    assert!(!a.eq_ignore_case(&name_of(&["example", "com"])));
}
