//! The wire codec: a DNS message to and from its RFC 1035 byte form.
//!
//! Every encoder is specified against a pure byte-level description of the
//! wire form, every decoder against a pure parsing function, and the two
//! are tied together by the round-trip lemma at the end of the module.

use vstd::prelude::*;

use crate::buffer::{
    spec_read_bytes, spec_read_name, spec_read_u16, spec_read_u32, u16_bytes, u16_hi, u16_lo,
    u16_of, u32_bytes, u32_of, DnsBufferError, DnsReadBuffer, DnsWriteBuffer, NAME_HOP_LIMIT,
};
use crate::name::{
    spec_labels_bytes, spec_name_bytes, total_label_len, valid_label, valid_name, DnsName,
};
use crate::types::{
    flags_in_range, AnswerRecord, AnswerRecordV, Dns, DnsError, DnsV, Flags, Header, QueryRecord,
    QueryRecordV, RData, RDataV,
};

verus! {

/// A bool as the 16-bit value 0 or 1.
pub open spec fn bit16(b: bool) -> u16 {
    if b {
        1
    } else {
        0
    }
}

/// Flags packed into 16 bits, most significant first: qr, opcode, aa, tc,
/// rd, ra, z, rcode.
pub open spec fn spec_encode_flags(f: Flags) -> u16 {
    (bit16(f.qr) << 15) | ((f.opcode as u16) << 11) | (bit16(f.aa) << 10) | (bit16(f.tc) << 9) | (
    bit16(f.rd) << 8) | (bit16(f.ra) << 7) | ((f.z as u16) << 4) | (f.rcode as u16)
}

/// Flag fields unpacked from 16 bits.
pub open spec fn spec_decode_flags(raw: u16) -> Flags {
    Flags {
        qr: (raw & 0x8000) != 0,
        opcode: ((raw & 0x7800) >> 11) as u8,
        aa: (raw & 0x0400) != 0,
        tc: (raw & 0x0200) != 0,
        rd: (raw & 0x0100) != 0,
        ra: (raw & 0x0080) != 0,
        z: ((raw & 0x0070) >> 4) as u8,
        rcode: (raw & 0x000F) as u8,
    }
}

/// Unpacking packed flags gives the fields back, whenever each field fits
/// its bit width.
pub proof fn lemma_flags_round_trip(f: Flags)
    requires
        flags_in_range(f),
    ensures
        spec_decode_flags(spec_encode_flags(f)) == f,
{
    let qr = bit16(f.qr);
    let aa = bit16(f.aa);
    let tc = bit16(f.tc);
    let rd = bit16(f.rd);
    let ra = bit16(f.ra);
    let op = f.opcode as u16;
    let z = f.z as u16;
    let rc = f.rcode as u16;
    let raw = spec_encode_flags(f);
    assert(raw == (qr << 15) | (op << 11) | (aa << 10) | (tc << 9) | (rd << 8) | (ra << 7) | (z
        << 4) | rc);
    assert((((qr << 15) | (op << 11) | (aa << 10) | (tc << 9) | (rd << 8) | (ra << 7) | (z << 4)
        | rc) & 0x8000 != 0) == (qr == 1) && ((((qr << 15) | (op << 11) | (aa << 10) | (tc << 9) | (
        rd << 8) | (ra << 7) | (z << 4) | rc) & 0x7800) >> 11) == op && (((qr << 15) | (op << 11)
        | (aa << 10) | (tc << 9) | (rd << 8) | (ra << 7) | (z << 4) | rc) & 0x0400 != 0) == (aa
        == 1) && (((qr << 15) | (op << 11) | (aa << 10) | (tc << 9) | (rd << 8) | (ra << 7) | (z
        << 4) | rc) & 0x0200 != 0) == (tc == 1) && (((qr << 15) | (op << 11) | (aa << 10) | (tc
        << 9) | (rd << 8) | (ra << 7) | (z << 4) | rc) & 0x0100 != 0) == (rd == 1) && (((qr << 15)
        | (op << 11) | (aa << 10) | (tc << 9) | (rd << 8) | (ra << 7) | (z << 4) | rc) & 0x0080
        != 0) == (ra == 1) && ((((qr << 15) | (op << 11) | (aa << 10) | (tc << 9) | (rd << 8) | (ra
        << 7) | (z << 4) | rc) & 0x0070) >> 4) == z && (((qr << 15) | (op << 11) | (aa << 10) | (tc
        << 9) | (rd << 8) | (ra << 7) | (z << 4) | rc) & 0x000F) == rc) by (bit_vector)
        requires
            qr <= 1 && aa <= 1 && tc <= 1 && rd <= 1 && ra <= 1 && op < 16 && z < 8 && rc < 16,
    ;
    assert(spec_decode_flags(raw).opcode == f.opcode);
    assert(spec_decode_flags(raw).z == f.z);
    assert(spec_decode_flags(raw).rcode == f.rcode);
}

impl Dns {
    /// Packs the flag fields into 16 bits.
    pub fn encode_flags(flags: &Flags) -> (r: u16)
        ensures
            r == spec_encode_flags(*flags),
    {
        let qr: u16 = if flags.qr {
            1
        } else {
            0
        };
        let aa: u16 = if flags.aa {
            1
        } else {
            0
        };
        let tc: u16 = if flags.tc {
            1
        } else {
            0
        };
        let rd: u16 = if flags.rd {
            1
        } else {
            0
        };
        let ra: u16 = if flags.ra {
            1
        } else {
            0
        };
        (qr << 15) | ((flags.opcode as u16) << 11) | (aa << 10) | (tc << 9) | (rd << 8) | (ra << 7)
            | ((flags.z as u16) << 4) | (flags.rcode as u16)
    }

    /// Unpacks 16 bits into the flag fields.
    pub fn decode_flags(raw: u16) -> (r: Flags)
        ensures
            r == spec_decode_flags(raw),
    {
        Flags {
            qr: (raw & 0x8000) != 0,
            opcode: ((raw & 0x7800) >> 11) as u8,
            aa: (raw & 0x0400) != 0,
            tc: (raw & 0x0200) != 0,
            rd: (raw & 0x0100) != 0,
            ra: (raw & 0x0080) != 0,
            z: ((raw & 0x0070) >> 4) as u8,
            rcode: (raw & 0x000F) as u8,
        }
    }
}

/// The wire bytes of IPv6 groups: each group big-endian, in order.
pub open spec fn spec_groups_bytes(groups: Seq<u16>) -> Seq<u8>
    decreases groups.len(),
{
    if groups.len() == 0 {
        Seq::empty()
    } else {
        u16_bytes(groups[0]) + spec_groups_bytes(groups.skip(1))
    }
}

/// The IPv6 groups sixteen raw bytes spell.
pub open spec fn spec_groups_of(raw: Seq<u8>) -> Seq<u16> {
    Seq::new(8, |k: int| u16_of(raw[2 * k], raw[2 * k + 1]))
}

/// The wire bytes of resource data.
pub open spec fn spec_rdata_bytes(r: RDataV) -> Seq<u8> {
    match r {
        RDataV::A(a) => u32_bytes(a),
        RDataV::AAAA(groups) => spec_groups_bytes(groups),
        RDataV::NS(n) => spec_name_bytes(n),
        RDataV::CNAME(n) => spec_name_bytes(n),
        RDataV::Opaque(b) => b,
    }
}

/// Resource data the encoder accepts: any name's labels at most 63 bytes,
/// and the payload short enough for its 16-bit length field.
pub open spec fn encodable_rdata(r: RDataV) -> bool {
    &&& match r {
        RDataV::NS(n) => forall|i: int| 0 <= i < n.len() ==> #[trigger] n[i].len() <= 63,
        RDataV::CNAME(n) => forall|i: int| 0 <= i < n.len() ==> #[trigger] n[i].len() <= 63,
        _ => true,
    }
    &&& spec_rdata_bytes(r).len() <= 0xFFFF
}

/// A record the encoder accepts.
pub open spec fn encodable_record(r: AnswerRecordV) -> bool {
    &&& (r.atype != 41 ==> forall|i: int|
        0 <= i < r.aname.len() ==> #[trigger] r.aname[i].len() <= 63)
    &&& encodable_rdata(r.rdata)
}

/// A message the encoder accepts: encodable names and payloads, and
/// section lengths that fit the 16-bit counts.
pub open spec fn spec_encodable(m: DnsV) -> bool {
    &&& m.questions.len() <= 0xFFFF
    &&& m.answers.len() <= 0xFFFF
    &&& m.authorities.len() <= 0xFFFF
    &&& m.additionals.len() <= 0xFFFF
    &&& forall|i: int| 0 <= i < m.questions.len() ==> encodable_question(#[trigger] m.questions[i])
    &&& forall|i: int| 0 <= i < m.answers.len() ==> encodable_record(#[trigger] m.answers[i])
    &&& forall|i: int|
        0 <= i < m.authorities.len() ==> encodable_record(#[trigger] m.authorities[i])
    &&& forall|i: int|
        0 <= i < m.additionals.len() ==> encodable_record(#[trigger] m.additionals[i])
}

/// A question the encoder accepts.
pub open spec fn encodable_question(q: QueryRecordV) -> bool {
    forall|i: int| 0 <= i < q.qname.len() ==> #[trigger] q.qname[i].len() <= 63
}

/// The wire bytes of one question.
pub open spec fn spec_question_bytes(q: QueryRecordV) -> Seq<u8> {
    spec_name_bytes(q.qname) + u16_bytes(q.qtype) + u16_bytes(q.qclass)
}

/// The wire bytes of one record. A record of the OPT pseudo-type (41)
/// writes the root name whatever name it stores.
pub open spec fn spec_record_bytes(r: AnswerRecordV) -> Seq<u8> {
    let name_b = if r.atype == 41 {
        seq![0u8]
    } else {
        spec_name_bytes(r.aname)
    };
    name_b + u16_bytes(r.atype) + u16_bytes(r.aclass) + u32_bytes(r.ttl) + u16_bytes(
        spec_rdata_bytes(r.rdata).len() as u16,
    ) + spec_rdata_bytes(r.rdata)
}

/// The wire bytes of a question section.
pub open spec fn spec_questions_bytes(qs: Seq<QueryRecordV>) -> Seq<u8>
    decreases qs.len(),
{
    if qs.len() == 0 {
        Seq::empty()
    } else {
        spec_question_bytes(qs[0]) + spec_questions_bytes(qs.skip(1))
    }
}

/// The wire bytes of a record section.
pub open spec fn spec_records_bytes(rs: Seq<AnswerRecordV>) -> Seq<u8>
    decreases rs.len(),
{
    if rs.len() == 0 {
        Seq::empty()
    } else {
        spec_record_bytes(rs[0]) + spec_records_bytes(rs.skip(1))
    }
}

/// The twelve header bytes: identifier, packed flags, and the four counts
/// derived from the actual section lengths.
pub open spec fn spec_header_bytes(m: DnsV) -> Seq<u8> {
    u16_bytes(m.header.id) + u16_bytes(spec_encode_flags(m.header.flags)) + u16_bytes(
        m.questions.len() as u16,
    ) + u16_bytes(m.answers.len() as u16) + u16_bytes(m.authorities.len() as u16) + u16_bytes(
        m.additionals.len() as u16,
    )
}

/// The full, uncompressed wire form of a message.
pub open spec fn spec_dns_bytes(m: DnsV) -> Seq<u8> {
    spec_header_bytes(m) + spec_questions_bytes(m.questions) + spec_records_bytes(m.answers)
        + spec_records_bytes(m.authorities) + spec_records_bytes(m.additionals)
}

impl RData {
    /// The length of this data's wire form.
    pub fn len(&self) -> (r: u16)
        requires
            encodable_rdata(self@),
        ensures
            r == spec_rdata_bytes(self@).len(),
    {
        match Dns::encode_rdata(self) {
            Ok(raw) => raw.len() as u16,
            Err(_) => {
                proof {
                    assert(false);
                }
                0
            },
        }
    }
}

impl AnswerRecord {
    /// A record from a name and its data: the type code follows the data's
    /// variant, the class is the Internet, the time to live a default, and
    /// the length that of the data's wire form.
    pub fn new(name: DnsName, rdata: RData) -> (r: Self)
        requires
            encodable_rdata(rdata@),
        ensures
            r@ == (AnswerRecordV {
                aname: name@,
                atype: match rdata@ {
                    RDataV::A(_) => 1u16,
                    RDataV::AAAA(_) => 28u16,
                    RDataV::CNAME(_) => 5u16,
                    RDataV::NS(_) => 2u16,
                    RDataV::Opaque(_) => 0u16,
                },
                aclass: 1u16,
                ttl: 300u32,
                length: spec_rdata_bytes(rdata@).len() as u16,
                rdata: rdata@,
            }),
    {
        let atype: u16 = match &rdata {
            RData::A(_) => 1,
            RData::AAAA(_) => 28,
            RData::CNAME(_) => 5,
            RData::NS(_) => 2,
            RData::Opaque(_) => 0,
        };
        let length = rdata.len();
        AnswerRecord { aname: name, atype, aclass: 1, ttl: 300, length, rdata }
    }
}

impl Dns {
    /// The wire bytes of one resource data value. Fails if a contained
    /// name has a label of over 63 bytes.
    pub fn encode_rdata(rdata: &RData) -> (r: Result<Vec<u8>, DnsError>)
        ensures
            r is Ok <==> (match rdata@ {
                RDataV::NS(n) => forall|i: int| 0 <= i < n.len() ==> #[trigger] n[i].len() <= 63,
                RDataV::CNAME(n) => forall|i: int| 0 <= i < n.len() ==> #[trigger] n[i].len()
                    <= 63,
                _ => true,
            }),
            r matches Ok(raw) ==> raw@ == spec_rdata_bytes(rdata@),
            r is Err ==> r == Err::<Vec<u8>, DnsError>(DnsError::InvalidField),
    {
        let mut buf = DnsWriteBuffer::new();
        match rdata {
            RData::A(a) => {
                buf.write_u32(*a);
                proof {
                    assert(buf.data@ =~= spec_rdata_bytes(rdata@));
                }
                Ok(buf.into_inner())
            },
            RData::AAAA(groups) => {
                let n = groups.len();
                let mut k: usize = 0;
                proof {
                    assert(groups@.skip(0) =~= groups@);
                }
                while k < n
                    invariant
                        k <= n,
                        n == groups@.len(),
                        spec_groups_bytes(groups@) == buf.data@ + spec_groups_bytes(
                            groups@.skip(k as int),
                        ),
                    decreases n - k,
                {
                    let ghost rest = groups@.skip(k as int);
                    buf.write_u16(groups[k]);
                    k = k + 1;
                    proof {
                        assert(rest[0] == groups@[k - 1]);
                        assert(rest.skip(1) =~= groups@.skip(k as int));
                        assert(buf.data@ + spec_groups_bytes(groups@.skip(k as int))
                            =~= spec_groups_bytes(groups@));
                    }
                }
                proof {
                    assert(groups@.skip(n as int) =~= Seq::<u16>::empty());
                    assert(buf.data@ + Seq::<u8>::empty() =~= buf.data@);
                }
                Ok(buf.into_inner())
            },
            RData::NS(name) => {
                proof {
                    assert(rdata@ == RDataV::NS(name@));
                }
                match buf.write_str(name) {
                    Ok(_) => {
                        proof {
                            assert(forall|i: int|
                                0 <= i < name@.len() ==> #[trigger] name@[i].len() <= 63);
                            assert(rdata@->NS_0 == name@);
                        }
                        Ok(buf.into_inner())
                    },
                    Err(_) => Err(DnsError::InvalidField),
                }
            },
            RData::CNAME(name) => {
                proof {
                    assert(rdata@ == RDataV::CNAME(name@));
                }
                match buf.write_str(name) {
                    Ok(_) => {
                        proof {
                            assert(forall|i: int|
                                0 <= i < name@.len() ==> #[trigger] name@[i].len() <= 63);
                            assert(rdata@->CNAME_0 == name@);
                        }
                        Ok(buf.into_inner())
                    },
                    Err(_) => Err(DnsError::InvalidField),
                }
            },
            RData::Opaque(bytes) => {
                buf.write_bytes(bytes.as_slice());
                proof {
                    assert(buf.data@ =~= spec_rdata_bytes(rdata@));
                }
                Ok(buf.into_inner())
            },
        }
    }

    /// Writes one record section: for each record its name (the root name
    /// for the OPT pseudo-type), type, class, time to live, then the
    /// resource data behind its derived 16-bit length.
    fn encode_answers(buffer: &mut DnsWriteBuffer, answers: &Vec<AnswerRecord>) -> (r: Result<
        (),
        DnsError,
    >)
        ensures
            r is Ok <==> (forall|i: int|
                0 <= i < answers@.len() ==> encodable_record(#[trigger] answers@[i]@)),
            r is Ok ==> final(buffer).data@ == old(buffer).data@ + spec_records_bytes(
                crate::types::records_view(answers@),
            ),
            r is Err ==> r == Err::<(), DnsError>(DnsError::InvalidField),
    {
        let ghost before = buffer.data@;
        let ghost view = crate::types::records_view(answers@);
        let n = answers.len();
        let mut k: usize = 0;
        proof {
            assert(view.skip(0) =~= view);
            assert(before + Seq::<u8>::empty() =~= before);
        }
        while k < n
            invariant
                k <= n,
                n == answers@.len(),
                view == crate::types::records_view(answers@),
                view.len() == n,
                forall|i: int| 0 <= i < k ==> encodable_record(#[trigger] answers@[i]@),
                buffer.data@.len() >= before.len(),
                buffer.data@.subrange(0, before.len() as int) == before,
                spec_records_bytes(view) == buffer.data@.skip(before.len() as int)
                    + spec_records_bytes(view.skip(k as int)),
            decreases n - k,
        {
            let ghost rest = view.skip(k as int);
            let ghost written = buffer.data@;
            let a = &answers[k];
            proof {
                assert(view[k as int] == answers@[k as int]@);
                assert(rest[0] == view[k as int]);
                assert(rest.skip(1) =~= view.skip(k as int + 1));
            }
            if a.atype == 41 {
                buffer.write_u8(0);
            } else {
                match buffer.write_str(&a.aname) {
                    Ok(_) => {},
                    Err(_) => {
                        return Err(DnsError::InvalidField);
                    },
                }
            }
            buffer.write_u16(a.atype);
            buffer.write_u16(a.aclass);
            buffer.write_u32(a.ttl);
            let raw = match Self::encode_rdata(&a.rdata) {
                Ok(raw) => raw,
                Err(e) => {
                    return Err(e);
                },
            };
            if raw.len() > 0xFFFF {
                return Err(DnsError::InvalidField);
            }
            buffer.write_u16(raw.len() as u16);
            buffer.write_bytes(raw.as_slice());
            k = k + 1;
            proof {
                let rec = view[k - 1];
                let name_b = if rec.atype == 41 {
                    seq![0u8]
                } else {
                    spec_name_bytes(rec.aname)
                };
                assert(buffer.data@ =~= written + spec_record_bytes(rec));
                assert(buffer.data@.subrange(0, before.len() as int) =~= before);
                assert(buffer.data@.skip(before.len() as int) =~= written.skip(
                    before.len() as int,
                ) + spec_record_bytes(rec));
                assert(written.skip(before.len() as int) + (spec_record_bytes(rec)
                    + spec_records_bytes(view.skip(k as int))) =~= (written.skip(
                    before.len() as int,
                ) + spec_record_bytes(rec)) + spec_records_bytes(view.skip(k as int)));
            }
        }
        proof {
            assert(view.skip(n as int) =~= Seq::<AnswerRecordV>::empty());
            assert(buffer.data@.skip(before.len() as int) + Seq::<u8>::empty() =~= buffer.data@.skip(
                before.len() as int,
            ));
            assert(buffer.data@ =~= before + buffer.data@.skip(before.len() as int));
        }
        Ok(())
    }

    /// Encodes this message to its wire bytes: the twelve header bytes
    /// with counts derived from the actual section lengths, then the
    /// question and record sections in order, names uncompressed. Fails
    /// if a label is over 63 bytes, a section longer than 65535 entries,
    /// or a resource payload longer than 65535 bytes.
    pub fn encode(&self) -> (r: Result<DnsWriteBuffer, DnsError>)
        ensures
            r is Ok <==> spec_encodable(self@),
            r matches Ok(buf) ==> buf.data@ == spec_dns_bytes(self@),
            r is Err ==> r == Err::<DnsWriteBuffer, DnsError>(DnsError::InvalidField),
    {
        if self.questions.len() > 0xFFFF || self.answers.len() > 0xFFFF || self.authorities.len()
            > 0xFFFF || self.additionals.len() > 0xFFFF {
            return Err(DnsError::InvalidField);
        }
        let mut buffer = DnsWriteBuffer::new();
        let flags = Self::encode_flags(&self.header.flags);
        buffer.write_u16(self.header.id);
        buffer.write_u16(flags);
        buffer.write_u16(self.questions.len() as u16);
        buffer.write_u16(self.answers.len() as u16);
        buffer.write_u16(self.authorities.len() as u16);
        buffer.write_u16(self.additionals.len() as u16);
        proof {
            assert(buffer.data@ =~= spec_header_bytes(self@));
        }
        let ghost after_header = buffer.data@;
        let ghost qview = crate::types::questions_view(self.questions@);
        let n = self.questions.len();
        let mut k: usize = 0;
        proof {
            assert(qview.skip(0) =~= qview);
            assert(after_header + Seq::<u8>::empty() =~= after_header);
        }
        while k < n
            invariant
                k <= n,
                n == self.questions@.len(),
                qview == crate::types::questions_view(self.questions@),
                qview.len() == n,
                forall|i: int| 0 <= i < k ==> encodable_question(#[trigger] self.questions@[i]@),
                after_header == spec_header_bytes(self@),
                buffer.data@.len() >= after_header.len(),
                buffer.data@.subrange(0, after_header.len() as int) == after_header,
                spec_questions_bytes(qview) == buffer.data@.skip(after_header.len() as int)
                    + spec_questions_bytes(qview.skip(k as int)),
            decreases n - k,
        {
            let ghost rest = qview.skip(k as int);
            let ghost written = buffer.data@;
            let q = &self.questions[k];
            proof {
                assert(qview[k as int] == self.questions@[k as int]@);
                assert(rest[0] == qview[k as int]);
                assert(rest.skip(1) =~= qview.skip(k as int + 1));
            }
            match buffer.write_str(&q.qname) {
                Ok(_) => {},
                Err(_) => {
                    return Err(DnsError::InvalidField);
                },
            }
            buffer.write_u16(q.qtype);
            buffer.write_u16(q.qclass);
            k = k + 1;
            proof {
                let qr = qview[k - 1];
                assert(buffer.data@ =~= written + spec_question_bytes(qr));
                assert(buffer.data@.subrange(0, after_header.len() as int) =~= after_header);
                assert(buffer.data@.skip(after_header.len() as int) =~= written.skip(
                    after_header.len() as int,
                ) + spec_question_bytes(qr));
                assert(written.skip(after_header.len() as int) + (spec_question_bytes(qr)
                    + spec_questions_bytes(qview.skip(k as int))) =~= (written.skip(
                    after_header.len() as int,
                ) + spec_question_bytes(qr)) + spec_questions_bytes(qview.skip(k as int)));
            }
        }
        proof {
            assert(qview.skip(n as int) =~= Seq::<QueryRecordV>::empty());
            assert(buffer.data@.skip(after_header.len() as int) + Seq::<u8>::empty()
                =~= buffer.data@.skip(after_header.len() as int));
            assert(buffer.data@ =~= after_header + buffer.data@.skip(after_header.len() as int));
            assert(buffer.data@ =~= spec_header_bytes(self@) + spec_questions_bytes(
                self@.questions,
            ));
        }
        match Self::encode_answers(&mut buffer, &self.answers) {
            Ok(_) => {},
            Err(e) => {
                proof {
                    let rs = self.answers@;
                    let j = choose|j: int| 0 <= j < rs.len() && !encodable_record(rs[j]@);
                    assert(self@.answers[j] == rs[j]@);
                }
                return Err(e);
            },
        }
        match Self::encode_answers(&mut buffer, &self.authorities) {
            Ok(_) => {},
            Err(e) => {
                proof {
                    let rs = self.authorities@;
                    let j = choose|j: int| 0 <= j < rs.len() && !encodable_record(rs[j]@);
                    assert(self@.authorities[j] == rs[j]@);
                }
                return Err(e);
            },
        }
        match Self::encode_answers(&mut buffer, &self.additionals) {
            Ok(_) => {},
            Err(e) => {
                proof {
                    let rs = self.additionals@;
                    let j = choose|j: int| 0 <= j < rs.len() && !encodable_record(rs[j]@);
                    assert(self@.additionals[j] == rs[j]@);
                }
                return Err(e);
            },
        }
        proof {
            assert(buffer.data@ =~= spec_dns_bytes(self@));
        }
        Ok(buffer)
    }
}

/// Resource data parsed at a position, given the record's type code and
/// stated length. Fixed-size records must have exactly their size; a name
/// may use fewer bytes than stated, and the residue is skipped; any
/// unknown type's bytes are kept opaque.
pub open spec fn spec_decode_rdata(data: Seq<u8>, i: int, atype: u16, length: u16) -> Result<
    (RDataV, int),
    DnsError,
> {
    if atype == 1 {
        match spec_read_bytes(data, i, length as int) {
            Err(_) => Err(DnsError::InvalidField),
            Ok((raw, j)) => if raw.len() != 4 {
                Err(DnsError::InvalidRData)
            } else {
                Ok((RDataV::A(u32_of(raw[0], raw[1], raw[2], raw[3])), j))
            },
        }
    } else if atype == 28 {
        match spec_read_bytes(data, i, length as int) {
            Err(_) => Err(DnsError::InvalidField),
            Ok((raw, j)) => if raw.len() != 16 {
                Err(DnsError::InvalidRData)
            } else {
                Ok((RDataV::AAAA(spec_groups_of(raw)), j))
            },
        }
    } else if atype == 2 || atype == 5 {
        match spec_read_name(data, i, 0, NAME_HOP_LIMIT as int) {
            Err(_) => Err(DnsError::InvalidField),
            Ok((name, j)) => if j > i + length {
                Err(DnsError::InvalidRData)
            } else if i + length > data.len() {
                Err(DnsError::InvalidField)
            } else if atype == 2 {
                Ok((RDataV::NS(name), i + length))
            } else {
                Ok((RDataV::CNAME(name), i + length))
            },
        }
    } else {
        match spec_read_bytes(data, i, length as int) {
            Err(_) => Err(DnsError::InvalidField),
            Ok((raw, j)) => Ok((RDataV::Opaque(raw), j)),
        }
    }
}

/// One question parsed at a position.
pub open spec fn spec_decode_question(data: Seq<u8>, i: int) -> Result<
    (QueryRecordV, int),
    DnsError,
> {
    match spec_read_name(data, i, 0, NAME_HOP_LIMIT as int) {
        Err(_) => Err(DnsError::InvalidField),
        Ok((qname, j)) => match spec_read_u16(data, j) {
            Err(_) => Err(DnsError::InvalidField),
            Ok((qtype, j2)) => match spec_read_u16(data, j2) {
                Err(_) => Err(DnsError::InvalidField),
                Ok((qclass, j3)) => Ok((QueryRecordV { qname, qtype, qclass }, j3)),
            },
        },
    }
}

/// One resource record parsed at a position.
pub open spec fn spec_decode_record(data: Seq<u8>, i: int) -> Result<(AnswerRecordV, int), DnsError> {
    match spec_read_name(data, i, 0, NAME_HOP_LIMIT as int) {
        Err(_) => Err(DnsError::InvalidField),
        Ok((aname, j)) => match spec_read_u16(data, j) {
            Err(_) => Err(DnsError::InvalidField),
            Ok((atype, j2)) => match spec_read_u16(data, j2) {
                Err(_) => Err(DnsError::InvalidField),
                Ok((aclass, j3)) => match spec_read_u32(data, j3) {
                    Err(_) => Err(DnsError::InvalidField),
                    Ok((ttl, j4)) => match spec_read_u16(data, j4) {
                        Err(_) => Err(DnsError::InvalidField),
                        Ok((length, j5)) => match spec_decode_rdata(data, j5, atype, length) {
                            Err(e) => Err(e),
                            Ok((rdata, j6)) => Ok(
                                (AnswerRecordV { aname, atype, aclass, ttl, length, rdata }, j6),
                            ),
                        },
                    },
                },
            },
        },
    }
}

/// `count` questions parsed in sequence.
pub open spec fn spec_decode_questions(data: Seq<u8>, i: int, count: int) -> Result<
    (Seq<QueryRecordV>, int),
    DnsError,
>
    decreases count,
{
    if count <= 0 {
        Ok((Seq::empty(), i))
    } else {
        match spec_decode_question(data, i) {
            Err(e) => Err(e),
            Ok((q, j)) => match spec_decode_questions(data, j, count - 1) {
                Err(e) => Err(e),
                Ok((qs, k)) => Ok((seq![q] + qs, k)),
            },
        }
    }
}

/// `count` records parsed in sequence.
pub open spec fn spec_decode_records(data: Seq<u8>, i: int, count: int) -> Result<
    (Seq<AnswerRecordV>, int),
    DnsError,
>
    decreases count,
{
    if count <= 0 {
        Ok((Seq::empty(), i))
    } else {
        match spec_decode_record(data, i) {
            Err(e) => Err(e),
            Ok((r, j)) => match spec_decode_records(data, j, count - 1) {
                Err(e) => Err(e),
                Ok((rs, k)) => Ok((seq![r] + rs, k)),
            },
        }
    }
}

/// A whole message parsed at a position: the six header values, then as
/// many questions and records as the counts claim. A count the body
/// cannot honour is an error.
pub open spec fn spec_decode_dns(data: Seq<u8>, i: int) -> Result<(DnsV, int), DnsError> {
    match spec_read_u16(data, i) {
        Err(_) => Err(DnsError::InvalidField),
        Ok((id, i1)) => match spec_read_u16(data, i1) {
            Err(_) => Err(DnsError::InvalidField),
            Ok((flags_raw, i2)) => match spec_read_u16(data, i2) {
                Err(_) => Err(DnsError::InvalidField),
                Ok((qd_count, i3)) => match spec_read_u16(data, i3) {
                    Err(_) => Err(DnsError::InvalidField),
                    Ok((an_count, i4)) => match spec_read_u16(data, i4) {
                        Err(_) => Err(DnsError::InvalidField),
                        Ok((ns_count, i5)) => match spec_read_u16(data, i5) {
                            Err(_) => Err(DnsError::InvalidField),
                            Ok((ar_count, i6)) => match spec_decode_questions(
                                data,
                                i6,
                                qd_count as int,
                            ) {
                                Err(e) => Err(e),
                                Ok((questions, i7)) => match spec_decode_records(
                                    data,
                                    i7,
                                    an_count as int,
                                ) {
                                    Err(e) => Err(e),
                                    Ok((answers, i8)) => match spec_decode_records(
                                        data,
                                        i8,
                                        ns_count as int,
                                    ) {
                                        Err(e) => Err(e),
                                        Ok((authorities, i9)) => match spec_decode_records(
                                            data,
                                            i9,
                                            ar_count as int,
                                        ) {
                                            Err(e) => Err(e),
                                            Ok((additionals, i10)) => Ok(
                                                (
                                                    DnsV {
                                                        header: Header {
                                                            id,
                                                            flags: spec_decode_flags(flags_raw),
                                                            qd_count,
                                                            an_count,
                                                            ns_count,
                                                            ar_count,
                                                        },
                                                        questions,
                                                        answers,
                                                        authorities,
                                                        additionals,
                                                    },
                                                    i10,
                                                ),
                                            ),
                                        },
                                    },
                                },
                            },
                        },
                    },
                },
            },
        },
    }
}

/// A name's label bytes sum to something non-negative.
pub proof fn lemma_total_label_len_nonneg(name: Seq<Seq<u8>>)
    ensures
        total_label_len(name) >= 0,
    decreases name.len(),
{
    if name.len() != 0 {
        lemma_total_label_len_nonneg(name.skip(1));
    }
}

/// Two adjacent chunks of a larger buffer can be read off one by one.
proof fn lemma_subrange_cat(data: Seq<u8>, p: int, a: Seq<u8>, b: Seq<u8>)
    requires
        0 <= p,
        p + a.len() + b.len() <= data.len(),
        data.subrange(p, p + a.len() + b.len()) == a + b,
    ensures
        data.subrange(p, p + a.len()) == a,
        data.subrange(p + a.len(), p + a.len() + b.len()) == b,
{
    assert forall|k: int| 0 <= k < a.len() implies data.subrange(p, p + a.len())[k] == a[k] by {
        assert(data.subrange(p, p + a.len() + b.len())[k] == data[p + k]);
        assert((a + b)[k] == a[k]);
    }
    assert(data.subrange(p, p + a.len()) =~= a);
    assert forall|k: int|
        0 <= k < b.len() implies data.subrange(p + a.len(), p + a.len() + b.len())[k] == b[k] by {
        let w = a.len() + k;
        assert(data.subrange(p, p + a.len() + b.len())[w] == data[p + w]);
        assert((a + b)[w] == b[k]);
    }
    assert(data.subrange(p + a.len(), p + a.len() + b.len()) =~= b);
}

/// A 16-bit read finds the value whose bytes lie at the position.
proof fn lemma_read_u16_at(data: Seq<u8>, p: int, v: u16)
    requires
        0 <= p,
        p + 2 <= data.len(),
        data[p] == u16_hi(v),
        data[p + 1] == u16_lo(v),
    ensures
        spec_read_u16(data, p) == Ok::<_, DnsBufferError>((v, p + 2)),
{
    crate::buffer::lemma_u16_bytes_of(v);
}

/// A 32-bit read finds the value whose bytes lie at the position.
proof fn lemma_read_u32_at(data: Seq<u8>, p: int, v: u32)
    requires
        0 <= p,
        p + 4 <= data.len(),
        data[p] == u32_bytes(v)[0],
        data[p + 1] == u32_bytes(v)[1],
        data[p + 2] == u32_bytes(v)[2],
        data[p + 3] == u32_bytes(v)[3],
    ensures
        spec_read_u32(data, p) == Ok::<_, DnsBufferError>((v, p + 4)),
{
    crate::buffer::lemma_u32_bytes_of(v);
}

/// Reading a name from its own uncompressed wire form gives the name
/// back, wherever in a message those bytes lie, and whatever label bytes
/// were read before, as long as the 255-byte bound is kept.
pub proof fn lemma_read_name_encoded(data: Seq<u8>, p: int, name: Seq<Seq<u8>>, total: int, hops: int)
    requires
        0 <= p,
        0 <= total,
        forall|i: int| 0 <= i < name.len() ==> valid_label(#[trigger] name[i]),
        total + total_label_len(name) <= 255,
        p + spec_name_bytes(name).len() <= data.len(),
        data.subrange(p, p + spec_name_bytes(name).len()) == spec_name_bytes(name),
    ensures
        spec_read_name(data, p, total, hops) == Ok::<_, DnsBufferError>(
            (name, p + spec_name_bytes(name).len()),
        ),
    decreases name.len(),
{
    let nb = spec_name_bytes(name);
    lemma_total_label_len_nonneg(name);
    assert forall|k: int| 0 <= k < nb.len() implies data[p + k] == nb[k] by {
        assert(data.subrange(p, p + nb.len())[k] == data[p + k]);
    }
    if name.len() == 0 {
        assert(nb =~= seq![0u8]);
        assert(data[p] == data.subrange(p, p + nb.len())[0]);
        assert(data[p] == 0);
        let tag = data[p];
        assert(tag & 0xC0 != 0xC0 && tag & 0xC0 == 0) by (bit_vector)
            requires
                tag == 0,
        ;
        assert(name =~= Seq::<Seq<u8>>::empty());
    } else {
        let l0 = name[0];
        let rest = name.skip(1);
        let nb1 = spec_name_bytes(rest);
        assert(valid_label(l0));
        let t = l0.len() as u8;
        assert(spec_labels_bytes(name) == seq![t] + l0 + spec_labels_bytes(rest));
        assert(nb =~= seq![t] + l0 + nb1);
        assert(nb[0] == t);
        assert(data[p] == t);
        assert(1 <= t <= 63);
        assert(t & 0xC0 != 0xC0 && t & 0xC0 == 0) by (bit_vector)
            requires
                1 <= t && t <= 63,
        ;
        assert(total_label_len(name) == l0.len() + total_label_len(rest));
        lemma_total_label_len_nonneg(rest);
        assert(nb.len() == 1 + l0.len() + nb1.len());
        assert(nb1.len() >= 1);
        assert forall|k: int| 0 <= k < l0.len() implies data[p + 1 + k] == l0[k] by {
            assert(nb[1 + k] == (seq![t] + l0 + nb1)[1 + k]);
        }
        assert(data.subrange(p + 1, p + 1 + t) =~= l0);
        assert forall|k: int| 0 <= k < nb1.len() implies data[p + 1 + l0.len() + k] == nb1[k] by {
            assert(nb[1 + l0.len() + k] == (seq![t] + l0 + nb1)[1 + l0.len() + k]);
        }
        assert(data.subrange(p + 1 + l0.len(), p + 1 + l0.len() + nb1.len()) =~= nb1);
        assert forall|i: int| 0 <= i < rest.len() implies valid_label(#[trigger] rest[i]) by {
            assert(rest[i] == name[i + 1]);
        }
        lemma_read_name_encoded(data, p + 1 + l0.len(), rest, total + l0.len(), hops);
        assert(seq![l0] + rest =~= name);
        assert(p + 1 + l0.len() + nb1.len() == p + nb.len());
    }
}

/// Compression tolerance: a name replaced by a valid pointer to an
/// earlier, uncompressed occurrence of the same name decodes to the same
/// name, and the read ends just past the pointer. So a message whose
/// names are compressed this way decodes to the same message as its
/// uncompressed form.
pub proof fn lemma_compression_tolerance(data: Seq<u8>, p: int, target: int, name: Seq<Seq<u8>>)
    requires
        0 <= p,
        p + 2 <= data.len(),
        data[p] & 0xC0 == 0xC0,
        ((data[p] & 0x3F) as int) * 256 + data[p + 1] as int == target,
        0 <= target < data.len(),
        forall|i: int| 0 <= i < name.len() ==> valid_label(#[trigger] name[i]),
        total_label_len(name) <= 255,
        target + spec_name_bytes(name).len() <= data.len(),
        data.subrange(target, target + spec_name_bytes(name).len()) == spec_name_bytes(name),
    ensures
        spec_read_name(data, p, 0, NAME_HOP_LIMIT as int) == Ok::<_, DnsBufferError>(
            (name, p + 2),
        ),
{
    lemma_read_name_encoded(data, target, name, 0, NAME_HOP_LIMIT as int - 1);
}

/// The wire form of IPv6 groups is two bytes per group.
pub proof fn lemma_groups_bytes_len(groups: Seq<u16>)
    ensures
        spec_groups_bytes(groups).len() == 2 * groups.len(),
    decreases groups.len(),
{
    if groups.len() != 0 {
        lemma_groups_bytes_len(groups.skip(1));
    }
}

/// Each group's two bytes sit at twice its index in the wire form.
proof fn lemma_groups_bytes_index(groups: Seq<u16>, k: int)
    requires
        0 <= k < groups.len(),
    ensures
        spec_groups_bytes(groups)[2 * k] == u16_hi(groups[k]),
        spec_groups_bytes(groups)[2 * k + 1] == u16_lo(groups[k]),
    decreases k,
{
    lemma_groups_bytes_len(groups.skip(1));
    if k == 0 {
    } else {
        lemma_groups_bytes_index(groups.skip(1), k - 1);
        assert(groups.skip(1)[k - 1] == groups[k]);
    }
}

/// Resource data fit for its record type: the variant agrees with the
/// type code, an address has its exact group count, a name is valid.
pub open spec fn wf_rdata(atype: u16, r: RDataV) -> bool {
    match r {
        RDataV::A(_) => atype == 1,
        RDataV::AAAA(groups) => atype == 28 && groups.len() == 8,
        RDataV::NS(n) => atype == 2 && valid_name(n),
        RDataV::CNAME(n) => atype == 5 && valid_name(n),
        RDataV::Opaque(_) => atype != 1 && atype != 2 && atype != 5 && atype != 28,
    }
}

/// A record that survives the round trip: a valid name (the root name for
/// the OPT pseudo-type, whose stored name is not written), data fit for
/// its type, and a payload short enough for its length field.
pub open spec fn wf_record(r: AnswerRecordV) -> bool {
    &&& valid_name(r.aname)
    &&& wf_rdata(r.atype, r.rdata)
    &&& (r.atype == 41 ==> r.aname.len() == 0)
    &&& spec_rdata_bytes(r.rdata).len() <= 0xFFFF
}

/// A question that survives the round trip.
pub open spec fn wf_question(q: QueryRecordV) -> bool {
    valid_name(q.qname)
}

/// A message that survives the round trip: flag fields in range, sections
/// short enough for their counts, names valid, records well-formed.
pub open spec fn wf_msg(m: DnsV) -> bool {
    &&& flags_in_range(m.header.flags)
    &&& m.questions.len() <= 0xFFFF
    &&& m.answers.len() <= 0xFFFF
    &&& m.authorities.len() <= 0xFFFF
    &&& m.additionals.len() <= 0xFFFF
    &&& forall|i: int| 0 <= i < m.questions.len() ==> wf_question(#[trigger] m.questions[i])
    &&& forall|i: int| 0 <= i < m.answers.len() ==> wf_record(#[trigger] m.answers[i])
    &&& forall|i: int| 0 <= i < m.authorities.len() ==> wf_record(#[trigger] m.authorities[i])
    &&& forall|i: int| 0 <= i < m.additionals.len() ==> wf_record(#[trigger] m.additionals[i])
}

/// A record with its derived length field: what decoding its own wire
/// form gives back.
pub open spec fn normalize_record(r: AnswerRecordV) -> AnswerRecordV {
    AnswerRecordV { length: spec_rdata_bytes(r.rdata).len() as u16, ..r }
}

/// A message with every derived field recomputed: the four counts from
/// the section lengths, each record's length field from its payload.
pub open spec fn normalize_msg(m: DnsV) -> DnsV {
    DnsV {
        header: Header {
            id: m.header.id,
            flags: m.header.flags,
            qd_count: m.questions.len() as u16,
            an_count: m.answers.len() as u16,
            ns_count: m.authorities.len() as u16,
            ar_count: m.additionals.len() as u16,
        },
        questions: m.questions,
        answers: m.answers.map_values(|r: AnswerRecordV| normalize_record(r)),
        authorities: m.authorities.map_values(|r: AnswerRecordV| normalize_record(r)),
        additionals: m.additionals.map_values(|r: AnswerRecordV| normalize_record(r)),
    }
}

/// A well-formed message is one the encoder accepts.
pub proof fn lemma_wf_encodable(m: DnsV)
    requires
        wf_msg(m),
    ensures
        spec_encodable(m),
{
    assert forall|i: int| 0 <= i < m.questions.len() implies encodable_question(
        #[trigger] m.questions[i],
    ) by {
        assert(wf_question(m.questions[i]));
    }
    assert forall|i: int| 0 <= i < m.answers.len() implies encodable_record(
        #[trigger] m.answers[i],
    ) by {
        lemma_wf_record_encodable(m.answers[i]);
    }
    assert forall|i: int| 0 <= i < m.authorities.len() implies encodable_record(
        #[trigger] m.authorities[i],
    ) by {
        lemma_wf_record_encodable(m.authorities[i]);
    }
    assert forall|i: int| 0 <= i < m.additionals.len() implies encodable_record(
        #[trigger] m.additionals[i],
    ) by {
        lemma_wf_record_encodable(m.additionals[i]);
    }
}

/// A well-formed record is one the encoder accepts.
proof fn lemma_wf_record_encodable(r: AnswerRecordV)
    requires
        wf_record(r),
    ensures
        encodable_record(r),
{
}

/// Decoding resource data from its own wire form gives the data back.
proof fn lemma_decode_rdata_encoded(data: Seq<u8>, p: int, atype: u16, r: RDataV)
    requires
        0 <= p,
        wf_rdata(atype, r),
        spec_rdata_bytes(r).len() <= 0xFFFF,
        p + spec_rdata_bytes(r).len() <= data.len(),
        data.subrange(p, p + spec_rdata_bytes(r).len()) == spec_rdata_bytes(r),
    ensures
        spec_decode_rdata(data, p, atype, spec_rdata_bytes(r).len() as u16) == Ok::<_, DnsError>(
            (r, p + spec_rdata_bytes(r).len()),
        ),
{
    let rb = spec_rdata_bytes(r);
    assert forall|k: int| 0 <= k < rb.len() implies data[p + k] == rb[k] by {
        assert(data.subrange(p, p + rb.len())[k] == data[p + k]);
    }
    match r {
        RDataV::A(a) => {
            assert(rb.len() == 4);
            assert(data.subrange(p, p + 4) =~= u32_bytes(a));
            crate::buffer::lemma_u32_bytes_of(a);
        },
        RDataV::AAAA(groups) => {
            lemma_groups_bytes_len(groups);
            assert(rb.len() == 16);
            let raw = data.subrange(p, p + 16);
            assert(raw =~= rb);
            assert forall|k: int| 0 <= k < 8 implies spec_groups_of(raw)[k] == groups[k] by {
                lemma_groups_bytes_index(groups, k);
                crate::buffer::lemma_u16_bytes_of(groups[k]);
                assert(raw[2 * k] == rb[2 * k]);
                assert(raw[2 * k + 1] == rb[2 * k + 1]);
            }
            assert(spec_groups_of(raw) =~= groups);
        },
        RDataV::NS(n) => {
            lemma_read_name_encoded(data, p, n, 0, NAME_HOP_LIMIT as int);
        },
        RDataV::CNAME(n) => {
            lemma_read_name_encoded(data, p, n, 0, NAME_HOP_LIMIT as int);
        },
        RDataV::Opaque(b) => {
            assert(data.subrange(p, p + b.len()) =~= b);
        },
    }
}

/// Decoding a question from its own wire form gives the question back.
proof fn lemma_decode_question_encoded(data: Seq<u8>, p: int, q: QueryRecordV)
    requires
        0 <= p,
        wf_question(q),
        p + spec_question_bytes(q).len() <= data.len(),
        data.subrange(p, p + spec_question_bytes(q).len()) == spec_question_bytes(q),
    ensures
        spec_decode_question(data, p) == Ok::<_, DnsError>(
            (q, p + spec_question_bytes(q).len()),
        ),
{
    let nb = spec_name_bytes(q.qname);
    let qb = spec_question_bytes(q);
    assert(qb.len() == nb.len() + 4);
    assert forall|k: int| 0 <= k < qb.len() implies data[p + k] == qb[k] by {
        assert(data.subrange(p, p + qb.len())[k] == data[p + k]);
    }
    assert forall|k: int| 0 <= k < nb.len() implies qb[k] == nb[k] by {
        assert(qb[k] == (nb + u16_bytes(q.qtype) + u16_bytes(q.qclass))[k]);
    }
    assert(data.subrange(p, p + nb.len()) =~= nb);
    lemma_total_label_len_nonneg(q.qname);
    lemma_read_name_encoded(data, p, q.qname, 0, NAME_HOP_LIMIT as int);
    let j = p + nb.len();
    assert(qb[nb.len() as int] == u16_hi(q.qtype));
    assert(qb[nb.len() as int + 1] == u16_lo(q.qtype));
    assert(qb[nb.len() as int + 2] == u16_hi(q.qclass));
    assert(qb[nb.len() as int + 3] == u16_lo(q.qclass));
    lemma_read_u16_at(data, j, q.qtype);
    lemma_read_u16_at(data, j + 2, q.qclass);
    assert(spec_decode_question(data, p)->Ok_0.0 =~= q);
}

/// Decoding a record from its own wire form gives the record back, its
/// length field recomputed.
proof fn lemma_decode_record_encoded(data: Seq<u8>, p: int, r: AnswerRecordV)
    requires
        0 <= p,
        wf_record(r),
        p + spec_record_bytes(r).len() <= data.len(),
        data.subrange(p, p + spec_record_bytes(r).len()) == spec_record_bytes(r),
    ensures
        spec_decode_record(data, p) == Ok::<_, DnsError>(
            (normalize_record(r), p + spec_record_bytes(r).len()),
        ),
{
    let name_b = if r.atype == 41 {
        seq![0u8]
    } else {
        spec_name_bytes(r.aname)
    };
    let rb = spec_rdata_bytes(r.rdata);
    let recb = spec_record_bytes(r);
    let len16 = rb.len() as u16;
    assert(recb.len() == name_b.len() + 10 + rb.len());
    assert forall|k: int| 0 <= k < recb.len() implies data[p + k] == recb[k] by {
        assert(data.subrange(p, p + recb.len())[k] == data[p + k]);
    }
    assert forall|k: int| 0 <= k < name_b.len() implies recb[k] == name_b[k] by {
        assert(recb[k] == (name_b + u16_bytes(r.atype) + u16_bytes(r.aclass) + u32_bytes(r.ttl)
            + u16_bytes(len16) + rb)[k]);
    }
    assert(data.subrange(p, p + name_b.len()) =~= name_b);
    if r.atype == 41 {
        assert(name_b =~= spec_name_bytes(Seq::<Seq<u8>>::empty()));
        lemma_read_name_encoded(data, p, Seq::empty(), 0, NAME_HOP_LIMIT as int);
        assert(r.aname =~= Seq::<Seq<u8>>::empty());
    } else {
        lemma_total_label_len_nonneg(r.aname);
        lemma_read_name_encoded(data, p, r.aname, 0, NAME_HOP_LIMIT as int);
    }
    let j = p + name_b.len();
    assert(recb[name_b.len() as int] == u16_hi(r.atype));
    assert(recb[name_b.len() as int + 1] == u16_lo(r.atype));
    assert(recb[name_b.len() as int + 2] == u16_hi(r.aclass));
    assert(recb[name_b.len() as int + 3] == u16_lo(r.aclass));
    assert(recb[name_b.len() as int + 4] == u32_bytes(r.ttl)[0]);
    assert(recb[name_b.len() as int + 5] == u32_bytes(r.ttl)[1]);
    assert(recb[name_b.len() as int + 6] == u32_bytes(r.ttl)[2]);
    assert(recb[name_b.len() as int + 7] == u32_bytes(r.ttl)[3]);
    assert(recb[name_b.len() as int + 8] == u16_hi(len16));
    assert(recb[name_b.len() as int + 9] == u16_lo(len16));
    lemma_read_u16_at(data, j, r.atype);
    lemma_read_u16_at(data, j + 2, r.aclass);
    lemma_read_u32_at(data, j + 4, r.ttl);
    lemma_read_u16_at(data, j + 8, len16);
    let rp = j + 10;
    assert forall|k: int| 0 <= k < rb.len() implies data[rp + k] == rb[k] by {
        assert(recb[name_b.len() + 10 + k] == (name_b + u16_bytes(r.atype) + u16_bytes(r.aclass)
            + u32_bytes(r.ttl) + u16_bytes(len16) + rb)[name_b.len() + 10 + k]);
    }
    assert(data.subrange(rp, rp + rb.len()) =~= rb);
    lemma_decode_rdata_encoded(data, rp, r.atype, r.rdata);
    assert(spec_decode_record(data, p)->Ok_0.0 =~= normalize_record(r));
    assert(p + recb.len() == rp + rb.len());
}

/// Decoding a question section from its own wire form gives the questions
/// back.
proof fn lemma_decode_questions_encoded(data: Seq<u8>, p: int, qs: Seq<QueryRecordV>)
    requires
        0 <= p,
        forall|i: int| 0 <= i < qs.len() ==> wf_question(#[trigger] qs[i]),
        p + spec_questions_bytes(qs).len() <= data.len(),
        data.subrange(p, p + spec_questions_bytes(qs).len()) == spec_questions_bytes(qs),
    ensures
        spec_decode_questions(data, p, qs.len() as int) == Ok::<_, DnsError>(
            (qs, p + spec_questions_bytes(qs).len()),
        ),
    decreases qs.len(),
{
    if qs.len() == 0 {
        assert(qs =~= Seq::<QueryRecordV>::empty());
    } else {
        let qb0 = spec_question_bytes(qs[0]);
        let rest = qs.skip(1);
        let restb = spec_questions_bytes(rest);
        assert(spec_questions_bytes(qs) == qb0 + restb);
        lemma_subrange_cat(data, p, qb0, restb);
        lemma_decode_question_encoded(data, p, qs[0]);
        assert forall|i: int| 0 <= i < rest.len() implies wf_question(#[trigger] rest[i]) by {
            assert(rest[i] == qs[i + 1]);
        }
        lemma_decode_questions_encoded(data, p + qb0.len(), rest);
        assert(seq![qs[0]] + rest =~= qs);
    }
}

/// Decoding a record section from its own wire form gives the records
/// back, their length fields recomputed.
proof fn lemma_decode_records_encoded(data: Seq<u8>, p: int, rs: Seq<AnswerRecordV>)
    requires
        0 <= p,
        forall|i: int| 0 <= i < rs.len() ==> wf_record(#[trigger] rs[i]),
        p + spec_records_bytes(rs).len() <= data.len(),
        data.subrange(p, p + spec_records_bytes(rs).len()) == spec_records_bytes(rs),
    ensures
        spec_decode_records(data, p, rs.len() as int) == Ok::<_, DnsError>(
            (rs.map_values(|r: AnswerRecordV| normalize_record(r)), p + spec_records_bytes(
                rs,
            ).len()),
        ),
    decreases rs.len(),
{
    if rs.len() == 0 {
        assert(rs.map_values(|r: AnswerRecordV| normalize_record(r))
            =~= Seq::<AnswerRecordV>::empty());
    } else {
        let rb0 = spec_record_bytes(rs[0]);
        let rest = rs.skip(1);
        let restb = spec_records_bytes(rest);
        assert(spec_records_bytes(rs) == rb0 + restb);
        lemma_subrange_cat(data, p, rb0, restb);
        lemma_decode_record_encoded(data, p, rs[0]);
        assert forall|i: int| 0 <= i < rest.len() implies wf_record(#[trigger] rest[i]) by {
            assert(rest[i] == rs[i + 1]);
        }
        lemma_decode_records_encoded(data, p + rb0.len(), rest);
        assert(seq![normalize_record(rs[0])] + rest.map_values(
            |r: AnswerRecordV| normalize_record(r),
        ) =~= rs.map_values(|r: AnswerRecordV| normalize_record(r)));
    }
}

/// The codec round trip: decoding a well-formed message's own wire form
/// gives the message back, with the count and length fields recomputed
/// from the sections they describe.
/// The six header reads of an encoded message's bytes find the
/// identifier, the packed flags, and the derived counts.
proof fn lemma_decode_header_encoded(data: Seq<u8>, m: DnsV)
    requires
        m.questions.len() <= 0xFFFF,
        m.answers.len() <= 0xFFFF,
        m.authorities.len() <= 0xFFFF,
        m.additionals.len() <= 0xFFFF,
        data.len() >= 12,
        data.subrange(0, 12) == spec_header_bytes(m),
    ensures
        spec_read_u16(data, 0) == Ok::<_, DnsBufferError>((m.header.id, 2int)),
        spec_read_u16(data, 2) == Ok::<_, DnsBufferError>(
            (spec_encode_flags(m.header.flags), 4int),
        ),
        spec_read_u16(data, 4) == Ok::<_, DnsBufferError>((m.questions.len() as u16, 6int)),
        spec_read_u16(data, 6) == Ok::<_, DnsBufferError>((m.answers.len() as u16, 8int)),
        spec_read_u16(data, 8) == Ok::<_, DnsBufferError>((m.authorities.len() as u16, 10int)),
        spec_read_u16(data, 10) == Ok::<_, DnsBufferError>((m.additionals.len() as u16, 12int)),
{
    let hb = spec_header_bytes(m);
    let id = m.header.id;
    let fl = spec_encode_flags(m.header.flags);
    let qd = m.questions.len() as u16;
    let an = m.answers.len() as u16;
    let ns = m.authorities.len() as u16;
    let ar = m.additionals.len() as u16;
    assert forall|k: int| 0 <= k < 12 implies data[k] == hb[k] by {
        assert(data.subrange(0, 12)[k] == data[k]);
    }
    assert(hb[0] == u16_hi(id) && hb[1] == u16_lo(id));
    assert(hb[2] == u16_hi(fl) && hb[3] == u16_lo(fl));
    assert(hb[4] == u16_hi(qd) && hb[5] == u16_lo(qd));
    assert(hb[6] == u16_hi(an) && hb[7] == u16_lo(an));
    assert(hb[8] == u16_hi(ns) && hb[9] == u16_lo(ns));
    assert(hb[10] == u16_hi(ar) && hb[11] == u16_lo(ar));
    lemma_read_u16_at(data, 0, id);
    lemma_read_u16_at(data, 2, fl);
    lemma_read_u16_at(data, 4, qd);
    lemma_read_u16_at(data, 6, an);
    lemma_read_u16_at(data, 8, ns);
    lemma_read_u16_at(data, 10, ar);
}

#[verifier::rlimit(100)]
pub proof fn lemma_codec_round_trip(m: DnsV)
    requires
        wf_msg(m),
    ensures
        spec_decode_dns(spec_dns_bytes(m), 0) == Ok::<_, DnsError>(
            (normalize_msg(m), spec_dns_bytes(m).len() as int),
        ),
{
    let bytes = spec_dns_bytes(m);
    let hb = spec_header_bytes(m);
    let qb = spec_questions_bytes(m.questions);
    let ab = spec_records_bytes(m.answers);
    let ub = spec_records_bytes(m.authorities);
    let db = spec_records_bytes(m.additionals);
    assert(hb.len() == 12);
    assert(bytes.subrange(0, bytes.len() as int) =~= bytes);
    assert(bytes =~= hb + (qb + (ab + (ub + db))));
    lemma_subrange_cat(bytes, 0, hb, qb + (ab + (ub + db)));
    lemma_subrange_cat(bytes, 12, qb, ab + (ub + db));
    lemma_subrange_cat(bytes, 12 + qb.len() as int, ab, ub + db);
    lemma_subrange_cat(bytes, 12 + qb.len() as int + ab.len() as int, ub, db);
    lemma_decode_header_encoded(bytes, m);
    lemma_flags_round_trip(m.header.flags);
    lemma_decode_questions_encoded(bytes, 12, m.questions);
    lemma_decode_records_encoded(bytes, 12 + qb.len() as int, m.answers);
    lemma_decode_records_encoded(bytes, 12 + qb.len() as int + ab.len() as int, m.authorities);
    lemma_decode_records_encoded(bytes, 12 + qb.len() as int + ab.len() as int + ub.len() as int, m.additionals);
    assert(spec_decode_dns(bytes, 0)->Ok_0.0 =~= normalize_msg(m));
    assert(bytes.len() == 12 + qb.len() + ab.len() + ub.len() + db.len());
}

impl Dns {
    /// Reads one resource data value, consuming exactly the stated length.
    fn decode_rdata(buf: &mut DnsReadBuffer, atype: u16, length: u16) -> (r: Result<
        RData,
        DnsError,
    >)
        ensures
            final(buf).data@ == old(buf).data@,
            match spec_decode_rdata(old(buf).data@, old(buf).index as int, atype, length) {
                Ok((rv, j)) => r matches Ok(rd) && rd@ == rv && final(buf).index == j,
                Err(e) => r == Err::<RData, DnsError>(e),
            },
    {
        if atype == 1 {
            let raw = match buf.read_n_bytes(length as usize) {
                Ok(raw) => raw,
                Err(_) => {
                    return Err(DnsError::InvalidField);
                },
            };
            if raw.len() != 4 {
                return Err(DnsError::InvalidRData);
            }
            let a = (raw[0] as u32) * 0x1000000 + (raw[1] as u32) * 0x10000 + (raw[2] as u32)
                * 0x100 + (raw[3] as u32);
            Ok(RData::A(a))
        } else if atype == 28 {
            let raw = match buf.read_n_bytes(length as usize) {
                Ok(raw) => raw,
                Err(_) => {
                    return Err(DnsError::InvalidField);
                },
            };
            if raw.len() != 16 {
                return Err(DnsError::InvalidRData);
            }
            let mut groups: Vec<u16> = Vec::new();
            let mut k: usize = 0;
            while k < 8
                invariant
                    k <= 8,
                    raw@.len() == 16,
                    groups@.len() == k,
                    forall|t: int|
                        0 <= t < k ==> #[trigger] groups@[t] == u16_of(raw@[2 * t], raw@[2 * t + 1]),
                decreases 8 - k,
            {
                let g = (raw[2 * k] as u16) * 256 + (raw[2 * k + 1] as u16);
                groups.push(g);
                k = k + 1;
            }
            proof {
                assert(groups@ =~= spec_groups_of(raw@));
            }
            Ok(RData::AAAA(groups))
        } else if atype == 2 || atype == 5 {
            let stat = buf.get_index();
            let name = match buf.read_str() {
                Ok(name) => name,
                Err(_) => {
                    return Err(DnsError::InvalidField);
                },
            };
            let consumed = buf.get_index() - stat;
            if consumed > length as usize {
                return Err(DnsError::InvalidRData);
            }
            let residual = length as usize - consumed;
            if residual > buf.data.len() - buf.get_index() {
                return Err(DnsError::InvalidField);
            }
            let end = buf.get_index() + residual;
            match buf.set_index(end) {
                Ok(_) => {},
                Err(_) => {
                    return Err(DnsError::InvalidField);
                },
            }
            if atype == 2 {
                Ok(RData::NS(name))
            } else {
                Ok(RData::CNAME(name))
            }
        } else {
            let raw = match buf.read_n_bytes(length as usize) {
                Ok(raw) => raw,
                Err(_) => {
                    return Err(DnsError::InvalidField);
                },
            };
            let bytes = vstd::slice::slice_to_vec(raw);
            Ok(RData::Opaque(bytes))
        }
    }

    /// Reads `count` questions in sequence.
    fn decode_questions(buf: &mut DnsReadBuffer, count: u16) -> (r: Result<
        Vec<QueryRecord>,
        DnsError,
    >)
        ensures
            final(buf).data@ == old(buf).data@,
            match spec_decode_questions(old(buf).data@, old(buf).index as int, count as int) {
                Ok((qs, j)) => r matches Ok(v) && crate::types::questions_view(v@) == qs
                    && final(buf).index == j,
                Err(e) => r == Err::<Vec<QueryRecord>, DnsError>(e),
            },
    {
        let ghost data = buf.data@;
        let ghost start = buf.index as int;
        let mut records: Vec<QueryRecord> = Vec::new();
        let mut c: u16 = 0;
        proof {
            assert(crate::types::questions_view(records@) =~= Seq::<QueryRecordV>::empty());
        }
        while c < count
            invariant
                c <= count,
                buf.data@ == data,
                data == old(buf).data@,
                start == old(buf).index as int,
                spec_decode_questions(data, start, count as int) == (match spec_decode_questions(
                    data,
                    buf.index as int,
                    count - c,
                ) {
                    Ok((qs, j)) => Ok::<_, DnsError>(
                        (crate::types::questions_view(records@) + qs, j),
                    ),
                    Err(e) => Err(e),
                }),
            decreases count - c,
        {
            let ghost acc = crate::types::questions_view(records@);
            let qname = match buf.read_str() {
                Ok(qname) => qname,
                Err(_) => {
                    return Err(DnsError::InvalidField);
                },
            };
            let qtype = match buf.read_u16() {
                Ok(v) => v,
                Err(_) => {
                    return Err(DnsError::InvalidField);
                },
            };
            let qclass = match buf.read_u16() {
                Ok(v) => v,
                Err(_) => {
                    return Err(DnsError::InvalidField);
                },
            };
            records.push(QueryRecord { qname, qtype, qclass });
            c = c + 1;
            proof {
                let qv = records@.last()@;
                assert(crate::types::questions_view(records@) =~= acc.push(qv));
                match spec_decode_questions(data, buf.index as int, count - c) {
                    Ok((qs, j)) => {
                        assert(acc + (seq![qv] + qs) =~= acc.push(qv) + qs);
                    },
                    Err(_) => {},
                }
            }
        }
        proof {
            match spec_decode_questions(data, buf.index as int, 0) {
                Ok((qs, j)) => {
                    assert(crate::types::questions_view(records@) + qs =~= crate::types::questions_view(
                        records@,
                    ));
                },
                Err(_) => {},
            }
        }
        Ok(records)
    }

    /// Reads `count` records in sequence.
    fn decode_answers(buf: &mut DnsReadBuffer, count: u16) -> (r: Result<
        Vec<AnswerRecord>,
        DnsError,
    >)
        ensures
            final(buf).data@ == old(buf).data@,
            match spec_decode_records(old(buf).data@, old(buf).index as int, count as int) {
                Ok((rs, j)) => r matches Ok(v) && crate::types::records_view(v@) == rs
                    && final(buf).index == j,
                Err(e) => r == Err::<Vec<AnswerRecord>, DnsError>(e),
            },
    {
        let ghost data = buf.data@;
        let ghost start = buf.index as int;
        let mut records: Vec<AnswerRecord> = Vec::new();
        let mut c: u16 = 0;
        proof {
            assert(crate::types::records_view(records@) =~= Seq::<AnswerRecordV>::empty());
        }
        while c < count
            invariant
                c <= count,
                buf.data@ == data,
                data == old(buf).data@,
                start == old(buf).index as int,
                spec_decode_records(data, start, count as int) == (match spec_decode_records(
                    data,
                    buf.index as int,
                    count - c,
                ) {
                    Ok((rs, j)) => Ok::<_, DnsError>(
                        (crate::types::records_view(records@) + rs, j),
                    ),
                    Err(e) => Err(e),
                }),
            decreases count - c,
        {
            let ghost acc = crate::types::records_view(records@);
            let aname = match buf.read_str() {
                Ok(aname) => aname,
                Err(_) => {
                    return Err(DnsError::InvalidField);
                },
            };
            let atype = match buf.read_u16() {
                Ok(v) => v,
                Err(_) => {
                    return Err(DnsError::InvalidField);
                },
            };
            let aclass = match buf.read_u16() {
                Ok(v) => v,
                Err(_) => {
                    return Err(DnsError::InvalidField);
                },
            };
            let ttl = match buf.read_u32() {
                Ok(v) => v,
                Err(_) => {
                    return Err(DnsError::InvalidField);
                },
            };
            let length = match buf.read_u16() {
                Ok(v) => v,
                Err(_) => {
                    return Err(DnsError::InvalidField);
                },
            };
            let rdata = match Self::decode_rdata(buf, atype, length) {
                Ok(rdata) => rdata,
                Err(e) => {
                    return Err(e);
                },
            };
            records.push(AnswerRecord { aname, atype, aclass, ttl, length, rdata });
            c = c + 1;
            proof {
                let rv = records@.last()@;
                assert(crate::types::records_view(records@) =~= acc.push(rv));
                match spec_decode_records(data, buf.index as int, count - c) {
                    Ok((rs, j)) => {
                        assert(acc + (seq![rv] + rs) =~= acc.push(rv) + rs);
                    },
                    Err(_) => {},
                }
            }
        }
        proof {
            match spec_decode_records(data, buf.index as int, 0) {
                Ok((rs, j)) => {
                    assert(crate::types::records_view(records@) + rs =~= crate::types::records_view(
                        records@,
                    ));
                },
                Err(_) => {},
            }
        }
        Ok(records)
    }

    /// Decodes a whole message from the reader's position: the header,
    /// then as many questions and records as its counts claim. A count
    /// the body cannot honour is an error, as is any malformed name or
    /// record.
    pub fn decode(buf: &mut DnsReadBuffer) -> (r: Result<Dns, DnsError>)
        ensures
            final(buf).data@ == old(buf).data@,
            match spec_decode_dns(old(buf).data@, old(buf).index as int) {
                Ok((m, j)) => r matches Ok(d) && d@ == m && final(buf).index == j,
                Err(e) => r == Err::<Dns, DnsError>(e),
            },
    {
        let id = match buf.read_u16() {
            Ok(v) => v,
            Err(_) => {
                return Err(DnsError::InvalidField);
            },
        };
        let flags_raw = match buf.read_u16() {
            Ok(v) => v,
            Err(_) => {
                return Err(DnsError::InvalidField);
            },
        };
        let qd_count = match buf.read_u16() {
            Ok(v) => v,
            Err(_) => {
                return Err(DnsError::InvalidField);
            },
        };
        let an_count = match buf.read_u16() {
            Ok(v) => v,
            Err(_) => {
                return Err(DnsError::InvalidField);
            },
        };
        let ns_count = match buf.read_u16() {
            Ok(v) => v,
            Err(_) => {
                return Err(DnsError::InvalidField);
            },
        };
        let ar_count = match buf.read_u16() {
            Ok(v) => v,
            Err(_) => {
                return Err(DnsError::InvalidField);
            },
        };
        let flags = Self::decode_flags(flags_raw);
        let questions = match Self::decode_questions(buf, qd_count) {
            Ok(v) => v,
            Err(e) => {
                return Err(e);
            },
        };
        let answers = match Self::decode_answers(buf, an_count) {
            Ok(v) => v,
            Err(e) => {
                return Err(e);
            },
        };
        let authorities = match Self::decode_answers(buf, ns_count) {
            Ok(v) => v,
            Err(e) => {
                return Err(e);
            },
        };
        let additionals = match Self::decode_answers(buf, ar_count) {
            Ok(v) => v,
            Err(e) => {
                return Err(e);
            },
        };
        Ok(
            Dns {
                header: Header { id, flags, qd_count, an_count, ns_count, ar_count },
                questions,
                answers,
                authorities,
                additionals,
            },
        )
    }
}

} // verus!
