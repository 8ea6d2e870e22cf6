//! The in-memory model of a DNS message: header, flags, questions and
//! resource records, with record data as a closed tagged variant.

use vstd::prelude::*;

use crate::name::{labels_view, DnsName};

verus! {

/// Bitfield flags of a DNS header.
#[derive(Debug, Clone, Copy, PartialEq, Eq, Structural)]
pub struct Flags {
    /// Query (`false`) or response (`true`).
    pub qr: bool,
    /// Operation code; 0 is a standard query. Four bits.
    pub opcode: u8,
    /// Authoritative answer.
    pub aa: bool,
    /// Truncated.
    pub tc: bool,
    /// Recursion desired.
    pub rd: bool,
    /// Recursion available.
    pub ra: bool,
    /// Reserved; zero on send. Three bits.
    pub z: u8,
    /// Response code. Four bits.
    pub rcode: u8,
}

/// Every flag field within the bit width the packing gives it.
pub open spec fn flags_in_range(f: Flags) -> bool {
    &&& f.opcode < 16
    &&& f.z < 8
    &&& f.rcode < 16
}

/// A DNS message header.
#[derive(Debug, Clone, Copy, PartialEq, Eq, Structural)]
pub struct Header {
    /// Transaction identifier.
    pub id: u16,
    /// The packed flag fields.
    pub flags: Flags,
    /// Entries in the question section.
    pub qd_count: u16,
    /// Records in the answer section.
    pub an_count: u16,
    /// Records in the authority section.
    pub ns_count: u16,
    /// Records in the additional section.
    pub ar_count: u16,
}

/// One question: a name, a type, a class.
#[derive(Debug, Clone, PartialEq, Eq)]
pub struct QueryRecord {
    /// The name asked about.
    pub qname: DnsName,
    /// The record type asked for.
    pub qtype: u16,
    /// The class asked in; 1 is the Internet.
    pub qclass: u16,
}

/// The abstract value of a question.
#[verifier::ext_equal]
pub struct QueryRecordV {
    /// The name asked about, as its label sequence.
    pub qname: Seq<Seq<u8>>,
    /// The record type asked for.
    pub qtype: u16,
    /// The class asked in.
    pub qclass: u16,
}

impl View for QueryRecord {
    type V = QueryRecordV;

    open spec fn view(&self) -> QueryRecordV {
        QueryRecordV { qname: self.qname@, qtype: self.qtype, qclass: self.qclass }
    }
}

/// Resource data: the typed payload of a record.
#[derive(Debug, Clone, PartialEq, Eq)]
pub enum RData {
    /// An IPv4 address, as one big-endian 32-bit value.
    A(u32),
    /// An IPv6 address, as its eight big-endian 16-bit groups.
    AAAA(Vec<u16>),
    /// A name server's name.
    NS(DnsName),
    /// A canonical-name alias target.
    CNAME(DnsName),
    /// Any other record type's payload, kept as raw bytes.
    Opaque(Vec<u8>),
}

/// The abstract value of resource data.
#[verifier::ext_equal]
pub enum RDataV {
    /// An IPv4 address.
    A(u32),
    /// An IPv6 address, as eight 16-bit groups.
    AAAA(Seq<u16>),
    /// A name server's name.
    NS(Seq<Seq<u8>>),
    /// An alias target.
    CNAME(Seq<Seq<u8>>),
    /// Raw payload bytes.
    Opaque(Seq<u8>),
}

impl View for RData {
    type V = RDataV;

    open spec fn view(&self) -> RDataV {
        match self {
            RData::A(a) => RDataV::A(*a),
            RData::AAAA(groups) => RDataV::AAAA(groups@),
            RData::NS(n) => RDataV::NS(n@),
            RData::CNAME(n) => RDataV::CNAME(n@),
            RData::Opaque(b) => RDataV::Opaque(b@),
        }
    }
}

/// A resource record of the answer, authority or additional section.
#[derive(Debug, Clone, PartialEq, Eq)]
pub struct AnswerRecord {
    /// The name the record pertains to.
    pub aname: DnsName,
    /// The 16-bit record type code.
    pub atype: u16,
    /// The record class; 1 is the Internet.
    pub aclass: u16,
    /// Time to live, in seconds.
    pub ttl: u32,
    /// The length of the resource data on the wire.
    pub length: u16,
    /// The resource data.
    pub rdata: RData,
}

/// The abstract value of a resource record.
#[verifier::ext_equal]
pub struct AnswerRecordV {
    /// The name the record pertains to.
    pub aname: Seq<Seq<u8>>,
    /// The 16-bit record type code.
    pub atype: u16,
    /// The record class.
    pub aclass: u16,
    /// Time to live, in seconds.
    pub ttl: u32,
    /// The length of the resource data on the wire.
    pub length: u16,
    /// The resource data.
    pub rdata: RDataV,
}

impl View for AnswerRecord {
    type V = AnswerRecordV;

    open spec fn view(&self) -> AnswerRecordV {
        AnswerRecordV {
            aname: self.aname@,
            atype: self.atype,
            aclass: self.aclass,
            ttl: self.ttl,
            length: self.length,
            rdata: self.rdata@,
        }
    }
}

/// The abstract value of a list of questions.
pub open spec fn questions_view(qs: Seq<QueryRecord>) -> Seq<QueryRecordV> {
    qs.map_values(|q: QueryRecord| q@)
}

/// The abstract value of a list of records.
pub open spec fn records_view(rs: Seq<AnswerRecord>) -> Seq<AnswerRecordV> {
    rs.map_values(|r: AnswerRecord| r@)
}

/// A DNS message: header and the four sections.
#[derive(Debug, Clone, PartialEq, Eq)]
pub struct Dns {
    /// The header.
    pub header: Header,
    /// The question section.
    pub questions: Vec<QueryRecord>,
    /// The answer section.
    pub answers: Vec<AnswerRecord>,
    /// The authority section.
    pub authorities: Vec<AnswerRecord>,
    /// The additional section.
    pub additionals: Vec<AnswerRecord>,
}

/// The abstract value of a DNS message.
#[verifier::ext_equal]
pub struct DnsV {
    /// The header.
    pub header: Header,
    /// The question section.
    pub questions: Seq<QueryRecordV>,
    /// The answer section.
    pub answers: Seq<AnswerRecordV>,
    /// The authority section.
    pub authorities: Seq<AnswerRecordV>,
    /// The additional section.
    pub additionals: Seq<AnswerRecordV>,
}

impl View for Dns {
    type V = DnsV;

    open spec fn view(&self) -> DnsV {
        DnsV {
            header: self.header,
            questions: questions_view(self.questions@),
            answers: records_view(self.answers@),
            authorities: records_view(self.authorities@),
            additionals: records_view(self.additionals@),
        }
    }
}

/// Errors of the message codec.
#[derive(Debug, Clone, Copy, PartialEq, Eq, Structural)]
pub enum DnsError {
    /// A header, question or record field could not be read.
    InvalidField,
    /// Resource data disagreed with its type or its stated length.
    InvalidRData,
}

/// The record types this resolver distinguishes.
#[derive(Debug, Clone, Copy, PartialEq, Eq, Structural)]
pub enum Type {
    /// An IPv4 address record.
    A,
    /// A name-server record.
    NS,
    /// A canonical-name record.
    CNAME,
    /// A start-of-authority record.
    SOA,
    /// A pointer record.
    PTR,
    /// A mail-exchange record.
    MX,
    /// A text record.
    TXT,
    /// An IPv6 address record.
    AAAA,
}

/// The record type a 16-bit type code names, if this resolver knows it.
pub open spec fn spec_type_from_u16(value: u16) -> Option<Type> {
    if value == 1 {
        Some(Type::A)
    } else if value == 2 {
        Some(Type::NS)
    } else if value == 5 {
        Some(Type::CNAME)
    } else if value == 6 {
        Some(Type::SOA)
    } else if value == 12 {
        Some(Type::PTR)
    } else if value == 15 {
        Some(Type::MX)
    } else if value == 16 {
        Some(Type::TXT)
    } else if value == 28 {
        Some(Type::AAAA)
    } else {
        None
    }
}

impl Type {
    /// The record type a 16-bit type code names, if known.
    pub fn from_u16(value: u16) -> (r: Option<Type>)
        ensures
            r == spec_type_from_u16(value),
    {
        match value {
            1 => Some(Type::A),
            2 => Some(Type::NS),
            5 => Some(Type::CNAME),
            6 => Some(Type::SOA),
            12 => Some(Type::PTR),
            15 => Some(Type::MX),
            16 => Some(Type::TXT),
            28 => Some(Type::AAAA),
            _ => None,
        }
    }

    /// The 16-bit type code of this record type.
    pub fn code(&self) -> (r: u16)
        ensures
            spec_type_from_u16(r) == Some(*self),
    {
        match self {
            Type::A => 1,
            Type::NS => 2,
            Type::CNAME => 5,
            Type::SOA => 6,
            Type::PTR => 12,
            Type::MX => 15,
            Type::TXT => 16,
            Type::AAAA => 28,
        }
    }
}

impl RData {
    /// The contained IPv4 address, if this is an address record.
    pub fn as_a(&self) -> (r: Option<u32>)
        ensures
            r == (match self@ {
                RDataV::A(a) => Some(a),
                _ => None::<u32>,
            }),
    {
        if let RData::A(a) = self {
            Some(*a)
        } else {
            None
        }
    }

    /// The contained IPv6 groups, if this is an IPv6 address record.
    pub fn as_aaaa(&self) -> (r: Option<&Vec<u16>>)
        ensures
            match self@ {
                RDataV::AAAA(groups) => r matches Some(g) && g@ == groups,
                _ => r is None,
            },
    {
        if let RData::AAAA(groups) = self {
            Some(groups)
        } else {
            None
        }
    }

    /// The contained name, if this is a name-server record.
    pub fn as_ns(&self) -> (r: Option<&DnsName>)
        ensures
            match self@ {
                RDataV::NS(n) => r matches Some(name) && name@ == n,
                _ => r is None,
            },
    {
        if let RData::NS(name) = self {
            Some(name)
        } else {
            None
        }
    }

    /// The contained alias target, if this is a canonical-name record.
    pub fn as_cname(&self) -> (r: Option<&DnsName>)
        ensures
            match self@ {
                RDataV::CNAME(n) => r matches Some(name) && name@ == n,
                _ => r is None,
            },
    {
        if let RData::CNAME(name) = self {
            Some(name)
        } else {
            None
        }
    }
}

impl QueryRecord {
    /// A question from its parts.
    pub fn new(qname: DnsName, qtype: u16, qclass: u16) -> (r: Self)
        ensures
            r@ == (QueryRecordV { qname: qname@, qtype, qclass }),
    {
        QueryRecord { qname, qtype, qclass }
    }
}

impl Dns {
    /// A message from all its parts.
    pub fn new(
        id: u16,
        flags: Flags,
        qd_count: u16,
        an_count: u16,
        ns_count: u16,
        ar_count: u16,
        questions: Vec<QueryRecord>,
        answers: Vec<AnswerRecord>,
        authorities: Vec<AnswerRecord>,
        additionals: Vec<AnswerRecord>,
    ) -> (r: Self)
        ensures
            r@ == (DnsV {
                header: Header { id, flags, qd_count, an_count, ns_count, ar_count },
                questions: questions_view(questions@),
                answers: records_view(answers@),
                authorities: records_view(authorities@),
                additionals: records_view(additionals@),
            }),
    {
        Dns {
            header: Header { id, flags, qd_count, an_count, ns_count, ar_count },
            questions,
            answers,
            authorities,
            additionals,
        }
    }

    /// A fresh standard query asking for the A records of a name: one
    /// question, no recursion requested, all other sections empty.
    pub fn new_a_question(domain: &DnsName, id: u16) -> (r: Self)
        ensures
            r.header == (Header {
                id,
                flags: Flags {
                    qr: false,
                    opcode: 0,
                    aa: false,
                    tc: false,
                    rd: false,
                    ra: false,
                    z: 0,
                    rcode: 0,
                },
                qd_count: 1,
                an_count: 0,
                ns_count: 0,
                ar_count: 0,
            }),
            r@.questions =~= seq![QueryRecordV { qname: domain@, qtype: 1, qclass: 1 }],
            r@.answers =~= Seq::<AnswerRecordV>::empty(),
            r@.authorities =~= Seq::<AnswerRecordV>::empty(),
            r@.additionals =~= Seq::<AnswerRecordV>::empty(),
    {
        let flags = Flags {
            qr: false,
            opcode: 0,
            aa: false,
            tc: false,
            rd: false,
            ra: false,
            z: 0,
            rcode: 0,
        };
        let mut questions: Vec<QueryRecord> = Vec::new();
        questions.push(QueryRecord::new(domain.duplicate(), 1, 1));
        let r = Dns::new(id, flags, 1, 0, 0, 0, questions, Vec::new(), Vec::new(), Vec::new());
        proof {
            assert(r@.questions =~= seq![QueryRecordV { qname: domain@, qtype: 1, qclass: 1 }]);
            assert(r@.answers =~= Seq::<AnswerRecordV>::empty());
            assert(r@.authorities =~= Seq::<AnswerRecordV>::empty());
            assert(r@.additionals =~= Seq::<AnswerRecordV>::empty());
        }
        r
    }

    /// Appends a question and keeps the stored count in step.
    pub fn add_question(&mut self, question: QueryRecord)
        requires
            old(self).questions@.len() < 0xFFFF,
        ensures
            final(self)@.questions == old(self)@.questions.push(question@),
            final(self).header == (Header {
                qd_count: (old(self).questions@.len() + 1) as u16,
                ..old(self).header
            }),
            final(self)@.answers == old(self)@.answers,
            final(self)@.authorities == old(self)@.authorities,
            final(self)@.additionals == old(self)@.additionals,
    {
        self.questions.push(question);
        self.header.qd_count = self.questions.len() as u16;
        proof {
            assert(self@.questions =~= old(self)@.questions.push(self.questions@.last()@));
        }
    }

    /// Appends an answer record and keeps the stored count in step.
    pub fn add_answer(&mut self, answer: AnswerRecord)
        requires
            old(self).answers@.len() < 0xFFFF,
        ensures
            final(self)@.answers == old(self)@.answers.push(answer@),
            final(self).header == (Header {
                an_count: (old(self).answers@.len() + 1) as u16,
                ..old(self).header
            }),
            final(self)@.questions == old(self)@.questions,
            final(self)@.authorities == old(self)@.authorities,
            final(self)@.additionals == old(self)@.additionals,
    {
        self.answers.push(answer);
        self.header.an_count = self.answers.len() as u16;
        proof {
            assert(self@.answers =~= old(self)@.answers.push(self.answers@.last()@));
        }
    }

    /// Appends an authority record and keeps the stored count in step.
    pub fn add_authority(&mut self, authority: AnswerRecord)
        requires
            old(self).authorities@.len() < 0xFFFF,
        ensures
            final(self)@.authorities == old(self)@.authorities.push(authority@),
            final(self).header == (Header {
                ns_count: (old(self).authorities@.len() + 1) as u16,
                ..old(self).header
            }),
            final(self)@.questions == old(self)@.questions,
            final(self)@.answers == old(self)@.answers,
            final(self)@.additionals == old(self)@.additionals,
    {
        self.authorities.push(authority);
        self.header.ns_count = self.authorities.len() as u16;
        proof {
            assert(self@.authorities =~= old(self)@.authorities.push(self.authorities@.last()@));
        }
    }

    /// Appends an additional record and keeps the stored count in step.
    pub fn add_additional(&mut self, additional: AnswerRecord)
        requires
            old(self).additionals@.len() < 0xFFFF,
        ensures
            final(self)@.additionals == old(self)@.additionals.push(additional@),
            final(self).header == (Header {
                ar_count: (old(self).additionals@.len() + 1) as u16,
                ..old(self).header
            }),
            final(self)@.questions == old(self)@.questions,
            final(self)@.answers == old(self)@.answers,
            final(self)@.authorities == old(self)@.authorities,
    {
        self.additionals.push(additional);
        self.header.ar_count = self.additionals.len() as u16;
        proof {
            assert(self@.additionals =~= old(self)@.additionals.push(self.additionals@.last()@));
        }
    }
}

} // verus!
