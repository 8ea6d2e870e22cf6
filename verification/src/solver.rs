//! Root-server selection, referral bookkeeping, and response composition:
//! the decisions of the fixed root-to-authority pipeline, kept apart from
//! the sockets that carry them out.

use vstd::prelude::*;

use crate::codec::encodable_rdata;
use crate::name::DnsName;
use crate::resolver::ResolvedSet;
use crate::types::{records_view, AnswerRecord, AnswerRecordV, Dns, Flags, RData, RDataV};

verus! {

/// The 13 well-known root servers, as big-endian IPv4 addresses, in their
/// customary order.
pub open spec fn spec_root_servers() -> Seq<u32> {
    seq![
        0xC6290004u32,
        0xC7090EC9u32,
        0xC021040Cu32,
        0xC7075B0Du32,
        0xC0CBE60Au32,
        0xC00505F1u32,
        0xC0702404u32,
        0xC661BE35u32,
        0xC0249411u32,
        0xC03A801Eu32,
        0xC1000E81u32,
        0xC707532Au32,
        0xCA0C1B21u32,
    ]
}

/// The root-server list.
pub fn root_servers() -> (r: Vec<u32>)
    ensures
        r@ == spec_root_servers(),
{
    let mut v: Vec<u32> = Vec::new();
    v.push(0xC6290004);
    v.push(0xC7090EC9);
    v.push(0xC021040C);
    v.push(0xC7075B0D);
    v.push(0xC0CBE60A);
    v.push(0xC00505F1);
    v.push(0xC0702404);
    v.push(0xC661BE35);
    v.push(0xC0249411);
    v.push(0xC03A801E);
    v.push(0xC1000E81);
    v.push(0xC707532A);
    v.push(0xCA0C1B21);
    proof {
        assert(v@ =~= spec_root_servers());
    }
    v
}

/// Relies on rand::random: a 64-bit value from the thread-local
/// generator. Nothing is promised of it.
#[verifier::external_body]
fn random_u64() -> u64 {
    rand::random::<u64>()
}

/// Relies on rand::random: a 16-bit value from the thread-local
/// generator. Nothing is promised of it.
#[verifier::external_body]
fn random_u16() -> u16 {
    rand::random::<u16>()
}

/// One of the 13 well-known root servers, picked uniformly at random.
pub fn pick_root_server() -> (r: u32)
    ensures
        spec_root_servers().contains(r),
{
    let roots = root_servers();
    let n = random_u64();
    let idx = (n % 13) as usize;
    let r = roots[idx];
    proof {
        assert(spec_root_servers()[idx as int] == r);
    }
    r
}

/// A fresh transaction identifier for an outgoing query. Randomized, so
/// nothing is promised of its value.
pub fn fresh_query_id() -> u16 {
    random_u16()
}

/// The first additional record, in wire order, that names a server (a
/// non-root name) and carries an IPv4 address: where a referral's glue
/// points next.
pub open spec fn spec_server_ip(rs: Seq<AnswerRecordV>) -> Option<(Seq<Seq<u8>>, u32)>
    decreases rs.len(),
{
    if rs.len() == 0 {
        None
    } else if rs[0].aname.len() > 0 && rs[0].rdata is A {
        Some((rs[0].aname, rs[0].rdata->A_0))
    } else {
        spec_server_ip(rs.skip(1))
    }
}

/// Finds the first additional record with a non-root name and an IPv4
/// address: the glue a referral offers.
pub fn extract_server_ip(additionals: &Vec<AnswerRecord>) -> (r: Option<(DnsName, u32)>)
    ensures
        match r {
            Some((name, addr)) => spec_server_ip(records_view(additionals@)) == Some(
                (name@, addr),
            ),
            None => spec_server_ip(records_view(additionals@)) is None,
        },
{
    let ghost view = records_view(additionals@);
    let mut i: usize = 0;
    proof {
        assert(view.skip(0) =~= view);
    }
    while i < additionals.len()
        invariant
            i <= additionals.len(),
            view == records_view(additionals@),
            view.len() == additionals@.len(),
            spec_server_ip(view) == spec_server_ip(view.skip(i as int)),
        decreases additionals.len() - i,
    {
        let ghost rest = view.skip(i as int);
        proof {
            assert(view[i as int] == additionals@[i as int]@);
            assert(rest[0] == view[i as int]);
            assert(rest.skip(1) =~= view.skip(i as int + 1));
        }
        let a = &additionals[i];
        if a.aname.label_count() > 0 {
            match &a.rdata {
                RData::A(addr) => {
                    return Some((a.aname.duplicate(), *addr));
                },
                _ => {},
            }
        }
        i = i + 1;
    }
    proof {
        assert(view.skip(additionals@.len() as int) =~= Seq::<AnswerRecordV>::empty());
    }
    None
}

/// The EDNS0 OPT pseudo-record announcing a 4096-byte UDP payload: the
/// root name, type 41, the payload size in the class field, zero time to
/// live, and empty data.
pub fn opt_record() -> (r: AnswerRecord)
    ensures
        r@ == (AnswerRecordV {
            aname: Seq::empty(),
            atype: 41,
            aclass: 4096,
            ttl: 0,
            length: 0,
            rdata: RDataV::Opaque(Seq::empty()),
        }),
{
    let r = AnswerRecord {
        aname: DnsName::root(),
        atype: 41,
        aclass: 4096,
        ttl: 0,
        length: 0,
        rdata: RData::Opaque(Vec::new()),
    };
    proof {
        assert(r@ =~~= (AnswerRecordV {
            aname: Seq::empty(),
            atype: 41,
            aclass: 4096,
            ttl: 0,
            length: 0,
            rdata: RDataV::Opaque(Seq::empty()),
        }));
    }
    r
}

/// The flags of a successful authoritative response to a client.
pub fn response_flags() -> (r: Flags)
    ensures
        r == (Flags {
            qr: true,
            opcode: 0,
            aa: true,
            tc: false,
            rd: true,
            ra: true,
            z: 0,
            rcode: 0,
        }),
{
    Flags { qr: true, opcode: 0, aa: true, tc: false, rd: true, ra: true, z: 0, rcode: 0 }
}

/// The answer record a resolved IPv4 address contributes.
pub open spec fn spec_v4_answer(qname: Seq<Seq<u8>>, addr: u32) -> AnswerRecordV {
    AnswerRecordV { aname: qname, atype: 1, aclass: 1, ttl: 300, length: 4, rdata: RDataV::A(addr) }
}

/// The answer record a resolved IPv6 address contributes.
pub open spec fn spec_v6_answer(qname: Seq<Seq<u8>>, groups: Seq<u16>) -> AnswerRecordV {
    AnswerRecordV {
        aname: qname,
        atype: 28,
        aclass: 1,
        ttl: 300,
        length: 16,
        rdata: RDataV::AAAA(groups),
    }
}

/// The answer record a traversed alias contributes.
pub open spec fn spec_cname_answer(qname: Seq<Seq<u8>>, target: Seq<Seq<u8>>) -> AnswerRecordV {
    AnswerRecordV {
        aname: qname,
        atype: 5,
        aclass: 1,
        ttl: 300,
        length: crate::name::spec_name_bytes(target).len() as u16,
        rdata: RDataV::CNAME(target),
    }
}

/// Builds the response to a client from a finished resolution: response
/// flags set; one answer per resolved IPv4 address, then per IPv6
/// address, then per traversed alias, all named by the question; and the
/// answer count derived. The question and the other sections stay.
pub fn compose_response(req: &mut Dns, qname: &DnsName, set: &ResolvedSet)
    requires
        old(req).answers@.len() + set@.v4.len() + set@.v6.len() + set@.cnames.len() <= 0xFFFF,
        forall|k: int| 0 <= k < set@.v6.len() ==> (#[trigger] set@.v6[k]).len() == 8,
        forall|k: int|
            0 <= k < set@.cnames.len() ==> encodable_rdata(
                RDataV::CNAME(#[trigger] set@.cnames[k]),
            ),
    ensures
        final(req).header.id == old(req).header.id,
        final(req).header.flags == (Flags {
            qr: true,
            opcode: 0,
            aa: true,
            tc: false,
            rd: true,
            ra: true,
            z: 0,
            rcode: 0,
        }),
        final(req).header.qd_count == old(req).header.qd_count,
        final(req).header.ns_count == old(req).header.ns_count,
        final(req).header.ar_count == old(req).header.ar_count,
        final(req)@.questions == old(req)@.questions,
        final(req)@.authorities == old(req)@.authorities,
        final(req)@.additionals == old(req)@.additionals,
        final(req)@.answers.len() == old(req)@.answers.len() + set@.v4.len() + set@.v6.len()
            + set@.cnames.len(),
        forall|k: int|
            0 <= k < old(req)@.answers.len() ==> #[trigger] final(req)@.answers[k] == old(
                req,
            )@.answers[k],
        forall|k: int|
            0 <= k < set@.v4.len() ==> #[trigger] final(req)@.answers[old(req)@.answers.len() + k]
                == spec_v4_answer(qname@, set@.v4[k]),
        forall|k: int|
            0 <= k < set@.v6.len() ==> #[trigger] final(req)@.answers[old(req)@.answers.len()
                + set@.v4.len() + k] == spec_v6_answer(qname@, set@.v6[k]),
        forall|k: int|
            0 <= k < set@.cnames.len() ==> #[trigger] final(req)@.answers[old(
                req,
            )@.answers.len() + set@.v4.len() + set@.v6.len() + k] == spec_cname_answer(
                qname@,
                set@.cnames[k],
            ),
        final(req).header.an_count == old(req)@.answers.len() + set@.v4.len() + set@.v6.len()
            + set@.cnames.len(),
{
    let ghost base = old(req)@.answers.len();
    let ghost nv4 = set@.v4.len();
    let ghost nv6 = set@.v6.len();
    let ghost ncn = set@.cnames.len();
    req.header.flags = response_flags();
    let mut i: usize = 0;
    while i < set.v4.len()
        invariant
            i <= set@.v4.len(),
            base + nv4 + nv6 + ncn <= 0xFFFF,
            base == old(req)@.answers.len(),
            nv4 == set@.v4.len(),
            nv6 == set@.v6.len(),
            ncn == set@.cnames.len(),
            req@.answers.len() == base + i,
            req.header.id == old(req).header.id,
            req.header.flags == (Flags {
                qr: true,
                opcode: 0,
                aa: true,
                tc: false,
                rd: true,
                ra: true,
                z: 0,
                rcode: 0,
            }),
            req.header.qd_count == old(req).header.qd_count,
            req.header.ns_count == old(req).header.ns_count,
            req.header.ar_count == old(req).header.ar_count,
            req@.questions == old(req)@.questions,
            req@.authorities == old(req)@.authorities,
            req@.additionals == old(req)@.additionals,
            forall|k: int|
                0 <= k < base ==> #[trigger] req@.answers[k] == old(req)@.answers[k],
            forall|k: int|
                0 <= k < i ==> #[trigger] req@.answers[base + k] == spec_v4_answer(
                    qname@,
                    set@.v4[k],
                ),
        decreases set@.v4.len() - i,
    {
        let rec = AnswerRecord::new(qname.duplicate(), RData::A(set.v4[i]));
        let ghost prev = req.answers@;
        let ghost prev_view = req@.answers;
        req.answers.push(rec);
        i = i + 1;
        proof {
            assert forall|k: int| 0 <= k < prev.len() implies #[trigger] req@.answers[k]
                == prev_view[k] by {
                assert(req@.answers[k] == req.answers@[k]@);
                assert(prev_view[k] == prev[k]@);
                assert(req.answers@[k] == prev[k]);
            }
            assert(req@.answers[prev.len() as int] == req.answers@.last()@);
            assert(req.answers@.last()@ =~~= spec_v4_answer(qname@, set@.v4[i - 1]));
        }
    }
    let mut i: usize = 0;
    while i < set.v6.len()
        invariant
            i <= set@.v6.len(),
            base + nv4 + nv6 + ncn <= 0xFFFF,
            base == old(req)@.answers.len(),
            nv4 == set@.v4.len(),
            nv6 == set@.v6.len(),
            ncn == set@.cnames.len(),
            forall|k: int| 0 <= k < set@.v6.len() ==> (#[trigger] set@.v6[k]).len() == 8,
            req@.answers.len() == base + nv4 + i,
            req.header.id == old(req).header.id,
            req.header.flags == (Flags {
                qr: true,
                opcode: 0,
                aa: true,
                tc: false,
                rd: true,
                ra: true,
                z: 0,
                rcode: 0,
            }),
            req.header.qd_count == old(req).header.qd_count,
            req.header.ns_count == old(req).header.ns_count,
            req.header.ar_count == old(req).header.ar_count,
            req@.questions == old(req)@.questions,
            req@.authorities == old(req)@.authorities,
            req@.additionals == old(req)@.additionals,
            forall|k: int|
                0 <= k < base ==> #[trigger] req@.answers[k] == old(req)@.answers[k],
            forall|k: int|
                0 <= k < nv4 ==> #[trigger] req@.answers[base + k] == spec_v4_answer(
                    qname@,
                    set@.v4[k],
                ),
            forall|k: int|
                0 <= k < i ==> #[trigger] req@.answers[base + nv4 + k] == spec_v6_answer(
                    qname@,
                    set@.v6[k],
                ),
        decreases set@.v6.len() - i,
    {
        proof {
            assert(set@.v6[i as int] == set.v6@[i as int]@);
            crate::codec::lemma_groups_bytes_len(set@.v6[i as int]);
        }
        let groups = crate::resolver::copy_groups(&set.v6[i]);
        let rec = AnswerRecord::new(qname.duplicate(), RData::AAAA(groups));
        let ghost prev = req.answers@;
        let ghost prev_view = req@.answers;
        req.answers.push(rec);
        i = i + 1;
        proof {
            assert forall|k: int| 0 <= k < prev.len() implies #[trigger] req@.answers[k]
                == prev_view[k] by {
                assert(req@.answers[k] == req.answers@[k]@);
                assert(prev_view[k] == prev[k]@);
                assert(req.answers@[k] == prev[k]);
            }
            assert(req@.answers[prev.len() as int] == req.answers@.last()@);
            assert(req.answers@.last()@ =~~= spec_v6_answer(qname@, set@.v6[i - 1]));
        }
    }
    let mut i: usize = 0;
    while i < set.cnames.len()
        invariant
            i <= set@.cnames.len(),
            base + nv4 + nv6 + ncn <= 0xFFFF,
            base == old(req)@.answers.len(),
            nv4 == set@.v4.len(),
            nv6 == set@.v6.len(),
            ncn == set@.cnames.len(),
            forall|k: int|
                0 <= k < set@.cnames.len() ==> encodable_rdata(
                    RDataV::CNAME(#[trigger] set@.cnames[k]),
                ),
            req@.answers.len() == base + nv4 + nv6 + i,
            req.header.id == old(req).header.id,
            req.header.flags == (Flags {
                qr: true,
                opcode: 0,
                aa: true,
                tc: false,
                rd: true,
                ra: true,
                z: 0,
                rcode: 0,
            }),
            req.header.qd_count == old(req).header.qd_count,
            req.header.ns_count == old(req).header.ns_count,
            req.header.ar_count == old(req).header.ar_count,
            req@.questions == old(req)@.questions,
            req@.authorities == old(req)@.authorities,
            req@.additionals == old(req)@.additionals,
            forall|k: int|
                0 <= k < base ==> #[trigger] req@.answers[k] == old(req)@.answers[k],
            forall|k: int|
                0 <= k < nv4 ==> #[trigger] req@.answers[base + k] == spec_v4_answer(
                    qname@,
                    set@.v4[k],
                ),
            forall|k: int|
                0 <= k < nv6 ==> #[trigger] req@.answers[base + nv4 + k] == spec_v6_answer(
                    qname@,
                    set@.v6[k],
                ),
            forall|k: int|
                0 <= k < i ==> #[trigger] req@.answers[base + nv4 + nv6 + k] == spec_cname_answer(
                    qname@,
                    set@.cnames[k],
                ),
        decreases set@.cnames.len() - i,
    {
        proof {
            assert(set@.cnames[i as int] == set.cnames@[i as int]@);
        }
        let target = set.cnames[i].duplicate();
        let rec = AnswerRecord::new(qname.duplicate(), RData::CNAME(target));
        let ghost prev = req.answers@;
        let ghost prev_view = req@.answers;
        req.answers.push(rec);
        i = i + 1;
        proof {
            assert forall|k: int| 0 <= k < prev.len() implies #[trigger] req@.answers[k]
                == prev_view[k] by {
                assert(req@.answers[k] == req.answers@[k]@);
                assert(prev_view[k] == prev[k]@);
                assert(req.answers@[k] == prev[k]);
            }
            assert(req@.answers[prev.len() as int] == req.answers@.last()@);
            assert(req.answers@.last()@ =~~= spec_cname_answer(qname@, set@.cnames[i - 1]));
        }
    }
    req.header.an_count = req.answers.len() as u16;
}

} // verus!
