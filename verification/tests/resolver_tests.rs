use dns_resolver::name::DnsName;
use dns_resolver::resolver::{inspect, Resolver, ResolveError, Step};
use dns_resolver::solver::{extract_server_ip, pick_root_server, root_servers};
use dns_resolver::types::{AnswerRecord, Dns, Flags, QueryRecord, RData};
use dns_resolver::{MAX_DEPTH, ROOT_SERVER_V4};

fn name_of(parts: &[&str]) -> DnsName {
    let mut n = DnsName::root();
    for p in parts {
        n.push_label(p.as_bytes().to_vec());
    }
    n
}

fn response(
    answers: Vec<AnswerRecord>,
    authorities: Vec<AnswerRecord>,
    additionals: Vec<AnswerRecord>,
) -> Dns {
    let flags = Flags {
        qr: true,
        opcode: 0,
        aa: false,
        tc: false,
        rd: false,
        ra: false,
        z: 0,
        rcode: 0,
    };
    let an = answers.len() as u16;
    let ns = authorities.len() as u16;
    let ar = additionals.len() as u16;
    Dns::new(1, flags, 0, an, ns, ar, vec![], answers, authorities, additionals)
}

fn run_to_query_or_done(r: &mut Resolver) -> Step {
    loop {
        match r.step() {
            Step::Continue => continue,
            other => return other,
        }
    }
}

#[test]
fn depth_zero_fails_without_network() {
    let mut r = Resolver::new(name_of(&["example", "com"]), ROOT_SERVER_V4, 0);
    match run_to_query_or_done(&mut r) {
        Step::Done(Err(ResolveError::DepthExceeded)) => {}
        other => panic!("expected DepthExceeded, got {:?}", other),
    }
}

#[test]
fn root_referral_is_followed_to_glue() {
    let qname = name_of(&["www", "example", "com"]);
    let mut r = Resolver::new(qname.clone(), ROOT_SERVER_V4, MAX_DEPTH);
    match run_to_query_or_done(&mut r) {
        Step::Query { qname: q, server } => {
            assert_eq!(q, qname);
            assert_eq!(server, ROOT_SERVER_V4);
        }
        other => panic!("expected a root query, got {:?}", other),
    }
    // The root refers to a.gtld-servers.net with glue 192.5.6.30.
    let ns = AnswerRecord::new(
        name_of(&["com"]),
        RData::NS(name_of(&["a", "gtld-servers", "net"])),
    );
    let glue = AnswerRecord::new(
        name_of(&["a", "gtld-servers", "net"]),
        RData::A(0xC005061E),
    );
    let msg = response(vec![], vec![ns], vec![glue]);
    r.deliver(Some(&msg));
    match run_to_query_or_done(&mut r) {
        Step::Query { qname: q, server } => {
            assert_eq!(q, qname);
            assert_eq!(server, 0xC005061E);
        }
        other => panic!("expected a glue query, got {:?}", other),
    }
}

#[test]
fn cname_is_chased_at_the_same_server() {
    let qname = name_of(&["www", "example", "com"]);
    let target = name_of(&["edge", "example", "net"]);
    let server = 0x0A000001;
    let mut r = Resolver::new(qname.clone(), server, MAX_DEPTH);
    match run_to_query_or_done(&mut r) {
        Step::Query { qname: q, server: s } => {
            assert_eq!(q, qname);
            assert_eq!(s, server);
        }
        other => panic!("expected the first query, got {:?}", other),
    }
    let cname = AnswerRecord::new(qname.clone(), RData::CNAME(target.clone()));
    r.deliver(Some(&response(vec![cname], vec![], vec![])));
    match run_to_query_or_done(&mut r) {
        Step::Query { qname: q, server: s } => {
            assert_eq!(q, target);
            assert_eq!(s, server);
        }
        other => panic!("expected the alias query, got {:?}", other),
    }
    let a = AnswerRecord::new(target.clone(), RData::A(0xCB007107));
    r.deliver(Some(&response(vec![a], vec![], vec![])));
    match run_to_query_or_done(&mut r) {
        Step::Done(Ok(set)) => {
            assert_eq!(set.v4, vec![0xCB007107]);
            assert!(set.v6.is_empty());
            assert_eq!(set.cnames, vec![target]);
        }
        other => panic!("expected success, got {:?}", other),
    }
}

#[test]
fn matching_is_case_insensitive() {
    let qname = name_of(&["www", "example", "com"]);
    let mut r = Resolver::new(qname.clone(), 0x7F000001, MAX_DEPTH);
    match run_to_query_or_done(&mut r) {
        Step::Query { .. } => {}
        other => panic!("expected a query, got {:?}", other),
    }
    let a = AnswerRecord::new(name_of(&["WWW", "Example", "COM"]), RData::A(5));
    r.deliver(Some(&response(vec![a], vec![], vec![])));
    match run_to_query_or_done(&mut r) {
        Step::Done(Ok(set)) => assert_eq!(set.v4, vec![5]),
        other => panic!("expected success, got {:?}", other),
    }
}

#[test]
fn failed_exchange_falls_to_next_glue() {
    let qname = name_of(&["host", "example"]);
    let mut r = Resolver::new(qname.clone(), ROOT_SERVER_V4, MAX_DEPTH);
    match run_to_query_or_done(&mut r) {
        Step::Query { .. } => {}
        other => panic!("expected a query, got {:?}", other),
    }
    let ns = AnswerRecord::new(
        name_of(&["example"]),
        RData::NS(name_of(&["ns1", "example"])),
    );
    let glue1 = AnswerRecord::new(name_of(&["ns1", "example"]), RData::A(0x01010101));
    let glue2 = AnswerRecord::new(name_of(&["ns2", "example"]), RData::A(0x02020202));
    r.deliver(Some(&response(vec![], vec![ns], vec![glue1, glue2])));
    match run_to_query_or_done(&mut r) {
        Step::Query { server, .. } => assert_eq!(server, 0x01010101),
        other => panic!("expected the first glue query, got {:?}", other),
    }
    // That exchange times out; the resolver tries the next glue address.
    r.deliver(None);
    match run_to_query_or_done(&mut r) {
        Step::Query { server, .. } => assert_eq!(server, 0x02020202),
        other => panic!("expected the second glue query, got {:?}", other),
    }
    let a = AnswerRecord::new(qname.clone(), RData::A(0x08080808));
    r.deliver(Some(&response(vec![a], vec![], vec![])));
    match run_to_query_or_done(&mut r) {
        Step::Done(Ok(set)) => assert_eq!(set.v4, vec![0x08080808]),
        other => panic!("expected success, got {:?}", other),
    }
}

#[test]
fn glueless_referral_resolves_ns_from_root() {
    let qname = name_of(&["host", "example"]);
    let nsname = name_of(&["ns1", "example"]);
    let mut r = Resolver::new(qname.clone(), 0x0A000001, MAX_DEPTH);
    match run_to_query_or_done(&mut r) {
        Step::Query { .. } => {}
        other => panic!("expected a query, got {:?}", other),
    }
    let ns = AnswerRecord::new(name_of(&["example"]), RData::NS(nsname.clone()));
    r.deliver(Some(&response(vec![], vec![ns], vec![])));
    // No glue: the name server itself is resolved from the root.
    match run_to_query_or_done(&mut r) {
        Step::Query { qname: q, server } => {
            assert_eq!(q, nsname);
            assert_eq!(server, ROOT_SERVER_V4);
        }
        other => panic!("expected the name-server query, got {:?}", other),
    }
    let nsa = AnswerRecord::new(nsname.clone(), RData::A(0x0B0B0B0B));
    r.deliver(Some(&response(vec![nsa], vec![], vec![])));
    // Then the original name is asked of that address.
    match run_to_query_or_done(&mut r) {
        Step::Query { qname: q, server } => {
            assert_eq!(q, qname);
            assert_eq!(server, 0x0B0B0B0B);
        }
        other => panic!("expected the re-aimed query, got {:?}", other),
    }
    let a = AnswerRecord::new(qname.clone(), RData::A(0x0C0C0C0C));
    r.deliver(Some(&response(vec![a], vec![], vec![])));
    match run_to_query_or_done(&mut r) {
        Step::Done(Ok(set)) => assert_eq!(set.v4, vec![0x0C0C0C0C]),
        other => panic!("expected success, got {:?}", other),
    }
}

#[test]
fn empty_response_is_no_answer() {
    let mut r = Resolver::new(name_of(&["x"]), 0x7F000001, MAX_DEPTH);
    match run_to_query_or_done(&mut r) {
        Step::Query { .. } => {}
        other => panic!("expected a query, got {:?}", other),
    }
    r.deliver(Some(&response(vec![], vec![], vec![])));
    match run_to_query_or_done(&mut r) {
        Step::Done(Err(ResolveError::NoAnswer)) => {}
        other => panic!("expected NoAnswer, got {:?}", other),
    }
}

#[test]
fn nonzero_rcode_is_treated_as_no_answer() {
    let qname = name_of(&["x"]);
    let mut r = Resolver::new(qname.clone(), 0x7F000001, MAX_DEPTH);
    match run_to_query_or_done(&mut r) {
        Step::Query { .. } => {}
        other => panic!("expected a query, got {:?}", other),
    }
    let mut msg = response(
        vec![AnswerRecord::new(qname.clone(), RData::A(9))],
        vec![],
        vec![],
    );
    msg.header.flags.rcode = 3;
    // The answer is ignored because of the error code.
    r.deliver(Some(&msg));
    match run_to_query_or_done(&mut r) {
        Step::Done(Err(ResolveError::NoAnswer)) => {}
        other => panic!("expected NoAnswer, got {:?}", other),
    }
}

#[test]
fn inspect_filters_by_name_and_kind() {
    let q = name_of(&["a", "b"]);
    let answers = vec![
        AnswerRecord::new(q.clone(), RData::A(1)),
        AnswerRecord::new(name_of(&["other"]), RData::A(2)),
        AnswerRecord::new(q.clone(), RData::AAAA(vec![0, 0, 0, 0, 0, 0, 0, 1])),
        AnswerRecord::new(q.clone(), RData::CNAME(name_of(&["c"]))),
    ];
    let (v4, v6, cn) = inspect(&answers, &q);
    assert_eq!(v4, vec![1]);
    assert_eq!(v6, vec![vec![0, 0, 0, 0, 0, 0, 0, 1]]);
    assert_eq!(cn, vec![name_of(&["c"])]);
}

#[test]
fn extract_server_ip_takes_first_usable_glue() {
    let additionals = vec![
        AnswerRecord::new(DnsName::root(), RData::A(1)),
        AnswerRecord::new(name_of(&["ns", "example"]), RData::AAAA(vec![0; 8])),
        AnswerRecord::new(name_of(&["ns", "example"]), RData::A(0x05060708)),
    ];
    let (name, addr) = extract_server_ip(&additionals).unwrap();
    assert_eq!(name, name_of(&["ns", "example"]));
    assert_eq!(addr, 0x05060708);
    assert!(extract_server_ip(&vec![]).is_none());
}

#[test]
fn picked_root_is_a_well_known_root() {
    let roots = root_servers();
    assert_eq!(roots.len(), 13);
    assert_eq!(roots[0], ROOT_SERVER_V4);
    for _ in 0..50 {
        let r = pick_root_server();
        assert!(roots.contains(&r));
    }
}

#[test]
fn compose_response_builds_the_client_answer() {
    let qname = name_of(&["www", "example", "com"]);
    let q = QueryRecord::new(qname.clone(), 1, 1);
    let flags = Flags {
        qr: false,
        opcode: 0,
        aa: false,
        tc: false,
        rd: true,
        ra: false,
        z: 0,
        rcode: 0,
    };
    let mut req = Dns::new(0x1234, flags, 1, 0, 0, 0, vec![q], vec![], vec![], vec![]);
    let set = dns_resolver::resolver::ResolvedSet {
        v4: vec![0x5DB8D822],
        v6: vec![],
        cnames: vec![name_of(&["edge", "example", "net"])],
    };
    dns_resolver::solver::compose_response(&mut req, &qname, &set);
    assert!(req.header.flags.qr);
    assert!(req.header.flags.aa);
    assert!(req.header.flags.ra);
    assert_eq!(req.header.flags.rcode, 0);
    assert_eq!(req.header.id, 0x1234);
    assert_eq!(req.header.an_count, 2);
    assert_eq!(req.answers.len(), 2);
    assert_eq!(req.answers[0].rdata, RData::A(0x5DB8D822));
    assert_eq!(req.answers[0].aname, qname);
    assert_eq!(
        req.answers[1].rdata,
        RData::CNAME(name_of(&["edge", "example", "net"]))
    );
}

#[test]
fn new_a_question_shape() {
    let d = name_of(&["example", "com"]);
    let msg = Dns::new_a_question(&d, 0x4242);
    assert_eq!(msg.header.id, 0x4242);
    assert!(!msg.header.flags.qr);
    assert!(!msg.header.flags.rd);
    assert_eq!(msg.header.qd_count, 1);
    assert_eq!(msg.questions.len(), 1);
    assert_eq!(msg.questions[0].qname, d);
    assert_eq!(msg.questions[0].qtype, 1);
    assert_eq!(msg.questions[0].qclass, 1);
}
