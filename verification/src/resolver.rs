//! The iterative resolver: a referral-following state machine.
//!
//! One client question is resolved by walking the DNS hierarchy: query a
//! server, accept addresses, follow a canonical-name alias at the same
//! server, or follow a referral — glue addresses first, then name servers
//! resolved from the root. The machine holds the whole traversal as an
//! explicit stack of frames; the caller performs each UDP exchange the
//! machine asks for and hands the decoded response (or the fact of a
//! failed exchange) back. Every transition is specified exactly, so the
//! depth bound and the shape of every answer are proved, while the network
//! itself stays outside.

use vstd::prelude::*;

use crate::name::{name_eq_ci, DnsName};
use crate::types::{records_view, AnswerRecord, AnswerRecordV, Dns, DnsV, RData, RDataV};
use crate::ROOT_SERVER_V4;

verus! {

/// Errors of a whole resolution.
#[derive(Debug, Clone, Copy, PartialEq, Eq, Structural)]
pub enum ResolveError {
    /// The recursion depth budget ran out.
    DepthExceeded,
    /// Every candidate branch was exhausted without an address.
    NoAnswer,
}

/// What a successful resolution hands back: addresses and the alias chain
/// traversed on the way.
#[derive(Debug, Clone, PartialEq, Eq)]
pub struct ResolvedSet {
    /// IPv4 addresses, big-endian.
    pub v4: Vec<u32>,
    /// IPv6 addresses, as their eight 16-bit groups.
    pub v6: Vec<Vec<u16>>,
    /// The canonical-name targets followed, in order.
    pub cnames: Vec<DnsName>,
}

/// The abstract value of a resolution result.
#[verifier::ext_equal]
pub struct ResolvedSetV {
    /// IPv4 addresses.
    pub v4: Seq<u32>,
    /// IPv6 addresses as 16-bit groups.
    pub v6: Seq<Seq<u16>>,
    /// The alias targets followed.
    pub cnames: Seq<Seq<Seq<u8>>>,
}

/// The abstract value of a list of names.
pub open spec fn names_view(names: Seq<DnsName>) -> Seq<Seq<Seq<u8>>> {
    names.map_values(|n: DnsName| n@)
}

/// The abstract value of a list of IPv6 group vectors.
pub open spec fn groups_list_view(gs: Seq<Vec<u16>>) -> Seq<Seq<u16>> {
    gs.map_values(|g: Vec<u16>| g@)
}

impl View for ResolvedSet {
    type V = ResolvedSetV;

    open spec fn view(&self) -> ResolvedSetV {
        ResolvedSetV {
            v4: self.v4@,
            v6: groups_list_view(self.v6@),
            cnames: names_view(self.cnames@),
        }
    }
}

/// The abstract value of a resolution outcome.
pub open spec fn result_view(r: Result<ResolvedSet, ResolveError>) -> Result<
    ResolvedSetV,
    ResolveError,
> {
    match r {
        Ok(s) => Ok(s@),
        Err(e) => Err(e),
    }
}

/// Where one frame of the traversal stands.
#[derive(Debug)]
pub enum Phase {
    /// The frame has not queried its server yet.
    Start,
    /// The frame's query is out; a response is owed.
    Await,
    /// Trying glue addresses in wire order; a child resolution for the
    /// `i`-th glue address is running.
    Glue { ns: Vec<DnsName>, glue: Vec<u32>, i: usize },
    /// Resolving the `j`-th name server's own address from the root.
    NsResolve { ns: Vec<DnsName>, j: usize },
    /// Asking the `k`-th address of the `j`-th name server.
    NsAddr { ns: Vec<DnsName>, j: usize, addrs: Vec<u32>, k: usize },
}

/// The abstract value of a frame's phase.
#[verifier::ext_equal]
pub enum PhaseV {
    /// Not yet queried.
    Start,
    /// A response is owed.
    Await,
    /// Trying glue address `i`.
    Glue { ns: Seq<Seq<Seq<u8>>>, glue: Seq<u32>, i: int },
    /// Resolving name server `j` from the root.
    NsResolve { ns: Seq<Seq<Seq<u8>>>, j: int },
    /// Asking address `k` of name server `j`.
    NsAddr { ns: Seq<Seq<Seq<u8>>>, j: int, addrs: Seq<u32>, k: int },
}

impl View for Phase {
    type V = PhaseV;

    open spec fn view(&self) -> PhaseV {
        match self {
            Phase::Start => PhaseV::Start,
            Phase::Await => PhaseV::Await,
            Phase::Glue { ns, glue, i } => PhaseV::Glue {
                ns: names_view(ns@),
                glue: glue@,
                i: *i as int,
            },
            Phase::NsResolve { ns, j } => PhaseV::NsResolve { ns: names_view(ns@), j: *j as int },
            Phase::NsAddr { ns, j, addrs, k } => PhaseV::NsAddr {
                ns: names_view(ns@),
                j: *j as int,
                addrs: addrs@,
                k: *k as int,
            },
        }
    }
}

/// One frame: a question, the server it is asked of, the depth budget
/// left for it, the alias targets followed so far on its chain, and its
/// phase.
#[derive(Debug)]
pub struct Frame {
    /// The name being resolved by this frame.
    pub qname: DnsName,
    /// The server this frame queries, as a big-endian IPv4 address.
    pub server: u32,
    /// The recursion depth budget left for this frame.
    pub depth: u32,
    /// The alias targets followed so far on this frame's chain.
    pub cnames: Vec<DnsName>,
    /// Where the frame stands.
    pub phase: Phase,
}

/// The abstract value of a frame.
#[verifier::ext_equal]
pub struct FrameV {
    /// The name being resolved.
    pub qname: Seq<Seq<u8>>,
    /// The server queried.
    pub server: u32,
    /// The depth budget left.
    pub depth: u32,
    /// The alias targets followed so far.
    pub cnames: Seq<Seq<Seq<u8>>>,
    /// Where the frame stands.
    pub phase: PhaseV,
}

impl View for Frame {
    type V = FrameV;

    open spec fn view(&self) -> FrameV {
        FrameV {
            qname: self.qname@,
            server: self.server,
            depth: self.depth,
            cnames: names_view(self.cnames@),
            phase: self.phase@,
        }
    }
}

/// The abstract value of a frame stack.
pub open spec fn frames_view(frames: Seq<Frame>) -> Seq<FrameV> {
    frames.map_values(|f: Frame| f@)
}

/// What the machine asks its driver to do next.
#[derive(Debug)]
pub enum Step {
    /// Send a standard A query for the name to the server and deliver
    /// what comes back.
    Query { qname: DnsName, server: u32 },
    /// Call again: an internal transition was made.
    Continue,
    /// The resolution is over.
    Done(Result<ResolvedSet, ResolveError>),
}

/// The abstract value of a step.
#[verifier::ext_equal]
pub enum StepV {
    /// Send a query.
    Query { qname: Seq<Seq<u8>>, server: u32 },
    /// Call again.
    Continue,
    /// The resolution is over.
    Done(Result<ResolvedSetV, ResolveError>),
}

impl View for Step {
    type V = StepV;

    open spec fn view(&self) -> StepV {
        match self {
            Step::Query { qname, server } => StepV::Query { qname: qname@, server: *server },
            Step::Continue => StepV::Continue,
            Step::Done(r) => StepV::Done(result_view(*r)),
        }
    }
}

/// The resolver: a stack of frames, a child result waiting to be handed
/// to its parent, and the final outcome once the stack has unwound.
#[derive(Debug)]
pub struct Resolver {
    /// The traversal stack; the last frame is the active one.
    pub frames: Vec<Frame>,
    /// A finished child resolution not yet dispatched to its parent.
    pub pending: Option<Result<ResolvedSet, ResolveError>>,
    /// The finished resolution.
    pub done: Option<Result<ResolvedSet, ResolveError>>,
}

/// The abstract value of the resolver.
#[verifier::ext_equal]
pub struct ResolverV {
    /// The traversal stack.
    pub frames: Seq<FrameV>,
    /// A result waiting for its parent frame.
    pub pending: Option<Result<ResolvedSetV, ResolveError>>,
    /// The finished resolution.
    pub done: Option<Result<ResolvedSetV, ResolveError>>,
}

impl View for Resolver {
    type V = ResolverV;

    open spec fn view(&self) -> ResolverV {
        ResolverV {
            frames: frames_view(self.frames@),
            pending: match self.pending {
                Some(r) => Some(result_view(r)),
                None => None,
            },
            done: match self.done {
                Some(r) => Some(result_view(r)),
                None => None,
            },
        }
    }
}

/// A phase that waits on a child resolution.
pub open spec fn is_parent_phase(p: PhaseV) -> bool {
    ||| p is Glue
    ||| p is NsResolve
    ||| p is NsAddr
}

/// A phase's indices lie inside the lists they walk.
pub open spec fn phase_wf(p: PhaseV) -> bool {
    match p {
        PhaseV::Glue { ns, glue, i } => 0 <= i < glue.len(),
        PhaseV::NsResolve { ns, j } => 0 <= j < ns.len(),
        PhaseV::NsAddr { ns, j, addrs, k } => 0 <= j < ns.len() && 0 <= k < addrs.len(),
        _ => true,
    }
}

/// A successful outcome always carries at least one address.
pub open spec fn result_wf(r: Result<ResolvedSetV, ResolveError>) -> bool {
    match r {
        Ok(s) => s.v4.len() + s.v6.len() > 0,
        Err(_) => true,
    }
}

impl ResolverV {
    /// Structural soundness of the machine: when the resolution is done
    /// the stack has unwound; a pending result sits above parent frames
    /// only; otherwise the top frame is starting or awaiting and all
    /// frames below it are parents; and indices stay in range.
    pub open spec fn wf(self) -> bool {
        &&& forall|i: int| 0 <= i < self.frames.len() ==> phase_wf(#[trigger] self.frames[i].phase)
        &&& forall|i: int|
            0 <= i < self.frames.len() - 1 ==> is_parent_phase(#[trigger] self.frames[i].phase)
        &&& match self.done {
            Some(r) => self.frames.len() == 0 && self.pending is None && result_wf(r),
            None => match self.pending {
                Some(r) => result_wf(r) && (self.frames.len() > 0 ==> is_parent_phase(
                    self.frames.last().phase,
                )),
                None => self.frames.len() > 0 && (self.frames.last().phase is Start
                    || self.frames.last().phase is Await),
            },
        }
    }

    /// The machine owes nothing and waits on a network response.
    pub open spec fn awaiting(self) -> bool {
        &&& self.done is None
        &&& self.pending is None
        &&& self.frames.len() > 0
        &&& self.frames.last().phase is Await
    }
}

/// One less depth, stopping at zero.
pub open spec fn dec_depth(d: u32) -> u32 {
    if d > 0 {
        (d - 1) as u32
    } else {
        0
    }
}

/// The IPv4 addresses among answers whose name matches the question,
/// case-insensitively, in wire order.
pub open spec fn spec_v4_of(rs: Seq<AnswerRecordV>, q: Seq<Seq<u8>>) -> Seq<u32>
    decreases rs.len(),
{
    if rs.len() == 0 {
        Seq::empty()
    } else {
        let rest = spec_v4_of(rs.skip(1), q);
        if rs[0].rdata is A && name_eq_ci(rs[0].aname, q) {
            seq![rs[0].rdata->A_0] + rest
        } else {
            rest
        }
    }
}

/// The IPv6 addresses among answers whose name matches the question.
pub open spec fn spec_v6_of(rs: Seq<AnswerRecordV>, q: Seq<Seq<u8>>) -> Seq<Seq<u16>>
    decreases rs.len(),
{
    if rs.len() == 0 {
        Seq::empty()
    } else {
        let rest = spec_v6_of(rs.skip(1), q);
        if rs[0].rdata is AAAA && name_eq_ci(rs[0].aname, q) {
            seq![rs[0].rdata->AAAA_0] + rest
        } else {
            rest
        }
    }
}

/// The alias targets among answers, in wire order.
pub open spec fn spec_cnames_of(rs: Seq<AnswerRecordV>) -> Seq<Seq<Seq<u8>>>
    decreases rs.len(),
{
    if rs.len() == 0 {
        Seq::empty()
    } else {
        let rest = spec_cnames_of(rs.skip(1));
        if rs[0].rdata is CNAME {
            seq![rs[0].rdata->CNAME_0] + rest
        } else {
            rest
        }
    }
}

/// The name-server names among authority records, in wire order.
pub open spec fn spec_ns_of(rs: Seq<AnswerRecordV>) -> Seq<Seq<Seq<u8>>>
    decreases rs.len(),
{
    if rs.len() == 0 {
        Seq::empty()
    } else {
        let rest = spec_ns_of(rs.skip(1));
        if rs[0].atype == 2 && rs[0].rdata is NS {
            seq![rs[0].rdata->NS_0] + rest
        } else {
            rest
        }
    }
}

/// The IPv4 glue addresses among additional records, in wire order.
pub open spec fn spec_glue_of(rs: Seq<AnswerRecordV>) -> Seq<u32>
    decreases rs.len(),
{
    if rs.len() == 0 {
        Seq::empty()
    } else {
        let rest = spec_glue_of(rs.skip(1));
        if rs[0].atype == 1 && rs[0].rdata is A {
            seq![rs[0].rdata->A_0] + rest
        } else {
            rest
        }
    }
}

/// The machine after a finished name-server branch advances: the next
/// name server is resolved from the root, or, all exhausted, the frame
/// fails with no answer.
pub open spec fn spec_advance_ns(
    rest: Seq<FrameV>,
    top: FrameV,
    ns: Seq<Seq<Seq<u8>>>,
    j: int,
) -> ResolverV {
    if j + 1 < ns.len() {
        let parent = FrameV { phase: PhaseV::NsResolve { ns, j: j + 1 }, ..top };
        let child = FrameV {
            qname: ns[j + 1],
            server: ROOT_SERVER_V4,
            depth: dec_depth(top.depth),
            cnames: Seq::empty(),
            phase: PhaseV::Start,
        };
        ResolverV { frames: rest.push(parent).push(child), pending: None, done: None }
    } else {
        ResolverV {
            frames: rest,
            pending: Some(Err(ResolveError::NoAnswer)),
            done: None,
        }
    }
}

/// One internal transition of the machine, and what it asks of the
/// driver. The done state repeats its outcome; a pending child result is
/// dispatched to the parent frame per its phase; a starting frame with no
/// depth budget fails, and one with budget asks for its query.
pub open spec fn spec_step(m: ResolverV) -> (ResolverV, StepV) {
    if m.done is Some {
        (m, StepV::Done(m.done->0))
    } else if m.pending is Some {
        let r = m.pending->0;
        if m.frames.len() == 0 {
            (ResolverV { frames: m.frames, pending: None, done: Some(r) }, StepV::Continue)
        } else {
            let top = m.frames.last();
            let rest = m.frames.drop_last();
            match top.phase {
                PhaseV::Glue { ns, glue, i } => match r {
                    Ok(_) => (
                        ResolverV { frames: rest, pending: Some(r), done: None },
                        StepV::Continue,
                    ),
                    Err(_) => if i + 1 < glue.len() {
                        let parent = FrameV { phase: PhaseV::Glue { ns, glue, i: i + 1 }, ..top };
                        let child = FrameV {
                            qname: top.qname,
                            server: glue[i + 1],
                            depth: dec_depth(top.depth),
                            cnames: top.cnames,
                            phase: PhaseV::Start,
                        };
                        (
                            ResolverV {
                                frames: rest.push(parent).push(child),
                                pending: None,
                                done: None,
                            },
                            StepV::Continue,
                        )
                    } else if ns.len() > 0 {
                        let parent = FrameV { phase: PhaseV::NsResolve { ns, j: 0 }, ..top };
                        let child = FrameV {
                            qname: ns[0],
                            server: ROOT_SERVER_V4,
                            depth: dec_depth(top.depth),
                            cnames: Seq::empty(),
                            phase: PhaseV::Start,
                        };
                        (
                            ResolverV {
                                frames: rest.push(parent).push(child),
                                pending: None,
                                done: None,
                            },
                            StepV::Continue,
                        )
                    } else {
                        (
                            ResolverV {
                                frames: rest,
                                pending: Some(Err(ResolveError::NoAnswer)),
                                done: None,
                            },
                            StepV::Continue,
                        )
                    },
                },
                PhaseV::NsResolve { ns, j } => match r {
                    Ok(set) => if set.v4.len() > 0 {
                        let parent = FrameV {
                            phase: PhaseV::NsAddr { ns, j, addrs: set.v4, k: 0 },
                            ..top
                        };
                        let child = FrameV {
                            qname: top.qname,
                            server: set.v4[0],
                            depth: dec_depth(top.depth),
                            cnames: top.cnames,
                            phase: PhaseV::Start,
                        };
                        (
                            ResolverV {
                                frames: rest.push(parent).push(child),
                                pending: None,
                                done: None,
                            },
                            StepV::Continue,
                        )
                    } else {
                        (spec_advance_ns(rest, top, ns, j), StepV::Continue)
                    },
                    Err(_) => (spec_advance_ns(rest, top, ns, j), StepV::Continue),
                },
                PhaseV::NsAddr { ns, j, addrs, k } => match r {
                    Ok(_) => (
                        ResolverV { frames: rest, pending: Some(r), done: None },
                        StepV::Continue,
                    ),
                    Err(_) => if k + 1 < addrs.len() {
                        let parent = FrameV {
                            phase: PhaseV::NsAddr { ns, j, addrs, k: k + 1 },
                            ..top
                        };
                        let child = FrameV {
                            qname: top.qname,
                            server: addrs[k + 1],
                            depth: dec_depth(top.depth),
                            cnames: top.cnames,
                            phase: PhaseV::Start,
                        };
                        (
                            ResolverV {
                                frames: rest.push(parent).push(child),
                                pending: None,
                                done: None,
                            },
                            StepV::Continue,
                        )
                    } else {
                        (spec_advance_ns(rest, top, ns, j), StepV::Continue)
                    },
                },
                _ => (m, StepV::Continue),
            }
        }
    } else if m.frames.len() == 0 {
        (m, StepV::Continue)
    } else {
        let top = m.frames.last();
        let rest = m.frames.drop_last();
        match top.phase {
            PhaseV::Start => if top.depth == 0 {
                (
                    ResolverV {
                        frames: rest,
                        pending: Some(Err(ResolveError::DepthExceeded)),
                        done: None,
                    },
                    StepV::Continue,
                )
            } else {
                (
                    ResolverV {
                        frames: rest.push(FrameV { phase: PhaseV::Await, ..top }),
                        pending: None,
                        done: None,
                    },
                    StepV::Query { qname: top.qname, server: top.server },
                )
            },
            _ => (m, StepV::Continue),
        }
    }
}

/// The machine after a response (or a failed exchange) is delivered to
/// the awaiting frame. A failed exchange or decode fails the frame; a
/// response with matching addresses finishes it; an alias is followed at
/// the same server with one less depth; otherwise the referral's glue is
/// tried first, then its name servers from the root; a response with
/// neither fails the frame. A non-zero response code is treated as a
/// referral with no answers.
pub open spec fn spec_deliver(m: ResolverV, response: Option<DnsV>) -> ResolverV {
    let top = m.frames.last();
    let rest = m.frames.drop_last();
    match response {
        None => ResolverV { frames: rest, pending: Some(Err(ResolveError::NoAnswer)), done: None },
        Some(msg) => {
            let v4 = spec_v4_of(msg.answers, top.qname);
            let v6 = spec_v6_of(msg.answers, top.qname);
            let cn = spec_cnames_of(msg.answers);
            if msg.header.flags.rcode == 0 && v4.len() + v6.len() > 0 {
                ResolverV {
                    frames: rest,
                    pending: Some(Ok(ResolvedSetV { v4, v6, cnames: top.cnames + cn })),
                    done: None,
                }
            } else if msg.header.flags.rcode == 0 && cn.len() > 0 {
                ResolverV {
                    frames: rest.push(
                        FrameV {
                            qname: cn[0],
                            server: top.server,
                            depth: dec_depth(top.depth),
                            cnames: top.cnames.push(cn[0]),
                            phase: PhaseV::Start,
                        },
                    ),
                    pending: None,
                    done: None,
                }
            } else {
                let ns = spec_ns_of(msg.authorities);
                let glue = spec_glue_of(msg.additionals);
                if glue.len() > 0 {
                    let parent = FrameV { phase: PhaseV::Glue { ns, glue, i: 0 }, ..top };
                    let child = FrameV {
                        qname: top.qname,
                        server: glue[0],
                        depth: dec_depth(top.depth),
                        cnames: top.cnames,
                        phase: PhaseV::Start,
                    };
                    ResolverV { frames: rest.push(parent).push(child), pending: None, done: None }
                } else if ns.len() > 0 {
                    let parent = FrameV { phase: PhaseV::NsResolve { ns, j: 0 }, ..top };
                    let child = FrameV {
                        qname: ns[0],
                        server: ROOT_SERVER_V4,
                        depth: dec_depth(top.depth),
                        cnames: Seq::empty(),
                        phase: PhaseV::Start,
                    };
                    ResolverV { frames: rest.push(parent).push(child), pending: None, done: None }
                } else {
                    ResolverV {
                        frames: rest,
                        pending: Some(Err(ResolveError::NoAnswer)),
                        done: None,
                    }
                }
            }
        },
    }
}

/// Popping the top frame and pushing a parent frame and a fresh child
/// keeps the machine sound, as long as the parent really is a parent
/// phase with its indices in range and the child is only starting.
proof fn lemma_wf_push2(m0: ResolverV, m1: ResolverV, parent: FrameV, child: FrameV)
    requires
        m0.wf(),
        m0.done is None,
        m0.frames.len() > 0,
        m1.frames == m0.frames.drop_last().push(parent).push(child),
        m1.pending is None,
        m1.done is None,
        is_parent_phase(parent.phase),
        phase_wf(parent.phase),
        child.phase is Start,
    ensures
        m1.wf(),
{
    let rest_len = m0.frames.len() - 1;
    assert forall|t: int| 0 <= t < m1.frames.len() implies phase_wf(#[trigger] m1.frames[t].phase)
        by {
        if t < rest_len {
            assert(m1.frames[t] == m0.frames[t]);
        } else if t == rest_len {
            assert(m1.frames[t] == parent);
        } else {
            assert(m1.frames[t] == child);
        }
    }
    assert forall|t: int| 0 <= t < m1.frames.len() - 1 implies is_parent_phase(
        #[trigger] m1.frames[t].phase,
    ) by {
        if t < rest_len {
            assert(m1.frames[t] == m0.frames[t]);
        } else {
            assert(m1.frames[t] == parent);
        }
    }
    assert(m1.frames.last() == child);
}

/// Popping the top frame and leaving a result for the frame below keeps
/// the machine sound.
proof fn lemma_wf_pop_pending(
    m0: ResolverV,
    m1: ResolverV,
    r: Result<ResolvedSetV, ResolveError>,
)
    requires
        m0.wf(),
        m0.done is None,
        m0.frames.len() > 0,
        m1.frames == m0.frames.drop_last(),
        m1.pending == Some(r),
        m1.done is None,
        result_wf(r),
    ensures
        m1.wf(),
{
    assert forall|t: int| 0 <= t < m1.frames.len() implies phase_wf(#[trigger] m1.frames[t].phase)
        by {
        assert(m1.frames[t] == m0.frames[t]);
    }
    assert forall|t: int| 0 <= t < m1.frames.len() - 1 implies is_parent_phase(
        #[trigger] m1.frames[t].phase,
    ) by {
        assert(m1.frames[t] == m0.frames[t]);
    }
    if m1.frames.len() > 0 {
        assert(m1.frames.last() == m0.frames[m0.frames.len() - 2]);
    }
}

/// Replacing the top frame by one fresh starting frame keeps the machine
/// sound.
proof fn lemma_wf_replace_top(m0: ResolverV, m1: ResolverV, child: FrameV)
    requires
        m0.wf(),
        m0.done is None,
        m0.frames.len() > 0,
        m1.frames == m0.frames.drop_last().push(child),
        m1.pending is None,
        m1.done is None,
        child.phase is Start || child.phase is Await,
    ensures
        m1.wf(),
{
    let rest_len = m0.frames.len() - 1;
    assert forall|t: int| 0 <= t < m1.frames.len() implies phase_wf(#[trigger] m1.frames[t].phase)
        by {
        if t < rest_len {
            assert(m1.frames[t] == m0.frames[t]);
        } else {
            assert(m1.frames[t] == child);
        }
    }
    assert forall|t: int| 0 <= t < m1.frames.len() - 1 implies is_parent_phase(
        #[trigger] m1.frames[t].phase,
    ) by {
        assert(m1.frames[t] == m0.frames[t]);
    }
    assert(m1.frames.last() == child);
}

/// A copy of a vector of 16-bit groups.
pub fn copy_groups(v: &Vec<u16>) -> (r: Vec<u16>)
    ensures
        r@ == v@,
{
    let mut out: Vec<u16> = Vec::new();
    let mut i: usize = 0;
    while i < v.len()
        invariant
            i <= v.len(),
            out@ == v@.subrange(0, i as int),
        decreases v.len() - i,
    {
        out.push(v[i]);
        i = i + 1;
        proof {
            assert(out@ =~= v@.subrange(0, i as int));
        }
    }
    proof {
        assert(out@ =~= v@);
    }
    out
}

/// A deep copy of a list of names.
pub fn dup_names(v: &Vec<DnsName>) -> (r: Vec<DnsName>)
    ensures
        names_view(r@) == names_view(v@),
{
    let mut out: Vec<DnsName> = Vec::new();
    let mut i: usize = 0;
    while i < v.len()
        invariant
            i <= v.len(),
            out@.len() == i,
            forall|k: int| 0 <= k < i ==> #[trigger] out@[k]@ == v@[k]@,
        decreases v.len() - i,
    {
        out.push(v[i].duplicate());
        i = i + 1;
    }
    proof {
        assert forall|k: int| 0 <= k < v@.len() implies names_view(out@)[k] == names_view(v@)[k]
            by {
            assert(names_view(out@)[k] == out@[k]@);
            assert(names_view(v@)[k] == v@[k]@);
        }
        assert(names_view(out@) =~= names_view(v@));
    }
    out
}

/// Appends deep copies of the given names.
fn append_names(dst: &mut Vec<DnsName>, src: &Vec<DnsName>)
    ensures
        names_view(final(dst)@) == names_view(old(dst)@) + names_view(src@),
{
    let ghost before = names_view(dst@);
    let mut i: usize = 0;
    while i < src.len()
        invariant
            i <= src.len(),
            dst@.len() == old(dst)@.len() + i,
            before == names_view(old(dst)@),
            forall|k: int| 0 <= k < old(dst)@.len() ==> #[trigger] dst@[k]@ == old(dst)@[k]@,
            forall|k: int|
                0 <= k < i ==> #[trigger] dst@[old(dst)@.len() + k]@ == src@[k]@,
        decreases src.len() - i,
    {
        dst.push(src[i].duplicate());
        i = i + 1;
    }
    proof {
        assert forall|k: int|
            0 <= k < dst@.len() implies names_view(dst@)[k] == (names_view(old(dst)@)
            + names_view(src@))[k] by {
            assert(names_view(dst@)[k] == dst@[k]@);
            if k < old(dst)@.len() {
                assert(names_view(old(dst)@)[k] == old(dst)@[k]@);
            } else {
                assert(dst@[old(dst)@.len() + (k - old(dst)@.len())]@ == src@[k - old(
                    dst,
                )@.len()]@);
                assert(names_view(src@)[k - old(dst)@.len()] == src@[k - old(dst)@.len()]@);
            }
        }
        assert(names_view(dst@) =~= names_view(old(dst)@) + names_view(src@));
    }
}

impl ResolvedSet {
    /// A deep copy whose view equals this set's.
    pub fn duplicate(&self) -> (r: ResolvedSet)
        ensures
            r@ == self@,
    {
        let mut v4: Vec<u32> = Vec::new();
        let mut i: usize = 0;
        while i < self.v4.len()
            invariant
                i <= self.v4.len(),
                v4@ == self.v4@.subrange(0, i as int),
            decreases self.v4.len() - i,
        {
            v4.push(self.v4[i]);
            i = i + 1;
            proof {
                assert(v4@ =~= self.v4@.subrange(0, i as int));
            }
        }
        proof {
            assert(v4@ =~= self.v4@);
        }
        let mut v6: Vec<Vec<u16>> = Vec::new();
        let mut i: usize = 0;
        while i < self.v6.len()
            invariant
                i <= self.v6.len(),
                v6@.len() == i,
                forall|k: int| 0 <= k < i ==> #[trigger] v6@[k]@ == self.v6@[k]@,
            decreases self.v6.len() - i,
        {
            v6.push(copy_groups(&self.v6[i]));
            i = i + 1;
        }
        proof {
            assert forall|k: int|
                0 <= k < self.v6@.len() implies groups_list_view(v6@)[k] == groups_list_view(
                self.v6@,
            )[k] by {
                assert(groups_list_view(v6@)[k] == v6@[k]@);
                assert(groups_list_view(self.v6@)[k] == self.v6@[k]@);
            }
            assert(groups_list_view(v6@) =~= groups_list_view(self.v6@));
        }
        let cnames = dup_names(&self.cnames);
        let r = ResolvedSet { v4, v6, cnames };
        proof {
            assert(r@ =~~= self@);
        }
        r
    }
}

/// A deep copy of a resolution outcome.
fn dup_result(r: &Result<ResolvedSet, ResolveError>) -> (out: Result<ResolvedSet, ResolveError>)
    ensures
        result_view(out) == result_view(*r),
{
    match r {
        Ok(s) => Ok(s.duplicate()),
        Err(e) => Err(*e),
    }
}

/// Scans an answer section for addresses matching the question name
/// (ASCII-case-insensitively) and for alias targets, each list in wire
/// order.
pub fn inspect(answers: &Vec<AnswerRecord>, qname: &DnsName) -> (r: (
    Vec<u32>,
    Vec<Vec<u16>>,
    Vec<DnsName>,
))
    ensures
        r.0@ == spec_v4_of(records_view(answers@), qname@),
        groups_list_view(r.1@) == spec_v6_of(records_view(answers@), qname@),
        names_view(r.2@) == spec_cnames_of(records_view(answers@)),
{
    let ghost view = records_view(answers@);
    let mut v4: Vec<u32> = Vec::new();
    let mut v6: Vec<Vec<u16>> = Vec::new();
    let mut cn: Vec<DnsName> = Vec::new();
    let mut i: usize = 0;
    proof {
        assert(view.skip(0) =~= view);
        assert(spec_v4_of(view, qname@) =~= Seq::<u32>::empty() + spec_v4_of(view, qname@));
        assert(spec_v6_of(view, qname@) =~= Seq::<Seq<u16>>::empty() + spec_v6_of(view, qname@));
        assert(spec_cnames_of(view) =~= Seq::<Seq<Seq<u8>>>::empty() + spec_cnames_of(view));
        assert(names_view(cn@) =~= Seq::<Seq<Seq<u8>>>::empty());
        assert(groups_list_view(v6@) =~= Seq::<Seq<u16>>::empty());
    }
    while i < answers.len()
        invariant
            i <= answers.len(),
            view == records_view(answers@),
            view.len() == answers@.len(),
            spec_v4_of(view, qname@) == v4@ + spec_v4_of(view.skip(i as int), qname@),
            spec_v6_of(view, qname@) == groups_list_view(v6@) + spec_v6_of(
                view.skip(i as int),
                qname@,
            ),
            spec_cnames_of(view) == names_view(cn@) + spec_cnames_of(view.skip(i as int)),
        decreases answers.len() - i,
    {
        let ghost rest = view.skip(i as int);
        proof {
            assert(view[i as int] == answers@[i as int]@);
            assert(rest[0] == view[i as int]);
            assert(rest.skip(1) =~= view.skip(i as int + 1));
        }
        let a = &answers[i];
        match &a.rdata {
            RData::A(addr) => {
                if a.aname.eq_ignore_case(qname) {
                    let ghost acc = v4@;
                    v4.push(*addr);
                    proof {
                        assert(acc + (seq![rest[0].rdata->A_0] + spec_v4_of(
                            rest.skip(1),
                            qname@,
                        )) =~= v4@ + spec_v4_of(view.skip(i as int + 1), qname@));
                    }
                }
            },
            RData::AAAA(groups) => {
                if a.aname.eq_ignore_case(qname) {
                    let ghost acc = groups_list_view(v6@);
                    v6.push(copy_groups(groups));
                    proof {
                        assert(groups_list_view(v6@) =~= acc.push(rest[0].rdata->AAAA_0));
                        assert(acc + (seq![rest[0].rdata->AAAA_0] + spec_v6_of(
                            rest.skip(1),
                            qname@,
                        )) =~= groups_list_view(v6@) + spec_v6_of(view.skip(i as int + 1), qname@));
                    }
                }
            },
            RData::CNAME(name) => {
                let ghost acc = names_view(cn@);
                cn.push(name.duplicate());
                proof {
                    assert(names_view(cn@) =~= acc.push(rest[0].rdata->CNAME_0));
                    assert(acc + (seq![rest[0].rdata->CNAME_0] + spec_cnames_of(rest.skip(1)))
                        =~= names_view(cn@) + spec_cnames_of(view.skip(i as int + 1)));
                }
            },
            _ => {},
        }
        i = i + 1;
    }
    proof {
        assert(view.skip(answers@.len() as int) =~= Seq::<AnswerRecordV>::empty());
        assert(v4@ + Seq::<u32>::empty() =~= v4@);
        assert(groups_list_view(v6@) + Seq::<Seq<u16>>::empty() =~= groups_list_view(v6@));
        assert(names_view(cn@) + Seq::<Seq<Seq<u8>>>::empty() =~= names_view(cn@));
    }
    (v4, v6, cn)
}

/// Collects the name-server names of an authority section, in wire order.
pub fn collect_ns(authorities: &Vec<AnswerRecord>) -> (r: Vec<DnsName>)
    ensures
        names_view(r@) == spec_ns_of(records_view(authorities@)),
{
    let ghost view = records_view(authorities@);
    let mut ns: Vec<DnsName> = Vec::new();
    let mut i: usize = 0;
    proof {
        assert(view.skip(0) =~= view);
        assert(spec_ns_of(view) =~= Seq::<Seq<Seq<u8>>>::empty() + spec_ns_of(view));
        assert(names_view(ns@) =~= Seq::<Seq<Seq<u8>>>::empty());
    }
    while i < authorities.len()
        invariant
            i <= authorities.len(),
            view == records_view(authorities@),
            view.len() == authorities@.len(),
            spec_ns_of(view) == names_view(ns@) + spec_ns_of(view.skip(i as int)),
        decreases authorities.len() - i,
    {
        let ghost rest = view.skip(i as int);
        proof {
            assert(view[i as int] == authorities@[i as int]@);
            assert(rest[0] == view[i as int]);
            assert(rest.skip(1) =~= view.skip(i as int + 1));
        }
        let a = &authorities[i];
        if a.atype == 2 {
            match &a.rdata {
                RData::NS(name) => {
                    let ghost acc = names_view(ns@);
                    ns.push(name.duplicate());
                    proof {
                        assert(names_view(ns@) =~= acc.push(rest[0].rdata->NS_0));
                        assert(acc + (seq![rest[0].rdata->NS_0] + spec_ns_of(rest.skip(1)))
                            =~= names_view(ns@) + spec_ns_of(view.skip(i as int + 1)));
                    }
                },
                _ => {},
            }
        }
        i = i + 1;
    }
    proof {
        assert(view.skip(authorities@.len() as int) =~= Seq::<AnswerRecordV>::empty());
        assert(names_view(ns@) + Seq::<Seq<Seq<u8>>>::empty() =~= names_view(ns@));
    }
    ns
}

/// Collects the IPv4 glue addresses of an additional section, in wire
/// order.
pub fn collect_glue(additionals: &Vec<AnswerRecord>) -> (r: Vec<u32>)
    ensures
        r@ == spec_glue_of(records_view(additionals@)),
{
    let ghost view = records_view(additionals@);
    let mut glue: Vec<u32> = Vec::new();
    let mut i: usize = 0;
    proof {
        assert(view.skip(0) =~= view);
        assert(spec_glue_of(view) =~= Seq::<u32>::empty() + spec_glue_of(view));
    }
    while i < additionals.len()
        invariant
            i <= additionals.len(),
            view == records_view(additionals@),
            view.len() == additionals@.len(),
            spec_glue_of(view) == glue@ + spec_glue_of(view.skip(i as int)),
        decreases additionals.len() - i,
    {
        let ghost rest = view.skip(i as int);
        proof {
            assert(view[i as int] == additionals@[i as int]@);
            assert(rest[0] == view[i as int]);
            assert(rest.skip(1) =~= view.skip(i as int + 1));
        }
        let a = &additionals[i];
        if a.atype == 1 {
            match &a.rdata {
                RData::A(addr) => {
                    let ghost acc = glue@;
                    glue.push(*addr);
                    proof {
                        assert(acc + (seq![rest[0].rdata->A_0] + spec_glue_of(rest.skip(1)))
                            =~= glue@ + spec_glue_of(view.skip(i as int + 1)));
                    }
                },
                _ => {},
            }
        }
        i = i + 1;
    }
    proof {
        assert(view.skip(additionals@.len() as int) =~= Seq::<AnswerRecordV>::empty());
        assert(glue@ + Seq::<u32>::empty() =~= glue@);
    }
    glue
}

impl Resolver {
    /// A fresh resolution of a name, starting at the given server with the
    /// given depth budget.
    pub fn new(qname: DnsName, server: u32, max_depth: u32) -> (r: Resolver)
        ensures
            r@ == (ResolverV {
                frames: seq![
                    FrameV {
                        qname: qname@,
                        server,
                        depth: max_depth,
                        cnames: Seq::empty(),
                        phase: PhaseV::Start,
                    },
                ],
                pending: None,
                done: None,
            }),
            r@.wf(),
    {
        let ghost qv = qname@;
        let mut frames: Vec<Frame> = Vec::new();
        frames.push(
            Frame { qname, server, depth: max_depth, cnames: Vec::new(), phase: Phase::Start },
        );
        let r = Resolver { frames, pending: None, done: None };
        proof {
            assert(names_view(Seq::<DnsName>::empty()) =~= Seq::<Seq<Seq<u8>>>::empty());
            assert(r@.frames =~= seq![
                FrameV {
                    qname: qv,
                    server,
                    depth: max_depth,
                    cnames: Seq::<Seq<Seq<u8>>>::empty(),
                    phase: PhaseV::Start,
                },
            ]);
            assert(r@ =~~= (ResolverV {
                frames: seq![
                    FrameV {
                        qname: qv,
                        server,
                        depth: max_depth,
                        cnames: Seq::<Seq<Seq<u8>>>::empty(),
                        phase: PhaseV::Start,
                    },
                ],
                pending: None,
                done: None,
            }));
        }
        r
    }

    /// One transition of the machine. Never called while a query is out:
    /// a response must be delivered first.
    #[verifier::rlimit(50)]
    pub fn step(&mut self) -> (r: Step)
        requires
            old(self)@.wf(),
            !old(self)@.awaiting(),
        ensures
            final(self)@ == spec_step(old(self)@).0,
            r@ == spec_step(old(self)@).1,
            final(self)@.wf(),
    {
        let ghost m0 = self@;
        match &self.done {
            Some(d) => {
                let out = dup_result(d);
                return Step::Done(out);
            },
            None => {},
        }
        if self.pending.is_some() {
            let taken = self.pending.take();
            let res = match taken {
                Some(res) => res,
                None => {
                    proof {
                        assert(false);
                    }
                    return Step::Continue;
                },
            };
            if self.frames.len() == 0 {
                proof {
                    assert(m0.frames.len() == 0);
                }
                self.done = Some(res);
                proof {
                    assert(self@ =~~= spec_step(m0).0);
                }
                return Step::Continue;
            }
            let ghost old_frames = self.frames@;
            let top = match self.frames.pop() {
                Some(top) => top,
                None => {
                    proof {
                        assert(false);
                    }
                    return Step::Continue;
                },
            };
            proof {
                assert(m0.frames[m0.frames.len() - 1] == old_frames[old_frames.len() - 1]@);
                assert(frames_view(self.frames@) =~= m0.frames.drop_last());
            }
            let ghost top_v = m0.frames.last();
            let ghost rest_v = m0.frames.drop_last();
            let Frame { qname, server, depth, cnames, phase } = top;
            match phase {
                Phase::Glue { ns, glue, i } => {
                    proof {
                        assert(phase_wf(top_v.phase));
                        assert(i < glue@.len());
                    }
                    match res {
                        Ok(set) => {
                            self.pending = Some(Ok(set));
                            proof {
                                assert(self@ =~~= spec_step(m0).0);
                                lemma_wf_pop_pending(m0, self@, m0.pending->0);
                            }
                            Step::Continue
                        },
                        Err(_) => {
                            let glue_len = glue.len();
                            if i + 1 < glue_len {
                                let child_server = glue[i + 1];
                                let child = Frame {
                                    qname: qname.duplicate(),
                                    server: child_server,
                                    depth: if depth > 0 {
                                        depth - 1
                                    } else {
                                        0
                                    },
                                    cnames: dup_names(&cnames),
                                    phase: Phase::Start,
                                };
                                let parent = Frame {
                                    qname,
                                    server,
                                    depth,
                                    cnames,
                                    phase: Phase::Glue { ns, glue, i: i + 1 },
                                };
                                let ghost parent_v = parent@;
                                let ghost child_v = child@;
                                self.frames.push(parent);
                                self.frames.push(child);
                                proof {
                                    assert(frames_view(self.frames@) =~= rest_v.push(
                                        parent_v,
                                    ).push(child_v));
                                    assert(self@ =~~= spec_step(m0).0);
                                    lemma_wf_push2(m0, self@, parent_v, child_v);
                                }
                                Step::Continue
                            } else if ns.len() > 0 {
                                let child = Frame {
                                    qname: ns[0].duplicate(),
                                    server: crate::ROOT_SERVER_V4,
                                    depth: if depth > 0 {
                                        depth - 1
                                    } else {
                                        0
                                    },
                                    cnames: Vec::new(),
                                    phase: Phase::Start,
                                };
                                let parent = Frame {
                                    qname,
                                    server,
                                    depth,
                                    cnames,
                                    phase: Phase::NsResolve { ns, j: 0 },
                                };
                                let ghost parent_v = parent@;
                                let ghost child_v = child@;
                                self.frames.push(parent);
                                self.frames.push(child);
                                proof {
                                    assert(names_view(Seq::<DnsName>::empty())
                                        =~= Seq::<Seq<Seq<u8>>>::empty());
                                    assert(frames_view(self.frames@) =~= rest_v.push(
                                        parent_v,
                                    ).push(child_v));
                                    assert(self@ =~~= spec_step(m0).0);
                                    lemma_wf_push2(m0, self@, parent_v, child_v);
                                }
                                Step::Continue
                            } else {
                                self.pending = Some(Err(ResolveError::NoAnswer));
                                proof {
                                    assert(self@ =~~= spec_step(m0).0);
                                    lemma_wf_pop_pending(
                                        m0,
                                        self@,
                                        Err(ResolveError::NoAnswer),
                                    );
                                }
                                Step::Continue
                            }
                        },
                    }
                },
                Phase::NsResolve { ns, j } => {
                    proof {
                        assert(phase_wf(top_v.phase));
                        assert(j < ns@.len());
                    }
                    let advance = match &res {
                        Ok(set) => set.v4.len() == 0,
                        Err(_) => true,
                    };
                    if !advance {
                        let set = match res {
                            Ok(set) => set,
                            Err(_) => {
                                proof {
                                    assert(false);
                                }
                                return Step::Continue;
                            },
                        };
                        let child = Frame {
                            qname: qname.duplicate(),
                            server: set.v4[0],
                            depth: if depth > 0 {
                                depth - 1
                            } else {
                                0
                            },
                            cnames: dup_names(&cnames),
                            phase: Phase::Start,
                        };
                        let parent = Frame {
                            qname,
                            server,
                            depth,
                            cnames,
                            phase: Phase::NsAddr { ns, j, addrs: set.v4, k: 0 },
                        };
                        let ghost parent_v = parent@;
                        let ghost child_v = child@;
                        self.frames.push(parent);
                        self.frames.push(child);
                        proof {
                            assert(frames_view(self.frames@) =~= rest_v.push(parent_v).push(
                                child_v,
                            ));
                            assert(self@ =~~= spec_step(m0).0);
                            lemma_wf_push2(m0, self@, parent_v, child_v);
                        }
                        Step::Continue
                    } else {
                        let ghost qv = qname@;
                        let ghost cnv = names_view(cnames@);
                        let ghost nsv = names_view(ns@);
                        let ghost jv = j as int;
                        self.advance_ns(qname, server, depth, cnames, ns, j);
                        proof {
                            if jv + 1 < nsv.len() {
                                let parent_v = FrameV {
                                    qname: qv,
                                    server,
                                    depth,
                                    cnames: cnv,
                                    phase: PhaseV::NsResolve { ns: nsv, j: jv + 1 },
                                };
                                let child_v = FrameV {
                                    qname: nsv[jv + 1],
                                    server: crate::ROOT_SERVER_V4,
                                    depth: dec_depth(depth),
                                    cnames: Seq::empty(),
                                    phase: PhaseV::Start,
                                };
                                lemma_wf_push2(m0, self@, parent_v, child_v);
                            } else {
                                lemma_wf_pop_pending(m0, self@, Err(ResolveError::NoAnswer));
                            }
                            assert(self@ =~~= spec_step(m0).0);
                        }
                        Step::Continue
                    }
                },
                Phase::NsAddr { ns, j, addrs, k } => {
                    proof {
                        assert(phase_wf(top_v.phase));
                        assert(j < ns@.len() && k < addrs@.len());
                    }
                    match res {
                        Ok(set) => {
                            self.pending = Some(Ok(set));
                            proof {
                                assert(self@ =~~= spec_step(m0).0);
                                lemma_wf_pop_pending(m0, self@, m0.pending->0);
                            }
                            Step::Continue
                        },
                        Err(_) => {
                            let addrs_len = addrs.len();
                            if k + 1 < addrs_len {
                                let child_server = addrs[k + 1];
                                let child = Frame {
                                    qname: qname.duplicate(),
                                    server: child_server,
                                    depth: if depth > 0 {
                                        depth - 1
                                    } else {
                                        0
                                    },
                                    cnames: dup_names(&cnames),
                                    phase: Phase::Start,
                                };
                                let parent = Frame {
                                    qname,
                                    server,
                                    depth,
                                    cnames,
                                    phase: Phase::NsAddr { ns, j, addrs, k: k + 1 },
                                };
                                let ghost parent_v = parent@;
                                let ghost child_v = child@;
                                self.frames.push(parent);
                                self.frames.push(child);
                                proof {
                                    assert(frames_view(self.frames@) =~= rest_v.push(
                                        parent_v,
                                    ).push(child_v));
                                    assert(self@ =~~= spec_step(m0).0);
                                    lemma_wf_push2(m0, self@, parent_v, child_v);
                                }
                                Step::Continue
                            } else {
                                let ghost qv = qname@;
                                let ghost cnv = names_view(cnames@);
                                let ghost nsv = names_view(ns@);
                                let ghost jv = j as int;
                                self.advance_ns(qname, server, depth, cnames, ns, j);
                                proof {
                                    if jv + 1 < nsv.len() {
                                        let parent_v = FrameV {
                                            qname: qv,
                                            server,
                                            depth,
                                            cnames: cnv,
                                            phase: PhaseV::NsResolve { ns: nsv, j: jv + 1 },
                                        };
                                        let child_v = FrameV {
                                            qname: nsv[jv + 1],
                                            server: crate::ROOT_SERVER_V4,
                                            depth: dec_depth(depth),
                                            cnames: Seq::empty(),
                                            phase: PhaseV::Start,
                                        };
                                        lemma_wf_push2(m0, self@, parent_v, child_v);
                                    } else {
                                        lemma_wf_pop_pending(
                                            m0,
                                            self@,
                                            Err(ResolveError::NoAnswer),
                                        );
                                    }
                                    assert(self@ =~~= spec_step(m0).0);
                                }
                                Step::Continue
                            }
                        },
                    }
                },
                _ => {
                    proof {
                        assert(false);
                    }
                    Step::Continue
                },
            }
        } else {
            let ghost old_frames = self.frames@;
            let top = match self.frames.pop() {
                Some(top) => top,
                None => {
                    proof {
                        assert(false);
                    }
                    return Step::Continue;
                },
            };
            proof {
                assert(m0.frames[m0.frames.len() - 1] == old_frames[old_frames.len() - 1]@);
                assert(frames_view(self.frames@) =~= m0.frames.drop_last());
            }
            let ghost top_v = m0.frames.last();
            let ghost rest_v = m0.frames.drop_last();
            let Frame { qname, server, depth, cnames, phase } = top;
            match phase {
                Phase::Start => {
                    if depth == 0 {
                        self.pending = Some(Err(ResolveError::DepthExceeded));
                        proof {
                            assert(self@ =~~= spec_step(m0).0);
                            lemma_wf_pop_pending(m0, self@, Err(ResolveError::DepthExceeded));
                        }
                        Step::Continue
                    } else {
                        let q = qname.duplicate();
                        let waiting = Frame { qname, server, depth, cnames, phase: Phase::Await };
                        let ghost waiting_v = waiting@;
                        self.frames.push(waiting);
                        proof {
                            assert(frames_view(self.frames@) =~= rest_v.push(waiting_v));
                            assert(self@ =~~= spec_step(m0).0);
                            lemma_wf_replace_top(m0, self@, waiting_v);
                        }
                        Step::Query { qname: q, server }
                    }
                },
                _ => {
                    proof {
                        assert(false);
                    }
                    Step::Continue
                },
            }
        }
    }

    /// Moves a frame whose name-server branch is exhausted on to the next
    /// name server, or fails it with no answer.
    fn advance_ns(
        &mut self,
        qname: DnsName,
        server: u32,
        depth: u32,
        cnames: Vec<DnsName>,
        ns: Vec<DnsName>,
        j: usize,
    )
        requires
            j < ns@.len(),
        ensures
            final(self).done == old(self).done,
            j + 1 < ns@.len() ==> final(self).pending == old(self).pending && final(self)@.frames
                == frames_view(old(self).frames@).push(
                FrameV {
                    qname: qname@,
                    server,
                    depth,
                    cnames: names_view(cnames@),
                    phase: PhaseV::NsResolve { ns: names_view(ns@), j: j + 1 },
                },
            ).push(
                FrameV {
                    qname: names_view(ns@)[j + 1],
                    server: crate::ROOT_SERVER_V4,
                    depth: dec_depth(depth),
                    cnames: Seq::empty(),
                    phase: PhaseV::Start,
                },
            ),
            j + 1 >= ns@.len() ==> final(self)@.frames == frames_view(old(self).frames@)
                && final(self)@.pending == Some(
                Err::<ResolvedSetV, ResolveError>(ResolveError::NoAnswer),
            ),
    {
        let ns_len = ns.len();
        if j + 1 < ns_len {
            let child = Frame {
                qname: ns[j + 1].duplicate(),
                server: crate::ROOT_SERVER_V4,
                depth: if depth > 0 {
                    depth - 1
                } else {
                    0
                },
                cnames: Vec::new(),
                phase: Phase::Start,
            };
            let parent = Frame {
                qname,
                server,
                depth,
                cnames,
                phase: Phase::NsResolve { ns, j: j + 1 },
            };
            let ghost parent_v = parent@;
            let ghost child_v = child@;
            self.frames.push(parent);
            self.frames.push(child);
            proof {
                assert(names_view(Seq::<DnsName>::empty()) =~= Seq::<Seq<Seq<u8>>>::empty());
                assert(frames_view(self.frames@) =~= frames_view(old(self).frames@).push(
                    parent_v,
                ).push(child_v));
            }
        } else {
            self.pending = Some(Err(ResolveError::NoAnswer));
            proof {
                assert(frames_view(self.frames@) =~= frames_view(old(self).frames@));
            }
        }
    }
}

impl Resolver {
    /// Hands the awaiting frame what its exchange produced: the decoded
    /// response, or nothing if the exchange or the decode failed.
    #[verifier::rlimit(50)]
    pub fn deliver(&mut self, response: Option<&Dns>)
        requires
            old(self)@.wf(),
            old(self)@.awaiting(),
        ensures
            final(self)@ == spec_deliver(
                old(self)@,
                match response {
                    Some(m) => Some(m@),
                    None => None,
                },
            ),
            final(self)@.wf(),
    {
        let ghost m0 = self@;
        let ghost old_frames = self.frames@;
        let top = match self.frames.pop() {
            Some(top) => top,
            None => {
                proof {
                    assert(false);
                }
                return ;
            },
        };
        proof {
            assert(m0.frames[m0.frames.len() - 1] == old_frames[old_frames.len() - 1]@);
            assert(frames_view(self.frames@) =~= m0.frames.drop_last());
        }
        let ghost top_v = m0.frames.last();
        let ghost rest_v = m0.frames.drop_last();
        let Frame { qname, server, depth, cnames, phase } = top;
        match response {
            None => {
                self.pending = Some(Err(ResolveError::NoAnswer));
                proof {
                    assert(self@ =~~= spec_deliver(m0, None::<DnsV>));
                    lemma_wf_pop_pending(m0, self@, Err(ResolveError::NoAnswer));
                }
            },
            Some(msg) => {
                let (v4, v6, cn) = inspect(&msg.answers, &qname);
                let rcode_ok = msg.header.flags.rcode == 0;
                if rcode_ok && (v4.len() > 0 || v6.len() > 0) {
                    let ghost set_v = ResolvedSetV {
                        v4: spec_v4_of(msg@.answers, top_v.qname),
                        v6: spec_v6_of(msg@.answers, top_v.qname),
                        cnames: top_v.cnames + spec_cnames_of(msg@.answers),
                    };
                    let mut all = cnames;
                    append_names(&mut all, &cn);
                    self.pending = Some(Ok(ResolvedSet { v4, v6, cnames: all }));
                    proof {
                        assert(result_view(self.pending->0) == Ok::<ResolvedSetV, ResolveError>(
                            set_v,
                        ));
                        assert(self@ =~~= spec_deliver(m0, Some(msg@)));
                        lemma_wf_pop_pending(m0, self@, Ok(set_v));
                    }
                } else if rcode_ok && cn.len() > 0 {
                    let target = cn[0].duplicate();
                    let mut all = cnames;
                    all.push(cn[0].duplicate());
                    let child = Frame {
                        qname: target,
                        server,
                        depth: if depth > 0 {
                            depth - 1
                        } else {
                            0
                        },
                        cnames: all,
                        phase: Phase::Start,
                    };
                    let ghost child_v = child@;
                    self.frames.push(child);
                    proof {
                        assert(names_view(all@) =~= top_v.cnames.push(
                            spec_cnames_of(msg@.answers)[0],
                        ));
                        assert(frames_view(self.frames@) =~= rest_v.push(child_v));
                        assert(self@ =~~= spec_deliver(m0, Some(msg@)));
                        lemma_wf_replace_top(m0, self@, child_v);
                    }
                } else {
                    let ns = collect_ns(&msg.authorities);
                    let glue = collect_glue(&msg.additionals);
                    if glue.len() > 0 {
                        let g0 = glue[0];
                        let child = Frame {
                            qname: qname.duplicate(),
                            server: g0,
                            depth: if depth > 0 {
                                depth - 1
                            } else {
                                0
                            },
                            cnames: dup_names(&cnames),
                            phase: Phase::Start,
                        };
                        let parent = Frame {
                            qname,
                            server,
                            depth,
                            cnames,
                            phase: Phase::Glue { ns, glue, i: 0 },
                        };
                        let ghost parent_v = parent@;
                        let ghost child_v = child@;
                        self.frames.push(parent);
                        self.frames.push(child);
                        proof {
                            assert(frames_view(self.frames@) =~= rest_v.push(parent_v).push(
                                child_v,
                            ));
                            assert(self@ =~~= spec_deliver(m0, Some(msg@)));
                            lemma_wf_push2(m0, self@, parent_v, child_v);
                        }
                    } else if ns.len() > 0 {
                        let child_q = ns[0].duplicate();
                        let parent = Frame {
                            qname,
                            server,
                            depth,
                            cnames,
                            phase: Phase::NsResolve { ns, j: 0 },
                        };
                        let child = Frame {
                            qname: child_q,
                            server: crate::ROOT_SERVER_V4,
                            depth: if depth > 0 {
                                depth - 1
                            } else {
                                0
                            },
                            cnames: Vec::new(),
                            phase: Phase::Start,
                        };
                        let ghost parent_v = parent@;
                        let ghost child_v = child@;
                        self.frames.push(parent);
                        self.frames.push(child);
                        proof {
                            assert(names_view(Seq::<DnsName>::empty())
                                =~= Seq::<Seq<Seq<u8>>>::empty());
                            assert(frames_view(self.frames@) =~= rest_v.push(parent_v).push(
                                child_v,
                            ));
                            assert(self@ =~~= spec_deliver(m0, Some(msg@)));
                            lemma_wf_push2(m0, self@, parent_v, child_v);
                        }
                    } else {
                        self.pending = Some(Err(ResolveError::NoAnswer));
                        proof {
                            assert(self@ =~~= spec_deliver(m0, Some(msg@)));
                            lemma_wf_pop_pending(m0, self@, Err(ResolveError::NoAnswer));
                        }
                    }
                }
            },
        }
    }
}

/// The depth bound: a resolution begun with a zero budget fails with the
/// depth error after two internal transitions, and none of its steps ever
/// asks for a network exchange.
pub proof fn lemma_depth_zero_no_network(m0: ResolverV)
    requires
        m0.frames.len() == 1,
        m0.frames[0].phase is Start,
        m0.frames[0].depth == 0,
        m0.pending is None,
        m0.done is None,
    ensures
        !(spec_step(m0).1 is Query),
        !(spec_step(spec_step(m0).0).1 is Query),
        spec_step(spec_step(spec_step(m0).0).0).1 == StepV::Done(
            Err::<ResolvedSetV, ResolveError>(ResolveError::DepthExceeded),
        ),
        spec_step(spec_step(m0).0).0.done == Some(
            Err::<ResolvedSetV, ResolveError>(ResolveError::DepthExceeded),
        ),
{
    let m1 = spec_step(m0).0;
    assert(m1.frames =~= Seq::<FrameV>::empty());
    let m2 = spec_step(m1).0;
    assert(m2.done == Some(Err::<ResolvedSetV, ResolveError>(ResolveError::DepthExceeded)));
}

} // verus!
