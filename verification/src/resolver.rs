//! The decisions of an iterative resolver, without its transport.
//!
//! A lookup starts at a root server. Each reply either ends the lookup,
//! names the address of the next server to ask, or names a server by host
//! only, whose address then has to be looked up first. The resolver keeps
//! the lookups that wait for one another on a stack and hands out one query
//! at a time; the caller sends it and comes back with the reply.

use vstd::prelude::*;
use crate::error::DnsError;
use crate::header::ResultCode;
use crate::packets::{
    build_query, first_address, name_servers, query_view, resolved_address, DnsPacket, PacketView,
};
use crate::record::{Ipv4Address, QueryType};

verus! {

/// How many queries one lookup may send, the lookups it waits for included.
pub const MAX_HOPS: usize = 20;

/// How many lookups may wait for one another.
pub const MAX_DEPTH: usize = 5;

/// The id under which the resolver's queries are sent.
pub const QUERY_ID: u16 = 6666;

/// The address of the root server where every lookup starts.
pub open spec fn root_hint() -> Ipv4Address {
    Ipv4Address { a: 198, b: 41, c: 0, d: 4 }
}

/// The address of the root server where every lookup starts.
pub fn root_server() -> (addr: Ipv4Address)
    ensures
        addr == root_hint(),
{
    Ipv4Address::new(198, 41, 0, 4)
}

/// What one reply means for the lookup that asked.
#[derive(Debug, Clone, PartialEq, Eq)]
pub enum Verdict {
    /// The reply answers the question.
    Answer,
    /// The reply says that the name does not exist.
    NameError,
    /// The reply names a server for the name and gives its address.
    NextServer(Ipv4Address),
    /// The reply names a server for the name by host only.
    SubLookup(String),
    /// The reply leads no further.
    Exhausted,
}

/// What a verdict says.
pub enum VerdictView {
    Answer,
    NameError,
    NextServer(Ipv4Address),
    SubLookup(Seq<char>),
    Exhausted,
}

impl View for Verdict {
    type V = VerdictView;

    open spec fn view(&self) -> VerdictView {
        match self {
            Verdict::Answer => VerdictView::Answer,
            Verdict::NameError => VerdictView::NameError,
            Verdict::NextServer(addr) => VerdictView::NextServer(*addr),
            Verdict::SubLookup(host) => VerdictView::SubLookup(host@),
            Verdict::Exhausted => VerdictView::Exhausted,
        }
    }
}

/// What a reply means for a lookup of `qname`: an answer, if it has answers
/// and reports no error; else a name error, if it reports one; else the
/// address it gives for a name server of `qname`; else the host of the first
/// such name server; else nothing.
pub open spec fn verdict_of(reply: PacketView, qname: Seq<char>) -> VerdictView {
    let servers = name_servers(reply.authorities, qname);
    if reply.answers.len() > 0 && reply.header.rescode == ResultCode::NOERROR {
        VerdictView::Answer
    } else if reply.header.rescode == ResultCode::NXDOMAIN {
        VerdictView::NameError
    } else if resolved_address(servers, reply.resources) is Some {
        VerdictView::NextServer(resolved_address(servers, reply.resources)->Some_0)
    } else if servers.len() > 0 {
        VerdictView::SubLookup(servers[0].1)
    } else {
        VerdictView::Exhausted
    }
}

/// Say what a reply means for a lookup of `qname`.
pub fn examine(reply: &DnsPacket, qname: &str) -> (v: Verdict)
    ensures
        v@ == verdict_of(reply@, qname@),
{
    if reply.answers.len() > 0 && reply.header.rescode == ResultCode::NOERROR {
        return Verdict::Answer;
    }
    if reply.header.rescode == ResultCode::NXDOMAIN {
        return Verdict::NameError;
    }
    if let Some(addr) = reply.get_resolved_ns(qname) {
        return Verdict::NextServer(addr);
    }
    match reply.get_unresolved_ns(qname) {
        Some(host) => Verdict::SubLookup(host.to_owned()),
        None => Verdict::Exhausted,
    }
}

/// One lookup: the question, the server to ask next, and, while the lookup
/// waits for the address of a name server, the reply that named it.
#[derive(Debug, Clone)]
pub struct Frame {
    pub qname: String,
    pub qtype: QueryType,
    pub server: Ipv4Address,
    pub held: Option<DnsPacket>,
}

/// What a lookup says.
pub struct FrameView {
    pub qname: Seq<char>,
    pub qtype: QueryType,
    pub server: Ipv4Address,
    pub held: Option<PacketView>,
}

/// What a reply that may be held says.
pub open spec fn held_view(held: Option<DnsPacket>) -> Option<PacketView> {
    match held {
        Some(p) => Some(p@),
        None => None,
    }
}

impl View for Frame {
    type V = FrameView;

    open spec fn view(&self) -> FrameView {
        FrameView {
            qname: self.qname@,
            qtype: self.qtype,
            server: self.server,
            held: held_view(self.held),
        }
    }
}

/// What the caller is to do next.
#[derive(Debug, Clone)]
pub enum Step {
    /// Send `query` to `server` and come back with the reply.
    Query { server: Ipv4Address, query: DnsPacket },
    /// The lookup has ended with this reply.
    Done(DnsPacket),
    /// The lookup has failed.
    Failed(DnsError),
}

/// What a step says.
pub enum StepView {
    Query { server: Ipv4Address, query: PacketView },
    Done(PacketView),
    Failed(DnsError),
}

impl View for Step {
    type V = StepView;

    open spec fn view(&self) -> StepView {
        match self {
            Step::Query { server, query } => StepView::Query { server: *server, query: query@ },
            Step::Done(reply) => StepView::Done(reply@),
            Step::Failed(e) => StepView::Failed(*e),
        }
    }
}

/// A resolution under way: the lookups that wait for one another, the
/// outermost first and the one that is being asked last, and the number of
/// queries handed out so far.
#[derive(Debug, Clone)]
pub struct Resolver {
    pub frames: Vec<Frame>,
    pub hops: usize,
}

/// What a resolution says.
pub struct ResolverView {
    pub frames: Seq<FrameView>,
    pub hops: nat,
}

/// What each of a list of lookups says.
pub open spec fn frame_views(frames: Seq<Frame>) -> Seq<FrameView> {
    Seq::new(frames.len(), |i: int| frames[i]@)
}

impl View for Resolver {
    type V = ResolverView;

    open spec fn view(&self) -> ResolverView {
        ResolverView { frames: frame_views(self.frames@), hops: self.hops as nat }
    }
}

/// A resolution that has come to its end.
pub open spec fn ended(hops: nat) -> ResolverView {
    ResolverView { frames: Seq::empty(), hops }
}

/// The query for the innermost lookup is handed out, unless the queries are
/// used up: then the resolution fails.
pub open spec fn ask_spec(frames: Seq<FrameView>, hops: nat) -> (ResolverView, StepView) {
    if frames.len() == 0 || hops >= MAX_HOPS {
        (ended(hops), StepView::Failed(DnsError::NoDelegationProgress))
    } else {
        (
            ResolverView { frames, hops: hops + 1 },
            StepView::Query {
                server: frames.last().server,
                query: query_view(frames.last().qname, frames.last().qtype, QUERY_ID, false),
            },
        )
    }
}

/// The innermost lookup ends with `result`. If no lookup waits for it, the
/// resolution is done. Else the waiting lookup goes on at the first address
/// among the answers of `result`; if there is none, it ends in its turn,
/// with the reply it held.
pub open spec fn finish_spec(frames: Seq<FrameView>, hops: nat, result: PacketView) -> (
    ResolverView,
    StepView,
)
    decreases frames.len(),
{
    if frames.len() <= 1 {
        (ended(hops), StepView::Done(result))
    } else {
        let waiting = frames.drop_last();
        let parent = waiting.last();
        match first_address(result.answers) {
            Some(addr) => ask_spec(
                waiting.drop_last().push(FrameView { server: addr, held: None, ..parent }),
                hops,
            ),
            None => match parent.held {
                Some(reply) => finish_spec(waiting, hops, reply),
                None => (ended(hops), StepView::Failed(DnsError::NoDelegationProgress)),
            },
        }
    }
}

/// What a reply to the query that was handed out last does to a resolution.
pub open spec fn reply_spec(state: ResolverView, reply: PacketView) -> (ResolverView, StepView) {
    if state.frames.len() == 0 {
        (ended(state.hops), StepView::Failed(DnsError::NoDelegationProgress))
    } else {
        let top = state.frames.last();
        let below = state.frames.drop_last();
        match verdict_of(reply, top.qname) {
            VerdictView::NextServer(addr) => ask_spec(
                below.push(FrameView { server: addr, ..top }),
                state.hops,
            ),
            VerdictView::SubLookup(host) => if state.frames.len() >= MAX_DEPTH {
                (ended(state.hops), StepView::Failed(DnsError::NoDelegationProgress))
            } else {
                ask_spec(
                    below.push(FrameView { held: Some(reply), ..top }).push(
                        FrameView {
                            qname: host,
                            qtype: QueryType::A,
                            server: root_hint(),
                            held: None,
                        },
                    ),
                    state.hops,
                )
            },
            _ => finish_spec(state.frames, state.hops, reply),
        }
    }
}

impl Resolver {
    /// Begin to resolve `qname` for records of type `qtype`: the first
    /// query goes to the root server.
    pub fn start(qname: &str, qtype: QueryType) -> (res: (Resolver, Step))
        ensures
            (res.0@, res.1@) == ask_spec(
                seq![FrameView { qname: qname@, qtype, server: root_hint(), held: None }],
                0,
            ),
    {
        let mut resolver = Resolver { frames: Vec::new(), hops: 0 };
        resolver.frames.push(
            Frame { qname: qname.to_owned(), qtype: qtype, server: root_server(), held: None },
        );
        proof {
            assert(frame_views(resolver.frames@) =~= seq![
                FrameView { qname: qname@, qtype, server: root_hint(), held: None },
            ]);
        }
        let step = resolver.ask();
        (resolver, step)
    }

    /// Whether the resolution still waits for a reply.
    pub fn is_active(&self) -> (active: bool)
        ensures
            active == (self@.frames.len() > 0),
    {
        self.frames.len() > 0
    }

    /// Hand out the query of the innermost lookup.
    fn ask(&mut self) -> (step: Step)
        ensures
            (final(self)@, step@) == ask_spec(old(self)@.frames, old(self)@.hops),
    {
        let n = self.frames.len();
        if n == 0 || self.hops >= MAX_HOPS {
            self.frames = Vec::new();
            proof {
                assert(frame_views(self.frames@) =~= Seq::<FrameView>::empty());
            }
            return Step::Failed(DnsError::NoDelegationProgress);
        }
        self.hops += 1;
        let top = &self.frames[n - 1];
        let query = build_query(top.qname.as_str(), top.qtype, QUERY_ID, false);
        Step::Query { server: top.server, query: query }
    }

    /// End the resolution in failure.
    fn give_up(&mut self) -> (step: Step)
        ensures
            final(self)@ == ended(old(self)@.hops),
            step@ == StepView::Failed(DnsError::NoDelegationProgress),
    {
        self.frames = Vec::new();
        proof {
            assert(frame_views(self.frames@) =~= Seq::<FrameView>::empty());
        }
        Step::Failed(DnsError::NoDelegationProgress)
    }

    /// The innermost lookup ends with `result`.
    fn finish(&mut self, result: DnsPacket) -> (step: Step)
        ensures
            (final(self)@, step@) == finish_spec(old(self)@.frames, old(self)@.hops, result@),
    {
        let ghost goal = finish_spec(self@.frames, self@.hops, result@);
        let mut current = result;
        loop
            invariant
                goal == finish_spec(old(self)@.frames, old(self)@.hops, result@),
                goal == finish_spec(self@.frames, self@.hops, current@),
            decreases self.frames@.len(),
        {
            if self.frames.len() <= 1 {
                self.frames = Vec::new();
                proof {
                    assert(frame_views(self.frames@) =~= Seq::<FrameView>::empty());
                }
                return Step::Done(current);
            }
            let ghost before = self@.frames;
            let _ = self.frames.pop();
            let parent = self.frames.pop().unwrap();
            let ghost below = self@.frames;
            proof {
                assert(below =~= before.drop_last().drop_last());
                assert(parent@ == before.drop_last().last());
            }
            let Frame { qname, qtype, server, held } = parent;
            match current.get_random_a() {
                Some(addr) => {
                    self.frames.push(Frame { qname: qname, qtype: qtype, server: addr, held: None });
                    proof {
                        assert(self@.frames =~= below.push(
                            FrameView { server: addr, held: None, ..parent@ },
                        ));
                    }
                    return self.ask();
                },
                None => match held {
                    Some(reply) => {
                        proof {
                            assert(before.drop_last() =~= below.push(parent@));
                        }
                        self.frames.push(
                            Frame { qname: qname, qtype: qtype, server: server, held: None },
                        );
                        current = reply;
                        proof {
                            assert(self@.frames.len() == before.len() - 1);
                            assert(before.drop_last().drop_last() =~= below);
                            assert(self@.frames.drop_last() =~= below);
                            lemma_finish_ignores_top_held(
                                before.drop_last(),
                                self@.frames,
                                self@.hops,
                                current@,
                            );
                        }
                    },
                    None => {
                        return self.give_up();
                    },
                },
            }
        }
    }

    /// Take the reply to the query that was handed out last, and say what
    /// to do next.
    pub fn on_reply(&mut self, reply: DnsPacket) -> (step: Step)
        ensures
            (final(self)@, step@) == reply_spec(old(self)@, reply@),
    {
        let n = self.frames.len();
        if n == 0 {
            return self.give_up();
        }
        let verdict = examine(&reply, self.frames[n - 1].qname.as_str());
        match verdict {
            Verdict::NextServer(addr) => {
                let ghost before = self@.frames;
                let top = self.frames.pop().unwrap();
                let ghost below = self@.frames;
                let Frame { qname, qtype, server, held } = top;
                self.frames.push(Frame { qname: qname, qtype: qtype, server: addr, held: held });
                proof {
                    assert(below =~= before.drop_last());
                    assert(self@.frames =~= below.push(FrameView { server: addr, ..top@ }));
                }
                self.ask()
            },
            Verdict::SubLookup(host) => {
                if n >= MAX_DEPTH {
                    return self.give_up();
                }
                let ghost before = self@.frames;
                let top = self.frames.pop().unwrap();
                let ghost below = self@.frames;
                let Frame { qname, qtype, server, held } = top;
                self.frames.push(
                    Frame { qname: qname, qtype: qtype, server: server, held: Some(reply) },
                );
                self.frames.push(
                    Frame { qname: host, qtype: QueryType::A, server: root_server(), held: None },
                );
                proof {
                    assert(below =~= before.drop_last());
                    assert(self@.frames =~= below.push(
                        FrameView { held: Some(reply@), ..top@ },
                    ).push(
                        FrameView {
                            qname: host@,
                            qtype: QueryType::A,
                            server: root_hint(),
                            held: None,
                        },
                    ));
                }
                self.ask()
            },
            _ => self.finish(reply),
        }
    }

    /// The transport failed, or the reply could not be read: the
    /// resolution fails with that error.
    pub fn on_failure(&mut self, error: DnsError) -> (step: Step)
        ensures
            final(self)@ == ended(old(self)@.hops),
            step@ == StepView::Failed(error),
    {
        self.frames = Vec::new();
        proof {
            assert(frame_views(self.frames@) =~= Seq::<FrameView>::empty());
        }
        Step::Failed(error)
    }
}

/// How a lookup ends does not depend on what the innermost lookup held.
pub proof fn lemma_finish_ignores_top_held(
    a: Seq<FrameView>,
    b: Seq<FrameView>,
    hops: nat,
    result: PacketView,
)
    requires
        a.len() == b.len(),
        a.len() > 0,
        a.drop_last() == b.drop_last(),
    ensures
        finish_spec(a, hops, result) == finish_spec(b, hops, result),
{
    if a.len() > 1 {
        assert(a.drop_last().last() == b.drop_last().last());
    }
}

} // verus!
