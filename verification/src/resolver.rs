//! The decisions of recursive resolution.
//!
//! A resolution starts at a root server and follows referrals until it has
//! an answer, learns that the name does not exist, runs out of referrals, or
//! runs out of time. This module holds what is decided on the way; sending a
//! query and waiting for the reply is left to the caller, who tells the
//! `Resolver` what happened as an `Event` and is told what to do next as an
//! `Action`.

use vstd::prelude::*;
use vstd::string::*;
use crate::dns_packet::{
    first_a, questions_view, records_view, resolved_ns, unresolved_ns, DnsPacket, PacketView,
};
use crate::dns_record::{DnsQuestion, QuestionView};
use crate::dns_types::{DnsHeader, QueryType, ResultCode};
use crate::error::DnsError;

verus! {

/// The address of the root server at which every resolution starts,
/// 198.41.0.4.
pub const ROOT_SERVER: u32 = 0xC629_0004;

/// The port that queries are sent to.
pub const DNS_PORT: u16 = 53;

/// The transaction id of every query.
pub const QUERY_ID: u16 = 6666;

/// How long a whole resolution may take, in nanoseconds: ten seconds.
pub const MAX_NANOS: u128 = 10_000_000_000;

/// How long the caller waits for one reply, in seconds.
pub const RECEIVE_SECONDS: u64 = 10;

/// The query for the records of type `qtype` that `name` owns: one
/// question, recursion desired.
pub open spec fn query_for(name: Seq<char>, qtype: QueryType) -> PacketView {
    PacketView {
        header: DnsHeader {
            id: QUERY_ID,
            recursion_desired: true,
            questions: 1,
            ..DnsHeader::new_header()
        },
        questions: seq![QuestionView { name, qtype }],
        answers: Seq::empty(),
        authorities: Seq::empty(),
        resources: Seq::empty(),
    }
}

/// Makes the query for the records of type `qtype` that `name` owns.
pub fn build_query(name: &String, qtype: QueryType) -> (r: DnsPacket)
    ensures
        r@ == query_for(name@, qtype),
{
    let mut packet = DnsPacket::new();
    packet.header.id = QUERY_ID;
    packet.header.questions = 1;
    packet.header.recursion_desired = true;
    packet.questions.push(DnsQuestion::new(name.clone(), qtype));
    proof {
        assert(questions_view(packet.questions@) =~= seq![QuestionView { name: name@, qtype }]);
        assert(records_view(packet.answers@) =~= Seq::<crate::dns_record::RecordView>::empty());
        assert(records_view(packet.authorities@) =~= Seq::<crate::dns_record::RecordView>::empty());
        assert(records_view(packet.resources@) =~= Seq::<crate::dns_record::RecordView>::empty());
    }
    packet
}

/// A reply that was kept, with the name and type it answers.
#[derive(Debug)]
pub struct CacheEntry {
    pub name: String,
    pub qtype: QueryType,
    pub packet: DnsPacket,
}

/// The replies that one resolution has kept. Of two entries for the same
/// name and type, the later one holds.
#[derive(Debug)]
pub struct Cache {
    pub entries: Vec<CacheEntry>,
}

/// The reply that `entries` hold for `name` and `qtype`: that of the last
/// entry for them.
pub open spec fn cached(entries: Seq<CacheEntry>, name: Seq<char>, qtype: QueryType) -> Option<
    PacketView,
>
    decreases entries.len(),
{
    if entries.len() == 0 {
        None
    } else if entries.last().name@ == name && entries.last().qtype == qtype {
        Some(entries.last().packet@)
    } else {
        cached(entries.drop_last(), name, qtype)
    }
}

impl View for Cache {
    type V = Map<(Seq<char>, QueryType), PacketView>;

    open spec fn view(&self) -> Map<(Seq<char>, QueryType), PacketView> {
        Map::new(
            |k: (Seq<char>, QueryType)| cached(self.entries@, k.0, k.1) is Some,
            |k: (Seq<char>, QueryType)| cached(self.entries@, k.0, k.1)->0,
        )
    }
}

impl Cache {
    /// A cache that holds nothing.
    pub fn new() -> (r: Cache)
        ensures
            r@ == Map::<(Seq<char>, QueryType), PacketView>::empty(),
    {
        let r = Cache { entries: Vec::new() };
        assert(r@ =~= Map::<(Seq<char>, QueryType), PacketView>::empty());
        r
    }

    /// A copy of the reply kept for `name` and `qtype`.
    pub fn get(&self, name: &String, qtype: QueryType) -> (r: Option<DnsPacket>)
        ensures
            match r {
                Some(packet) => self@.contains_key((name@, qtype)) && self@[(name@, qtype)]
                    == packet@,
                None => !self@.contains_key((name@, qtype)),
            },
    {
        let mut i: usize = self.entries.len();
        assert(self.entries@.take(i as int) =~= self.entries@);
        while i > 0
            invariant
                i <= self.entries@.len(),
                cached(self.entries@, name@, qtype) == cached(
                    self.entries@.take(i as int),
                    name@,
                    qtype,
                ),
            decreases i,
        {
            i -= 1;
            proof {
                let upto = self.entries@.take(i + 1);
                assert(upto.last() == self.entries@[i as int]);
                assert(upto.drop_last() =~= self.entries@.take(i as int));
            }
            if self.entries[i].name == *name && self.entries[i].qtype == qtype {
                return Some(self.entries[i].packet.clone());
            }
        }
        None
    }

    /// Keeps `packet` as the reply for `name` and `qtype`.
    pub fn insert(&mut self, name: String, qtype: QueryType, packet: DnsPacket)
        ensures
            final(self)@ == old(self)@.insert((name@, qtype), packet@),
    {
        self.entries.push(CacheEntry { name, qtype, packet });
        proof {
            assert(self.entries@.drop_last() =~= old(self).entries@);
            assert(self@ =~= old(self)@.insert((name@, qtype), packet@));
        }
    }
}

/// What the caller reports.
#[derive(Debug, PartialEq, Eq)]
pub enum Event {
    /// A new turn begins; so much time has passed since the resolution
    /// began.
    Turn { elapsed_nanos: u128 },
    /// The server that was asked has replied.
    Reply(DnsPacket),
    /// The query could not be sent, or no reply could be read; `timed_out`
    /// tells whether the wait for the reply ran out.
    Failed { timed_out: bool },
    /// The resolution of a name server's name, which was asked for when
    /// `reply` had come, has ended: with `found`, or with a failure.
    Nameserver { reply: DnsPacket, found: Option<DnsPacket> },
}

/// What the caller is to do.
#[derive(Debug, PartialEq, Eq)]
pub enum Action {
    /// Send `packet` to `server` at `port` and wait for one reply; report
    /// it as `Reply`, or report `Failed` if the query could not be sent or
    /// no reply could be read.
    Query { server: u32, port: u16, packet: DnsPacket },
    /// Resolve the `A` records of `name` in a resolution of its own and
    /// report as `Nameserver` how it ended, together with `reply`.
    Resolve { name: String, reply: DnsPacket },
    /// Begin a new turn.
    Continue,
    /// The resolution has ended with this message.
    Finish(DnsPacket),
    /// The resolution has failed.
    Fail(DnsError),
}

/// The mathematical content of an `Event`.
pub enum EventView {
    Turn { elapsed_nanos: u128 },
    Reply(PacketView),
    Failed { timed_out: bool },
    Nameserver { reply: PacketView, found: Option<PacketView> },
}

/// The mathematical content of an `Action`.
pub enum ActionView {
    Query { server: u32, port: u16, packet: PacketView },
    Resolve { name: Seq<char>, reply: PacketView },
    Continue,
    Finish(PacketView),
    Fail(DnsError),
}

impl View for Event {
    type V = EventView;

    open spec fn view(&self) -> EventView {
        match *self {
            Event::Turn { elapsed_nanos } => EventView::Turn { elapsed_nanos },
            Event::Reply(packet) => EventView::Reply(packet@),
            Event::Failed { timed_out } => EventView::Failed { timed_out },
            Event::Nameserver { reply, found } => EventView::Nameserver {
                reply: reply@,
                found: match found {
                    Some(packet) => Some(packet@),
                    None => None,
                },
            },
        }
    }
}

impl View for Action {
    type V = ActionView;

    open spec fn view(&self) -> ActionView {
        match *self {
            Action::Query { server, port, packet } => ActionView::Query {
                server,
                port,
                packet: packet@,
            },
            Action::Resolve { name, reply } => ActionView::Resolve { name: name@, reply: reply@ },
            Action::Continue => ActionView::Continue,
            Action::Finish(packet) => ActionView::Finish(packet@),
            Action::Fail(e) => ActionView::Fail(e),
        }
    }
}

/// One resolution: what is asked, the server to ask next, and the replies
/// kept so far. Nothing of it outlives the resolution.
#[derive(Debug)]
pub struct Resolver {
    pub name: String,
    pub qtype: QueryType,
    pub server: u32,
    pub cache: Cache,
}

/// The mathematical content of a `Resolver`.
pub struct ResolverView {
    pub name: Seq<char>,
    pub qtype: QueryType,
    pub server: u32,
    pub cache: Map<(Seq<char>, QueryType), PacketView>,
}

impl View for Resolver {
    type V = ResolverView;

    open spec fn view(&self) -> ResolverView {
        ResolverView {
            name: self.name@,
            qtype: self.qtype,
            server: self.server,
            cache: self.cache@,
        }
    }
}

impl ResolverView {
    /// What a new turn begins with: failure if the time is up, else the
    /// reply kept for what is asked, if there is one, else a query to the
    /// server whose turn it is.
    pub open spec fn on_turn(self, elapsed_nanos: u128) -> ActionView {
        if elapsed_nanos > MAX_NANOS {
            ActionView::Fail(DnsError::Timeout)
        } else if self.cache.contains_key((self.name, self.qtype)) {
            ActionView::Finish(self.cache[(self.name, self.qtype)])
        } else {
            ActionView::Query {
                server: self.server,
                port: DNS_PORT,
                packet: query_for(self.name, self.qtype),
            }
        }
    }

    /// Whether `reply` answers: it has an answer and reports no error.
    pub open spec fn answers(reply: PacketView) -> bool {
        reply.answers.len() > 0 && reply.header.rescode == ResultCode::NOERROR
    }

    /// What follows a reply.
    ///
    /// A reply that answers is kept and ends the resolution, and so does,
    /// without being kept, one that says that the name does not exist. Else
    /// the reply is a referral: if it gives the address of a name server for
    /// the name, that server is asked next; if it only names one, the name
    /// must be resolved first; if it does neither, it ends the resolution as
    /// it is.
    pub open spec fn on_reply(self, reply: PacketView) -> (ResolverView, ActionView) {
        if ResolverView::answers(reply) {
            (
                ResolverView { cache: self.cache.insert((self.name, self.qtype), reply), ..self },
                ActionView::Finish(reply),
            )
        } else if reply.header.rescode == ResultCode::NXDOMAIN {
            (self, ActionView::Finish(reply))
        } else {
            match resolved_ns(reply.authorities, reply.resources, self.name) {
                Some(server) => (ResolverView { server, ..self }, ActionView::Continue),
                None => match unresolved_ns(reply.authorities, reply.resources, self.name) {
                    Some(name) => (self, ActionView::Resolve { name, reply }),
                    None => (self, ActionView::Finish(reply)),
                },
            }
        }
    }

    /// What follows the resolution of a name server's name: if it found an
    /// address, that server is asked next; if it failed or found none, the
    /// reply that named the server ends the resolution.
    pub open spec fn on_nameserver(self, reply: PacketView, found: Option<PacketView>) -> (
        ResolverView,
        ActionView,
    ) {
        match found {
            Some(packet) => match first_a(packet.answers) {
                Some(server) => (ResolverView { server, ..self }, ActionView::Continue),
                None => (self, ActionView::Finish(reply)),
            },
            None => (self, ActionView::Finish(reply)),
        }
    }

    /// The state after `event` and the action that it calls for.
    pub open spec fn next(self, event: EventView) -> (ResolverView, ActionView) {
        match event {
            EventView::Turn { elapsed_nanos } => (self, self.on_turn(elapsed_nanos)),
            EventView::Reply(reply) => self.on_reply(reply),
            EventView::Failed { timed_out } => (
                self,
                ActionView::Fail(
                    if timed_out {
                        DnsError::Timeout
                    } else {
                        DnsError::Transport
                    },
                ),
            ),
            EventView::Nameserver { reply, found } => self.on_nameserver(reply, found),
        }
    }
}

impl Resolver {
    /// A resolution of the records of type `qtype` that `name` owns. It
    /// starts at the root server and has kept no reply.
    pub fn new(name: String, qtype: QueryType) -> (r: Resolver)
        ensures
            r@ == (ResolverView {
                name: name@,
                qtype,
                server: ROOT_SERVER,
                cache: Map::<(Seq<char>, QueryType), PacketView>::empty(),
            }),
            r@.keeps_answers(),
    {
        Resolver { name, qtype, server: ROOT_SERVER, cache: Cache::new() }
    }

    /// Takes in `event` and says what to do next.
    pub fn step(&mut self, event: Event) -> (action: Action)
        ensures
            (final(self)@, action@) == old(self)@.next(event@),
    {
        match event {
            Event::Turn { elapsed_nanos } => {
                if elapsed_nanos > MAX_NANOS {
                    return Action::Fail(DnsError::Timeout);
                }
                match self.cache.get(&self.name, self.qtype) {
                    Some(packet) => Action::Finish(packet),
                    None => Action::Query {
                        server: self.server,
                        port: DNS_PORT,
                        packet: build_query(&self.name, self.qtype),
                    },
                }
            },
            Event::Reply(reply) => {
                if reply.answers.len() > 0 && reply.header.rescode == ResultCode::NOERROR {
                    self.cache.insert(self.name.clone(), self.qtype, reply.clone());
                    return Action::Finish(reply);
                }
                if reply.header.rescode == ResultCode::NXDOMAIN {
                    return Action::Finish(reply);
                }
                match reply.get_resolved_ns(self.name.as_str()) {
                    Some(server) => {
                        self.server = server;
                        Action::Continue
                    },
                    None => match reply.get_unresolved_ns(self.name.as_str()) {
                        Some(name) => Action::Resolve { name, reply },
                        None => Action::Finish(reply),
                    },
                }
            },
            Event::Failed { timed_out } => {
                if timed_out {
                    Action::Fail(DnsError::Timeout)
                } else {
                    Action::Fail(DnsError::Transport)
                }
            },
            Event::Nameserver { reply, found } => {
                match found {
                    Some(packet) => match packet.get_random_a() {
                        Some(server) => {
                            self.server = server;
                            Action::Continue
                        },
                        None => Action::Finish(reply),
                    },
                    None => Action::Finish(reply),
                }
            },
        }
    }
}

impl ResolverView {
    /// Whether the replies kept are answers to what is asked, and to nothing
    /// else.
    pub open spec fn keeps_answers(self) -> bool {
        forall|k: (Seq<char>, QueryType)| #[trigger]
            self.cache.contains_key(k) ==> k == (self.name, self.qtype) && ResolverView::answers(
                self.cache[k],
            )
    }
}

/// A resolution keeps only answers to what it asks: this holds when it
/// begins and after every event, so a reply that ends a turn from the cache
/// is one that answered, and an event never changes what is asked.
pub proof fn lemma_cache_keeps_answers(state: ResolverView, event: EventView)
    requires
        state.keeps_answers(),
    ensures
        state.next(event).0.keeps_answers(),
        state.next(event).0.name == state.name,
        state.next(event).0.qtype == state.qtype,
        event is Turn ==> state.next(event).0 == state,
        event is Turn ==> (state.next(event).1 matches ActionView::Finish(reply)
            ==> ResolverView::answers(reply)),
{
}

} // verus!
