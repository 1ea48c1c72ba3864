//! The routing core: a Kademlia state machine that performs no I/O and reads no
//! clock.
//!
//! It consumes inputs (incoming packets, timer fires) and produces outputs
//! (packets to transmit, events, a next deadline), driven by a caller who
//! supplies the current time as a millisecond count.
//!
//! The one algorithm here is the iterative node lookup: to find the nodes
//! closest to a target, repeatedly query the closest not-yet-queried nodes we
//! know (up to [`ALPHA`] in flight), folding each reply's contacts back into a
//! shortlist, until the `K` closest have all been queried.
use crate::dht_history::{
    after_call, all_asked, all_reported_once, and_then, connects_singly, ids_lasted, is_true_report,
    law_lookups_over_a_history, lemma_accept_call, lemma_connect_call, lemma_contact_call,
    lemma_input_call, lemma_lived, lemma_new_life,
    lemma_reports_of_a_node, lemma_sample_call, lemma_start_call,
    lemma_timeout_call, lemma_timers_of_a_node, lived, of_query, DhtCall, Past,
};
use crate::addr::SocketAddr;
use crate::firewall::{verdict, Firewall, NatSampler};
use crate::id::{closer, dist, NodeId};
use crate::lists::{
    copied, first, found, kept, lemma_first, lemma_first_at, lemma_first_none, lemma_views_push,
    lemma_views_remove, lemma_views_update, views,
};
use crate::msg::{packet_bytes, read_packet, Message, MessageView, Packet, PacketView};
use crate::punch::{plan, planned, Strategy};
use crate::routing::{
    admitted, all_contacts, empty_table, failed, nearest, Contact, RoutingTable, TableView, K,
};
use std::collections::VecDeque;
use vstd::prelude::*;

verus! {

/// Peers to probe when sampling the local NAT.
pub const NAT_SAMPLE_COUNT: usize = 5;

/// How many recent connect initiators a coordinator remembers.
pub const MAX_SEEN_INITIATORS: usize = 1024;

/// Cap on pending incoming connects awaiting a [`Dht::accept_connect`].
pub const MAX_PENDING_INCOMING: usize = 256;

/// Absolute cap on distinct announce topics a node stores.
pub const MAX_ANNOUNCE_TOPICS: usize = 65_536;

/// How many lookup requests may be in flight at once.
pub const ALPHA: usize = 3;

/// How long (ms) to wait for a response before treating a request as failed.
pub const REQUEST_TIMEOUT_MS: u64 = 1_000;

/// Overall deadline (ms) for a connect.
pub const CONNECT_TIMEOUT_MS: u64 = 10_000;

/// Milliseconds since an arbitrary epoch chosen by the caller.
pub type Millis = u64;

/// Identifies a lookup started via [`Dht::find_node`].
pub type QueryId = u64;

/// A packet the caller must deliver to `to`.
#[derive(Debug, Clone, PartialEq, Eq)]
pub struct Transmit {
    /// Destination address.
    pub to: SocketAddr,
    /// Encoded packet bytes.
    pub data: Vec<u8>,
}

/// A [`Transmit`] as a mathematical value.
#[verifier::ext_equal]
pub struct TransmitView {
    /// Destination address.
    pub to: SocketAddr,
    /// Encoded packet bytes.
    pub data: Seq<u8>,
}

impl View for Transmit {
    type V = TransmitView;

    open spec fn view(&self) -> TransmitView {
        TransmitView { to: self.to, data: self.data@ }
    }
}

/// How a coordinated connection was (or wasn't) established.
#[derive(Debug, Clone, Copy, PartialEq, Eq, Structural)]
pub enum ConnectOutcome {
    /// A reachable (Open) peer, or two predictable peers: a plain direct path.
    Direct,
    /// A hole was punched (one-sided-random birthday strategy).
    Punched,
    /// Both peers are symmetric, so no direct path can be punched.
    Relayed,
    /// The target could not be found (not announced).
    NotFound,
    /// The connect did not complete before its deadline.
    TimedOut,
}

/// Something the core wants the caller to know about.
#[derive(Debug, Clone, PartialEq, Eq)]
pub enum Event {
    /// A `find_node` lookup completed.
    QueryFinished {
        /// Which lookup.
        query: QueryId,
        /// The target that was searched for.
        target: NodeId,
        /// The closest live contacts found, nearest first.
        closest: Vec<Contact>,
    },
    /// A `lookup` completed, returning any announce records found for the topic.
    LookupFinished {
        /// The topic searched for.
        topic: NodeId,
        /// Peers that announced under the topic.
        peers: Vec<Contact>,
    },
    /// An `announce` completed (records were pushed to the closest nodes).
    AnnounceFinished {
        /// The topic announced under.
        topic: NodeId,
    },
    /// A `connect` completed.
    Connected {
        /// The peer connected to.
        target: NodeId,
        /// How the connection was established.
        outcome: ConnectOutcome,
        /// The target's data-socket candidate addresses to punch the channel to,
        /// in preference order; empty where there is no peer to punch to.
        peer_data_addrs: Vec<SocketAddr>,
        /// Our punch role toward the peer, where there is one.
        strategy: Option<Strategy>,
    },
    /// A peer wants to connect to us (we are the target).
    IncomingConnect {
        /// The peer initiating the connection.
        initiator: NodeId,
        /// The initiator's data-socket candidate addresses, in preference order.
        initiator_data_addrs: Vec<SocketAddr>,
        /// Our punch role toward the initiator.
        strategy: Strategy,
    },
}

/// An [`Event`] as a mathematical value.
#[verifier::ext_equal]
pub enum EventView {
    /// A lookup for nodes completed.
    QueryFinished { query: u64, target: NodeId, closest: Seq<Contact> },
    /// A lookup for announcers completed.
    LookupFinished { topic: NodeId, peers: Seq<Contact> },
    /// An announcement completed.
    AnnounceFinished { topic: NodeId },
    /// A connect completed.
    Connected {
        target: NodeId,
        outcome: ConnectOutcome,
        peer_data_addrs: Seq<SocketAddr>,
        strategy: Option<Strategy>,
    },
    /// A peer wants to connect.
    IncomingConnect {
        initiator: NodeId,
        initiator_data_addrs: Seq<SocketAddr>,
        strategy: Strategy,
    },
}

impl View for Event {
    type V = EventView;

    open spec fn view(&self) -> EventView {
        match self {
            Event::QueryFinished { query, target, closest } => EventView::QueryFinished {
                query: *query,
                target: *target,
                closest: closest@,
            },
            Event::LookupFinished { topic, peers } => EventView::LookupFinished {
                topic: *topic,
                peers: peers@,
            },
            Event::AnnounceFinished { topic } => EventView::AnnounceFinished { topic: *topic },
            Event::Connected { target, outcome, peer_data_addrs, strategy } =>
                EventView::Connected {
                target: *target,
                outcome: *outcome,
                peer_data_addrs: peer_data_addrs@,
                strategy: *strategy,
            },
            Event::IncomingConnect { initiator, initiator_data_addrs, strategy } =>
                EventView::IncomingConnect {
                initiator: *initiator,
                initiator_data_addrs: initiator_data_addrs@,
                strategy: *strategy,
            },
        }
    }
}

/// What a query is for.
#[derive(Clone, Copy, PartialEq, Eq, Structural)]
pub enum QueryKind {
    /// To find the nodes closest to a target.
    FindNode,
    /// To find the announcers of a topic.
    Lookup,
    /// To announce ourselves under a topic.
    Announce,
    /// To connect to a peer.
    Connect,
}

/// How far a query has got with a contact.
#[derive(Clone, Copy, PartialEq, Eq, Structural)]
pub enum Status {
    /// Not asked yet.
    Fresh,
    /// Asked, no answer yet.
    InFlight,
    /// Answered.
    Done,
    /// Did not answer in time.
    Failed,
}

/// A contact of a query's shortlist.
#[derive(Clone, Copy)]
pub struct QueryContact {
    /// The contact.
    pub contact: Contact,
    /// How far the query has got with it.
    pub status: Status,
}

/// A query in progress. Its shortlist stands nearest first.
pub struct Query {
    qid: u64,
    target: NodeId,
    kind: QueryKind,
    contacts: Vec<QueryContact>,
    coordinators: Vec<Contact>,
    peers: Vec<Contact>,
}

/// A [`Query`] as a mathematical value.
#[verifier::ext_equal]
pub struct QueryView {
    /// The query's id.
    pub qid: u64,
    /// What is searched for.
    pub target: NodeId,
    /// What the query is for.
    pub kind: QueryKind,
    /// The shortlist, nearest first.
    pub contacts: Seq<QueryContact>,
    /// Nodes that returned the target's own announce record.
    pub coordinators: Seq<Contact>,
    /// Announce records gathered for the target.
    pub peers: Seq<Contact>,
}

impl View for Query {
    type V = QueryView;

    closed spec fn view(&self) -> QueryView {
        QueryView {
            qid: self.qid,
            target: self.target,
            kind: self.kind,
            contacts: self.contacts@,
            coordinators: self.coordinators@,
            peers: self.peers@,
        }
    }
}

/// A request that awaits its answer.
#[derive(Clone, Copy)]
pub struct Pending {
    /// The request's id.
    pub rid: u64,
    /// The query it belongs to.
    pub query: u64,
    /// The contact that was asked.
    pub contact: NodeId,
    /// When it counts as failed.
    pub deadline: u64,
}

/// A probe for our own address that awaits its answer.
#[derive(Clone, Copy)]
pub struct Probe {
    /// The request's id.
    pub rid: u64,
    /// When it is forgotten.
    pub deadline: u64,
}

/// A connect in progress.
pub struct ConnectState {
    target: NodeId,
    deadline: u64,
    coordinator: Option<SocketAddr>,
    data_addrs: Vec<SocketAddr>,
}

/// A [`ConnectState`] as a mathematical value.
#[verifier::ext_equal]
pub struct ConnectView {
    /// The peer being connected to.
    pub target: NodeId,
    /// When the connect gives up.
    pub deadline: u64,
    /// The coordinator the request was sent to; a reply is accepted only from it.
    pub coordinator: Option<SocketAddr>,
    /// Our own data-socket candidate addresses.
    pub data_addrs: Seq<SocketAddr>,
}

impl View for ConnectState {
    type V = ConnectView;

    closed spec fn view(&self) -> ConnectView {
        ConnectView {
            target: self.target,
            deadline: self.deadline,
            coordinator: self.coordinator,
            data_addrs: self.data_addrs@,
        }
    }
}

/// A connect request that reached us as its target and awaits the caller.
#[derive(Clone, Copy)]
pub struct IncomingState {
    /// The peer that wants to connect.
    pub initiator: NodeId,
    /// The coordinator that relayed the request; the reply goes back through it.
    pub coordinator: SocketAddr,
    /// The initiator's observed control address, echoed in the reply.
    pub initiator_addr: SocketAddr,
    /// When the request is discarded if never accepted.
    pub deadline: u64,
}

/// The announcers of a topic.
pub struct Announced {
    topic: NodeId,
    peers: Vec<Contact>,
}

/// An [`Announced`] as a mathematical value.
#[verifier::ext_equal]
pub struct AnnouncedView {
    /// The topic.
    pub topic: NodeId,
    /// Its announcers.
    pub peers: Seq<Contact>,
}

impl View for Announced {
    type V = AnnouncedView;

    closed spec fn view(&self) -> AnnouncedView {
        AnnouncedView { topic: self.topic, peers: self.peers@ }
    }
}

/// A [`Dht`] as a mathematical value.
#[verifier::ext_equal]
pub struct DhtView {
    /// This node's id.
    pub id: NodeId,
    /// The routing table.
    pub table: TableView,
    /// The queries in progress.
    pub queries: Seq<QueryView>,
    /// The requests that await an answer.
    pub pending: Seq<Pending>,
    /// The addresses others saw us at.
    pub seen_at: Seq<SocketAddr>,
    /// The probes that await an answer.
    pub probes: Seq<Probe>,
    /// Whether an inbound probe reached us.
    pub reachable: bool,
    /// The firewall type to report until it has been sampled.
    pub local_firewall: Firewall,
    /// The announce records this node stores.
    pub announces: Seq<AnnouncedView>,
    /// The connects in progress.
    pub connecting: Seq<ConnectView>,
    /// The connects this node has coordinated lately: target and initiator's
    /// address.
    pub initiators: Seq<(NodeId, SocketAddr)>,
    /// The connect requests that await the caller.
    pub incoming: Seq<IncomingState>,
    /// The packets to transmit.
    pub outbox: Seq<TransmitView>,
    /// The events to report.
    pub events: Seq<EventView>,
    /// The next request id.
    pub next_rid: u64,
    /// The next query id.
    pub next_qid: u64,
}

/// The request with an id.
pub open spec fn with_rid(rid: u64) -> spec_fn(Pending) -> bool {
    |p: Pending| p.rid == rid
}

/// The probe with an id.
pub open spec fn probe_rid(rid: u64) -> spec_fn(Probe) -> bool {
    |p: Probe| p.rid == rid
}

/// The query with an id.
pub open spec fn with_qid(qid: u64) -> spec_fn(QueryView) -> bool {
    |q: QueryView| q.qid == qid
}

/// The contact with an id.
pub open spec fn with_id(id: NodeId) -> spec_fn(Contact) -> bool {
    |c: Contact| c.id == id
}

/// The shortlisted contact with an id.
pub open spec fn listed(id: NodeId) -> spec_fn(QueryContact) -> bool {
    |c: QueryContact| c.contact.id == id
}

/// The records of a topic.
pub open spec fn on_topic(topic: NodeId) -> spec_fn(AnnouncedView) -> bool {
    |a: AnnouncedView| a.topic == topic
}

/// The connect to a target.
pub open spec fn to_target(target: NodeId) -> spec_fn(ConnectView) -> bool {
    |c: ConnectView| c.target == target
}

/// The request of an initiator.
pub open spec fn from_initiator(initiator: NodeId) -> spec_fn(IncomingState) -> bool {
    |i: IncomingState| i.initiator == initiator
}

/// The packet sent to `to`.
pub open spec fn sent(d: DhtView, to: SocketAddr, rid: u64, msg: MessageView) -> DhtView {
    DhtView {
        outbox: d.outbox.push(
            TransmitView { to, data: packet_bytes(PacketView { sender: d.id, rid, msg }) },
        ),
        ..d
    }
}

/// The packet sent to `to` under a request id of its own.
pub open spec fn asked(d: DhtView, to: SocketAddr, msg: MessageView) -> DhtView {
    sent(DhtView { next_rid: d.next_rid.wrapping_add(1), ..d }, to, d.next_rid, msg)
}

/// The event reported.
pub open spec fn reported(d: DhtView, e: EventView) -> DhtView {
    DhtView { events: d.events.push(e), ..d }
}

/// The firewall type to advertise: the sampled one, once there is one.
pub open spec fn advertised(d: DhtView) -> Firewall {
    match verdict(d.seen_at, d.reachable) {
        Some(f) => f,
        None => d.local_firewall,
    }
}

/// A contact put in its place in a shortlist.
pub open spec fn shortlisted(s: Seq<QueryContact>, c: QueryContact, target: NodeId) -> Seq<
    QueryContact,
>
    decreases s.len(),
{
    if s.len() == 0 || dist(s.last().contact.id, target) <= dist(c.contact.id, target) {
        s.push(c)
    } else {
        shortlisted(s.drop_last(), c, target).push(s.last())
    }
}

/// A contact added to a shortlist, unless it is there already.
pub open spec fn added(s: Seq<QueryContact>, c: Contact, target: NodeId) -> Seq<QueryContact> {
    if first(s, listed(c.id)) is Some {
        s
    } else {
        shortlisted(s, QueryContact { contact: c, status: Status::Fresh }, target)
    }
}

/// Contacts added to a shortlist, all but the one with id `me`.
pub open spec fn all_added(
    s: Seq<QueryContact>,
    new: Seq<Contact>,
    target: NodeId,
    me: Option<NodeId>,
) -> Seq<QueryContact>
    decreases new.len(),
{
    if new.len() == 0 {
        s
    } else {
        let before = all_added(s, new.drop_last(), target, me);
        if me == Some(new.last().id) {
            before
        } else {
            added(before, new.last(), target)
        }
    }
}

/// The shortlist with a contact's status changed.
pub open spec fn marked(s: Seq<QueryContact>, id: NodeId, status: Status) -> Seq<QueryContact> {
    match first(s, listed(id)) {
        Some(i) => s.update(i, QueryContact { status, ..s[i] }),
        None => s,
    }
}

/// How many contacts of a shortlist have been asked and not answered.
pub open spec fn in_flight(s: Seq<QueryContact>) -> nat
    decreases s.len(),
{
    if s.len() == 0 {
        0
    } else {
        in_flight(s.drop_last()) + if s.last().status == Status::InFlight {
            1nat
        } else {
            0
        }
    }
}

/// Asks the nearest contacts from the `i`-th on that are still fresh, among the
/// `K` nearest, while fewer than `ALPHA` are in flight: the shortlist after it,
/// and who was asked.
pub open spec fn launched(s: Seq<QueryContact>, i: nat, flying: nat) -> (
    Seq<QueryContact>,
    Seq<Contact>,
)
    decreases K - i,
{
    if i >= s.len() || i >= K || flying >= ALPHA {
        (s, Seq::empty())
    } else if s[i as int].status == Status::Fresh {
        let asked = QueryContact { status: Status::InFlight, ..s[i as int] };
        let (rest, more) = launched(s.update(i as int, asked), i + 1, flying + 1);
        (rest, seq![s[i as int].contact] + more)
    } else {
        launched(s, i + 1, flying)
    }
}

/// The contacts among the first `n` that answered.
pub open spec fn answered(s: Seq<QueryContact>, n: nat) -> Seq<Contact>
    decreases n,
{
    if n == 0 || n > s.len() {
        Seq::empty()
    } else if s[n - 1].status == Status::Done {
        answered(s, (n - 1) as nat).push(s[n - 1].contact)
    } else {
        answered(s, (n - 1) as nat)
    }
}

/// How many contacts count as nearest.
pub open spec fn near(s: Seq<QueryContact>) -> nat {
    if s.len() < K {
        s.len()
    } else {
        K as nat
    }
}

/// The contacts of a query asked for the nodes nearest its target.
pub open spec fn requested(
    d: DhtView,
    qid: u64,
    target: NodeId,
    now: u64,
    out: Seq<Contact>,
) -> DhtView
    decreases out.len(),
{
    if out.len() == 0 {
        d
    } else {
        let before = requested(d, qid, target, now, out.drop_last());
        let c = out.last();
        DhtView {
            pending: before.pending.push(
                Pending {
                    rid: before.next_rid,
                    query: qid,
                    contact: c.id,
                    deadline: (now + REQUEST_TIMEOUT_MS) as u64,
                },
            ),
            ..asked(before, c.addr, MessageView::FindNode { target })
        }
    }
}

/// Ourselves registered with each of the contacts.
pub open spec fn registered(d: DhtView, topic: NodeId, out: Seq<Contact>) -> DhtView
    decreases out.len(),
{
    if out.len() == 0 {
        d
    } else {
        asked(
            registered(d, topic, out.drop_last()),
            out.last().addr,
            MessageView::Announce { topic },
        )
    }
}

/// What the end of a query leads to.
pub open spec fn finished(d: DhtView, q: QueryView, closest: Seq<Contact>) -> DhtView {
    match q.kind {
        QueryKind::FindNode => reported(
            d,
            EventView::QueryFinished { query: q.qid, target: q.target, closest },
        ),
        QueryKind::Lookup => reported(
            d,
            EventView::LookupFinished { topic: q.target, peers: q.peers },
        ),
        QueryKind::Announce => reported(
            registered(d, q.target, closest),
            EventView::AnnounceFinished { topic: q.target },
        ),
        QueryKind::Connect => if q.coordinators.len() > 0 {
            let coordinator = q.coordinators[0];
            match first(d.connecting, to_target(q.target)) {
                Some(k) => {
                    let c = d.connecting[k];
                    asked(
                        DhtView {
                            connecting: d.connecting.update(
                                k,
                                ConnectView { coordinator: Some(coordinator.addr), ..c },
                            ),
                            ..d
                        },
                        coordinator.addr,
                        MessageView::Signal {
                            target: q.target,
                            initiator: d.id,
                            initiator_addr: coordinator.addr,
                            data_addrs: c.data_addrs,
                            firewall: advertised(d),
                            is_reply: false,
                        },
                    )
                },
                None => d,
            }
        } else {
            reported(
                DhtView { connecting: disconnected(d.connecting, q.target), ..d },
                EventView::Connected {
                    target: q.target,
                    outcome: ConnectOutcome::NotFound,
                    peer_data_addrs: Seq::empty(),
                    strategy: None,
                },
            )
        },
    }
}

/// The connects without the one to a target.
pub open spec fn disconnected(s: Seq<ConnectView>, target: NodeId) -> Seq<ConnectView> {
    match first(s, to_target(target)) {
        Some(k) => s.remove(k),
        None => s,
    }
}

/// A query moved on: more contacts asked, or, where none is left to ask and
/// none in flight, ended.
pub open spec fn driven(d: DhtView, qid: u64, now: u64) -> DhtView {
    match first(d.queries, with_qid(qid)) {
        Some(k) => {
            let q = d.queries[k];
            let flying = in_flight(q.contacts);
            let (contacts, out) = launched(q.contacts, 0, flying);
            let r = QueryView { contacts, ..q };
            if out.len() == 0 && flying == 0 {
                finished(
                    DhtView { queries: d.queries.remove(k), ..d },
                    r,
                    answered(contacts, near(contacts)),
                )
            } else {
                requested(
                    DhtView { queries: d.queries.update(k, r), ..d },
                    qid,
                    q.target,
                    now,
                    out,
                )
            }
        },
        None => d,
    }
}

/// A query started.
pub open spec fn started(d: DhtView, target: NodeId, kind: QueryKind, now: u64) -> DhtView {
    let q = QueryView {
        qid: d.next_qid,
        target,
        kind,
        contacts: all_added(Seq::empty(), nearest(d.table, target, K as nat), target, None),
        coordinators: Seq::empty(),
        peers: Seq::empty(),
    };
    driven(
        DhtView { queries: d.queries.push(q), next_qid: d.next_qid.wrapping_add(1), ..d },
        d.next_qid,
        now,
    )
}

/// A contact's address refreshed, or the contact added.
pub open spec fn refreshed(s: Seq<Contact>, c: Contact) -> Seq<Contact> {
    match first(s, with_id(c.id)) {
        Some(i) => s.update(i, Contact { addr: c.addr, ..s[i] }),
        None => s.push(c),
    }
}

/// Contacts refreshed or added one after the other.
pub open spec fn all_refreshed(s: Seq<Contact>, new: Seq<Contact>) -> Seq<Contact>
    decreases new.len(),
{
    if new.len() == 0 {
        s
    } else {
        refreshed(all_refreshed(s, new.drop_last()), new.last())
    }
}

/// What a reply brings to a query: the contact that was asked has answered, the
/// contacts it named are on the shortlist, and the announce records it holds
/// are gathered; if the target's own is among them, it can coordinate.
pub open spec fn enriched(
    q: QueryView,
    me: NodeId,
    was_asked: NodeId,
    responder: Contact,
    contacts: Seq<Contact>,
    peers: Seq<Contact>,
) -> QueryView {
    QueryView {
        contacts: all_added(
            marked(q.contacts, was_asked, Status::Done),
            contacts,
            q.target,
            Some(me),
        ),
        coordinators: if first(peers, with_id(q.target)) is Some && first(
            q.coordinators,
            with_id(responder.id),
        ) is None {
            q.coordinators.push(responder)
        } else {
            q.coordinators
        },
        peers: all_refreshed(q.peers, peers),
        ..q
    }
}

/// A reply to a request for nodes taken in.
pub open spec fn nodes_received(
    d: DhtView,
    rid: u64,
    responder: Contact,
    contacts: Seq<Contact>,
    peers: Seq<Contact>,
    now: u64,
) -> DhtView {
    match first(d.pending, with_rid(rid)) {
        Some(k) => {
            let p = d.pending[k];
            let d1 = DhtView { pending: d.pending.remove(k), ..d };
            match first(d1.queries, with_qid(p.query)) {
                Some(j) => driven(
                    DhtView {
                        queries: d1.queries.update(
                            j,
                            enriched(d1.queries[j], d.id, p.contact, responder, contacts, peers),
                        ),
                        ..d1
                    },
                    p.query,
                    now,
                ),
                None => d1,
            }
        },
        None => d,
    }
}

/// The announce records held for a topic.
pub open spec fn records(d: DhtView, topic: NodeId) -> Seq<Contact> {
    match first(d.announces, on_topic(topic)) {
        Some(k) => d.announces[k].peers,
        None => Seq::empty(),
    }
}

/// How many of the contacts are closer to a topic than a distance.
pub open spec fn count_closer(s: Seq<Contact>, topic: NodeId, limit: nat) -> nat
    decreases s.len(),
{
    if s.len() == 0 {
        0
    } else {
        count_closer(s.drop_last(), topic, limit) + if dist(s.last().id, topic) < limit {
            1nat
        } else {
            0
        }
    }
}

/// Whether fewer than `K` known contacts are closer to a topic than we are.
pub open spec fn responsible(d: DhtView, topic: NodeId) -> bool {
    count_closer(nearest(d.table, topic, K as nat), topic, dist(d.id, topic)) < K
}

/// An announcer stored under a topic, as far as the caps allow.
pub open spec fn stored(d: DhtView, topic: NodeId, c: Contact) -> DhtView {
    match first(d.announces, on_topic(topic)) {
        Some(k) => {
            let peers = d.announces[k].peers;
            if first(peers, with_id(c.id)) is Some || peers.len() < K {
                DhtView {
                    announces: d.announces.update(
                        k,
                        AnnouncedView { topic, peers: refreshed(peers, c) },
                    ),
                    ..d
                }
            } else {
                d
            }
        },
        None => if d.announces.len() >= MAX_ANNOUNCE_TOPICS {
            d
        } else {
            DhtView {
                announces: d.announces.push(AnnouncedView { topic, peers: seq![c] }),
                ..d
            }
        },
    }
}

/// An initiator remembered, the oldest forgotten where there are too many.
pub open spec fn remembered(s: Seq<(NodeId, SocketAddr)>, key: (NodeId, SocketAddr)) -> Seq<
    (NodeId, SocketAddr),
> {
    if s.contains(key) {
        s
    } else if s.len() >= MAX_SEEN_INITIATORS {
        s.drop_first().push(key)
    } else {
        s.push(key)
    }
}

/// A connection signal.
#[verifier::ext_equal]
pub struct SignalView {
    /// The peer being connected to.
    pub target: NodeId,
    /// The peer initiating the connection.
    pub initiator: NodeId,
    /// The initiator's address.
    pub initiator_addr: SocketAddr,
    /// The sender's data-socket candidate addresses.
    pub data_addrs: Seq<SocketAddr>,
    /// The sender's firewall type.
    pub firewall: Firewall,
}

/// A signal as a message.
pub open spec fn signal(s: SignalView, is_reply: bool) -> MessageView {
    MessageView::Signal {
        target: s.target,
        initiator: s.initiator,
        initiator_addr: s.initiator_addr,
        data_addrs: s.data_addrs,
        firewall: s.firewall,
        is_reply,
    }
}

/// A request to connect to us taken in: the first of an initiator is reported,
/// a repetition only moves its deadline.
pub open spec fn request_received(d: DhtView, from: SocketAddr, s: SignalView, now: u64) -> DhtView {
    let deadline = (now + CONNECT_TIMEOUT_MS) as u64;
    match first(d.incoming, from_initiator(s.initiator)) {
        Some(k) => DhtView {
            incoming: d.incoming.update(k, IncomingState { deadline, ..d.incoming[k] }),
            ..d
        },
        None => if d.incoming.len() < MAX_PENDING_INCOMING {
            reported(
                DhtView {
                    incoming: d.incoming.push(
                        IncomingState {
                            initiator: s.initiator,
                            coordinator: from,
                            initiator_addr: s.initiator_addr,
                            deadline,
                        },
                    ),
                    ..d
                },
                EventView::IncomingConnect {
                    initiator: s.initiator,
                    initiator_data_addrs: s.data_addrs,
                    strategy: planned(advertised(d), s.firewall),
                },
            )
        } else {
            d
        },
    }
}

/// Where the target's own record says it is.
pub open spec fn own_record(d: DhtView, target: NodeId) -> Option<SocketAddr> {
    match first(records(d, target), with_id(target)) {
        Some(i) => Some(records(d, target)[i].addr),
        None => None,
    }
}

/// The outcome a strategy leads to.
pub open spec fn outcome_of(strategy: Strategy) -> ConnectOutcome {
    match strategy {
        Strategy::Direct => ConnectOutcome::Direct,
        Strategy::SprayRandomPorts | Strategy::OpenBirthdaySockets => ConnectOutcome::Punched,
        Strategy::Relay => ConnectOutcome::Relayed,
    }
}

/// Whether a reply comes from the coordinator the request was sent to.
pub open spec fn from_coordinator(d: DhtView, target: NodeId, from: SocketAddr) -> bool {
    match first(d.connecting, to_target(target)) {
        Some(k) => d.connecting[k].coordinator == Some(from),
        None => false,
    }
}

/// Whether the record at `from` is the target's own.
pub open spec fn is_own_record(s: Seq<Contact>, target: NodeId, from: SocketAddr) -> bool {
    exists|i: int| 0 <= i < s.len() && #[trigger] s[i].id == target && s[i].addr == from
}

/// A connection signal taken in, in the part this node plays.
pub open spec fn signaled(
    d: DhtView,
    from: SocketAddr,
    s: SignalView,
    is_reply: bool,
    now: u64,
) -> DhtView {
    if !is_reply {
        if s.target == d.id {
            request_received(d, from, s, now)
        } else {
            match own_record(d, s.target) {
                Some(addr) => asked(
                    DhtView { initiators: remembered(d.initiators, (s.target, from)), ..d },
                    addr,
                    signal(SignalView { initiator_addr: from, ..s }, false),
                ),
                None => d,
            }
        }
    } else if s.initiator == d.id {
        if from_coordinator(d, s.target, from) {
            let strategy = planned(advertised(d), s.firewall);
            reported(
                DhtView { connecting: disconnected(d.connecting, s.target), ..d },
                EventView::Connected {
                    target: s.target,
                    outcome: outcome_of(strategy),
                    peer_data_addrs: s.data_addrs,
                    strategy: Some(strategy),
                },
            )
        } else {
            d
        }
    } else if d.initiators.contains((s.target, s.initiator_addr)) && is_own_record(
        records(d, s.target),
        s.target,
        from,
    ) {
        asked(d, s.initiator_addr, signal(s, true))
    } else {
        d
    }
}

/// An answer to a probe for our own address taken in.
pub open spec fn ponged(d: DhtView, rid: u64, observed: SocketAddr) -> DhtView {
    match first(d.probes, probe_rid(rid)) {
        Some(k) => DhtView {
            probes: d.probes.remove(k),
            seen_at: d.seen_at.push(observed),
            ..d
        },
        None => d,
    }
}

/// The body of a packet taken in.
pub open spec fn received(d: DhtView, from: SocketAddr, p: PacketView, now: u64) -> DhtView {
    match p.msg {
        MessageView::Ping => sent(d, from, p.rid, MessageView::Pong { observed: from }),
        MessageView::Pong { observed } => ponged(d, p.rid, observed),
        MessageView::FindNode { target } => sent(
            d,
            from,
            p.rid,
            MessageView::Nodes {
                contacts: nearest(d.table, target, K as nat),
                peers: records(d, target),
            },
        ),
        MessageView::Nodes { contacts, peers } => nodes_received(
            d,
            p.rid,
            Contact { id: p.sender, addr: from },
            contacts,
            peers,
            now,
        ),
        MessageView::Announce { topic } => if responsible(d, topic) {
            stored(d, topic, Contact { id: p.sender, addr: from })
        } else {
            d
        },
        MessageView::Signal { target, initiator, initiator_addr, data_addrs, firewall, is_reply } =>
            signaled(
            d,
            from,
            SignalView { target, initiator, initiator_addr, data_addrs, firewall },
            is_reply,
            now,
        ),
        MessageView::Reflect => sent(d, from, p.rid, MessageView::Reflected { observed: from }),
        MessageView::Reflected { .. } => d,
    }
}

/// The sender of a packet filed in the routing table, unless it is ourselves or
/// a reflexive probe.
pub open spec fn sighted(d: DhtView, from: SocketAddr, p: PacketView) -> DhtView {
    if p.sender != d.id && !(p.msg is Reflect) {
        DhtView { table: admitted(d.table, Contact { id: p.sender, addr: from }).0, ..d }
    } else {
        d
    }
}

/// A datagram taken in.
pub open spec fn input(d: DhtView, from: SocketAddr, data: Seq<u8>, now: u64) -> DhtView {
    match read_packet(data) {
        Ok(p) => received(sighted(d, from, p), from, p, now),
        Err(_) => d,
    }
}

/// The requests whose deadline has passed.
pub open spec fn due(now: u64) -> spec_fn(Pending) -> bool {
    |p: Pending| p.deadline <= now
}

/// The connects whose deadline has passed.
pub open spec fn stale(now: u64) -> spec_fn(ConnectView) -> bool {
    |c: ConnectView| c.deadline <= now
}

/// The probes whose deadline has not passed.
pub open spec fn live_probe(now: u64) -> spec_fn(Probe) -> bool {
    |p: Probe| p.deadline > now
}

/// The incoming requests whose deadline has not passed.
pub open spec fn live_incoming(now: u64) -> spec_fn(IncomingState) -> bool {
    |i: IncomingState| i.deadline > now
}

/// A request given up: the failure is held against the contact, and its query
/// goes on without it.
pub open spec fn given_up(d: DhtView, rid: u64, now: u64) -> DhtView {
    match first(d.pending, with_rid(rid)) {
        Some(k) => {
            let p = d.pending[k];
            let d1 = DhtView {
                pending: d.pending.remove(k),
                table: failed(d.table, p.contact).0,
                ..d
            };
            driven(
                match first(d1.queries, with_qid(p.query)) {
                    Some(j) => DhtView {
                        queries: d1.queries.update(
                            j,
                            QueryView {
                                contacts: marked(
                                    d1.queries[j].contacts,
                                    p.contact,
                                    Status::Failed,
                                ),
                                ..d1.queries[j]
                            },
                        ),
                        ..d1
                    },
                    None => d1,
                },
                p.query,
                now,
            )
        },
        None => d,
    }
}

/// Requests given up one after the other.
pub open spec fn all_given_up(d: DhtView, due: Seq<Pending>, now: u64) -> DhtView
    decreases due.len(),
{
    if due.len() == 0 {
        d
    } else {
        given_up(all_given_up(d, due.drop_last(), now), due.last().rid, now)
    }
}

/// The queries that are not connects to a target.
pub open spec fn not_connecting(target: NodeId) -> spec_fn(QueryView) -> bool {
    |q: QueryView| !(q.kind == QueryKind::Connect && q.target == target)
}

/// Whether a query is a connect to a target.
pub open spec fn is_connect(queries: Seq<QueryView>, qid: u64, target: NodeId) -> bool {
    exists|i: int|
        0 <= i < queries.len() && #[trigger] queries[i].qid == qid && queries[i].kind
            == QueryKind::Connect && queries[i].target == target
}

/// The requests of no connect to a target.
pub open spec fn not_of_connect(queries: Seq<QueryView>, target: NodeId) -> spec_fn(Pending) -> bool {
    |p: Pending| !is_connect(queries, p.query, target)
}

/// The queries for a connect dropped, and their requests with them.
pub open spec fn cancelled(d: DhtView, target: NodeId) -> DhtView {
    DhtView {
        queries: kept(d.queries, not_connecting(target)),
        pending: kept(d.pending, not_of_connect(d.queries, target)),
        ..d
    }
}

/// A connect timed out.
pub open spec fn timed_out(d: DhtView, target: NodeId) -> DhtView {
    reported(
        cancelled(DhtView { connecting: disconnected(d.connecting, target), ..d }, target),
        EventView::Connected {
            target,
            outcome: ConnectOutcome::TimedOut,
            peer_data_addrs: Seq::empty(),
            strategy: None,
        },
    )
}

/// Connects timed out one after the other.
pub open spec fn all_timed_out(d: DhtView, stale: Seq<ConnectView>) -> DhtView
    decreases stale.len(),
{
    if stale.len() == 0 {
        d
    } else {
        timed_out(all_timed_out(d, stale.drop_last()), stale.last().target)
    }
}

/// The timers whose deadline has passed fired.
pub open spec fn timers_fired(d: DhtView, now: u64) -> DhtView {
    let d1 = all_given_up(d, kept(d.pending, due(now)), now);
    let d2 = DhtView { probes: kept(d1.probes, live_probe(now)), ..d1 };
    let d3 = all_timed_out(d2, kept(d2.connecting, stale(now)));
    DhtView { incoming: kept(d3.incoming, live_incoming(now)), ..d3 }
}

/// An incoming connect accepted.
pub open spec fn accepted(
    d: DhtView,
    initiator: NodeId,
    data_addrs: Seq<SocketAddr>,
    now: u64,
) -> DhtView {
    match first(d.incoming, from_initiator(initiator)) {
        Some(k) => {
            let i = d.incoming[k];
            let d1 = DhtView { incoming: d.incoming.remove(k), ..d };
            if i.deadline <= now {
                d1
            } else {
                asked(
                    d1,
                    i.coordinator,
                    signal(
                        SignalView {
                            target: d.id,
                            initiator,
                            initiator_addr: i.initiator_addr,
                            data_addrs,
                            firewall: advertised(d),
                        },
                        true,
                    ),
                )
            }
        },
        None => d,
    }
}

/// A connect begun.
pub open spec fn connect_begun(
    d: DhtView,
    target: NodeId,
    data_addrs: Seq<SocketAddr>,
    now: u64,
) -> DhtView {
    let c = ConnectView {
        target,
        deadline: (now + CONNECT_TIMEOUT_MS) as u64,
        coordinator: None,
        data_addrs,
    };
    started(
        DhtView {
            connecting: match first(d.connecting, to_target(target)) {
                Some(k) => d.connecting.update(k, c),
                None => d.connecting.push(c),
            },
            ..d
        },
        target,
        QueryKind::Connect,
        now,
    )
}

/// Peers pinged to learn our own address.
pub open spec fn pinged(d: DhtView, peers: Seq<Contact>, now: u64) -> DhtView
    decreases peers.len(),
{
    if peers.len() == 0 {
        d
    } else {
        let before = pinged(d, peers.drop_last(), now);
        DhtView {
            probes: before.probes.push(
                Probe { rid: before.next_rid, deadline: (now + REQUEST_TIMEOUT_MS) as u64 },
            ),
            ..asked(before, peers.last().addr, MessageView::Ping)
        }
    }
}

/// Whether some timer is set for a time.
pub open spec fn timer_at(d: DhtView, t: u64) -> bool {
    ||| exists|i: int| 0 <= i < d.pending.len() && #[trigger] d.pending[i].deadline == t
    ||| exists|i: int| 0 <= i < d.probes.len() && #[trigger] d.probes[i].deadline == t
    ||| exists|i: int| 0 <= i < d.connecting.len() && #[trigger] d.connecting[i].deadline == t
    ||| exists|i: int| 0 <= i < d.incoming.len() && #[trigger] d.incoming[i].deadline == t
}

fn find_pending(s: &Vec<Pending>, rid: u64) -> (r: Option<usize>)
    ensures
        found(s@, with_rid(rid), r),
{
    let mut i: usize = 0;
    while i < s.len()
        invariant
            i <= s.len(),
            forall|j: int| 0 <= j < i ==> !with_rid(rid)(#[trigger] s@[j]),
        decreases s.len() - i,
    {
        if s[i].rid == rid {
            proof {
                lemma_first_at(s@, with_rid(rid), i as int);
            }
            return Some(i);
        }
        i += 1;
    }
    proof {
        lemma_first_none(s@, with_rid(rid));
    }
    None
}

fn find_probe(s: &Vec<Probe>, rid: u64) -> (r: Option<usize>)
    ensures
        found(s@, probe_rid(rid), r),
{
    let mut i: usize = 0;
    while i < s.len()
        invariant
            i <= s.len(),
            forall|j: int| 0 <= j < i ==> !probe_rid(rid)(#[trigger] s@[j]),
        decreases s.len() - i,
    {
        if s[i].rid == rid {
            proof {
                lemma_first_at(s@, probe_rid(rid), i as int);
            }
            return Some(i);
        }
        i += 1;
    }
    proof {
        lemma_first_none(s@, probe_rid(rid));
    }
    None
}

fn find_contact(s: &Vec<Contact>, id: &NodeId) -> (r: Option<usize>)
    ensures
        found(s@, with_id(*id), r),
{
    let mut i: usize = 0;
    while i < s.len()
        invariant
            i <= s.len(),
            forall|j: int| 0 <= j < i ==> !with_id(*id)(#[trigger] s@[j]),
        decreases s.len() - i,
    {
        if s[i].id == *id {
            proof {
                lemma_first_at(s@, with_id(*id), i as int);
            }
            return Some(i);
        }
        i += 1;
    }
    proof {
        lemma_first_none(s@, with_id(*id));
    }
    None
}

fn find_listed(s: &Vec<QueryContact>, id: &NodeId) -> (r: Option<usize>)
    ensures
        found(s@, listed(*id), r),
{
    let mut i: usize = 0;
    while i < s.len()
        invariant
            i <= s.len(),
            forall|j: int| 0 <= j < i ==> !listed(*id)(#[trigger] s@[j]),
        decreases s.len() - i,
    {
        if s[i].contact.id == *id {
            proof {
                lemma_first_at(s@, listed(*id), i as int);
            }
            return Some(i);
        }
        i += 1;
    }
    proof {
        lemma_first_none(s@, listed(*id));
    }
    None
}

fn find_incoming(s: &Vec<IncomingState>, initiator: &NodeId) -> (r: Option<usize>)
    ensures
        found(s@, from_initiator(*initiator), r),
{
    let mut i: usize = 0;
    while i < s.len()
        invariant
            i <= s.len(),
            forall|j: int| 0 <= j < i ==> !from_initiator(*initiator)(#[trigger] s@[j]),
        decreases s.len() - i,
    {
        if s[i].initiator == *initiator {
            proof {
                lemma_first_at(s@, from_initiator(*initiator), i as int);
            }
            return Some(i);
        }
        i += 1;
    }
    proof {
        lemma_first_none(s@, from_initiator(*initiator));
    }
    None
}

fn find_query(s: &Vec<Query>, qid: u64) -> (r: Option<usize>)
    ensures
        found(views(s@), with_qid(qid), r),
{
    let mut i: usize = 0;
    while i < s.len()
        invariant
            i <= s.len(),
            forall|j: int| 0 <= j < i ==> !with_qid(qid)(#[trigger] views(s@)[j]),
        decreases s.len() - i,
    {
        assert(views(s@)[i as int] == s@[i as int]@);
        if s[i].qid == qid {
            proof {
                lemma_first_at(views(s@), with_qid(qid), i as int);
            }
            return Some(i);
        }
        i += 1;
    }
    proof {
        lemma_first_none(views(s@), with_qid(qid));
    }
    None
}

fn find_connect(s: &Vec<ConnectState>, target: &NodeId) -> (r: Option<usize>)
    ensures
        found(views(s@), to_target(*target), r),
{
    let mut i: usize = 0;
    while i < s.len()
        invariant
            i <= s.len(),
            forall|j: int| 0 <= j < i ==> !to_target(*target)(#[trigger] views(s@)[j]),
        decreases s.len() - i,
    {
        assert(views(s@)[i as int] == s@[i as int]@);
        if s[i].target == *target {
            proof {
                lemma_first_at(views(s@), to_target(*target), i as int);
            }
            return Some(i);
        }
        i += 1;
    }
    proof {
        lemma_first_none(views(s@), to_target(*target));
    }
    None
}

fn find_topic(s: &Vec<Announced>, topic: &NodeId) -> (r: Option<usize>)
    ensures
        found(views(s@), on_topic(*topic), r),
{
    let mut i: usize = 0;
    while i < s.len()
        invariant
            i <= s.len(),
            forall|j: int| 0 <= j < i ==> !on_topic(*topic)(#[trigger] views(s@)[j]),
        decreases s.len() - i,
    {
        assert(views(s@)[i as int] == s@[i as int]@);
        if s[i].topic == *topic {
            proof {
                lemma_first_at(views(s@), on_topic(*topic), i as int);
            }
            return Some(i);
        }
        i += 1;
    }
    proof {
        lemma_first_none(views(s@), on_topic(*topic));
    }
    None
}

/// Put a contact in its place in a shortlist.
fn place(s: &mut Vec<QueryContact>, c: QueryContact, target: &NodeId)
    ensures
        final(s)@ == shortlisted(old(s)@, c, *target),
{
    let ghost s0 = s@;
    let mut i: usize = s.len();
    proof {
        assert(s0.take(i as int) =~= s0);
        assert(s0.skip(i as int) =~= Seq::<QueryContact>::empty());
        assert(shortlisted(s0, c, *target) =~= shortlisted(s0.take(i as int), c, *target)
            + s0.skip(i as int));
    }
    while i > 0 && closer(&c.contact.id, &s[i - 1].contact.id, target)
        invariant
            i <= s.len(),
            s@ == s0,
            shortlisted(s0, c, *target) == shortlisted(s0.take(i as int), c, *target) + s0.skip(
                i as int,
            ),
        decreases i,
    {
        proof {
            let t = s0.take(i as int);
            assert(t.last() == s0[i - 1]);
            assert(t.drop_last() =~= s0.take(i - 1));
            assert(shortlisted(t, c, *target) == shortlisted(s0.take(i - 1), c, *target).push(
                s0[i - 1],
            ));
            assert(shortlisted(s0.take(i - 1), c, *target).push(s0[i - 1]) + s0.skip(i as int)
                =~= shortlisted(s0.take(i - 1), c, *target) + s0.skip(i - 1));
        }
        i -= 1;
    }
    proof {
        let t = s0.take(i as int);
        if i > 0 {
            assert(t.last() == s0[i - 1]);
        }
        assert(shortlisted(t, c, *target) == t.push(c));
        assert(s0.insert(i as int, c) =~= t.push(c) + s0.skip(i as int));
    }
    s.insert(i, c);
}

/// Add a contact to a shortlist, unless it is there already.
fn add_if_new(s: &mut Vec<QueryContact>, c: Contact, target: &NodeId)
    ensures
        final(s)@ == added(old(s)@, c, *target),
{
    if find_listed(s, &c.id).is_none() {
        place(s, QueryContact { contact: c, status: Status::Fresh }, target);
    }
}

/// Add contacts to a shortlist, all but the one with id `me`.
fn add_all(s: &mut Vec<QueryContact>, new: &Vec<Contact>, target: &NodeId, me: Option<NodeId>)
    ensures
        final(s)@ == all_added(old(s)@, new@, *target, me),
{
    let ghost s0 = s@;
    let mut i: usize = 0;
    while i < new.len()
        invariant
            i <= new.len(),
            s@ == all_added(s0, new@.take(i as int), *target, me),
        decreases new.len() - i,
    {
        proof {
            assert(new@.take(i + 1).drop_last() =~= new@.take(i as int));
            assert(new@.take(i + 1).last() == new@[i as int]);
        }
        let own: bool = match me {
            Some(id) => id == new[i].id,
            None => false,
        };
        if !own {
            add_if_new(s, new[i], target);
        }
        i += 1;
    }
    assert(new@.take(new@.len() as int) =~= new@);
}

/// Change the status of a contact on a shortlist.
fn mark(s: &mut Vec<QueryContact>, id: &NodeId, status: Status)
    ensures
        final(s)@ == marked(old(s)@, *id, status),
{
    if let Some(i) = find_listed(s, id) {
        let contact: Contact = s[i].contact;
        s.set(i, QueryContact { contact, status });
    }
}

/// How many contacts of a shortlist have been asked and not answered.
fn count_in_flight(s: &Vec<QueryContact>) -> (r: usize)
    ensures
        r == in_flight(s@),
{
    let mut n: usize = 0;
    let mut i: usize = 0;
    while i < s.len()
        invariant
            i <= s.len(),
            n == in_flight(s@.take(i as int)),
            n <= i,
        decreases s.len() - i,
    {
        proof {
            assert(s@.take(i + 1).drop_last() =~= s@.take(i as int));
            assert(s@.take(i + 1).last() == s@[i as int]);
        }
        if s[i].status == Status::InFlight {
            n += 1;
        }
        i += 1;
    }
    assert(s@.take(s@.len() as int) =~= s@);
    n
}

/// Mark the nearest fresh contacts as asked, as many as may be in flight.
fn launch(s: &mut Vec<QueryContact>, in_flight: usize) -> (out: Vec<Contact>)
    ensures
        (final(s)@, out@) == launched(old(s)@, 0, in_flight as nat),
{
    let ghost s0 = s@;
    let ghost n0 = in_flight as nat;
    let mut flying: usize = in_flight;
    let mut out: Vec<Contact> = Vec::new();
    let mut i: usize = 0;
    assert(Seq::<Contact>::empty() + launched(s0, 0, n0).1 =~= launched(s0, 0, n0).1);
    while i < s.len() && i < K && flying < ALPHA
        invariant
            i <= s.len(),
            launched(s0, 0, n0).0 == launched(s@, i as nat, flying as nat).0,
            launched(s0, 0, n0).1 == out@ + launched(s@, i as nat, flying as nat).1,
        decreases s.len() - i,
    {
        if s[i].status == Status::Fresh {
            let contact: Contact = s[i].contact;
            proof {
                let after = s@.update(
                    i as int,
                    QueryContact { contact, status: Status::InFlight },
                );
                let more = launched(after, (i + 1) as nat, (flying + 1) as nat).1;
                assert(out@ + (seq![contact] + more) =~= out@.push(contact) + more);
            }
            s.set(i, QueryContact { contact, status: Status::InFlight });
            out.push(contact);
            flying += 1;
        }
        i += 1;
    }
    assert(out@ + Seq::<Contact>::empty() =~= out@);
    out
}

/// The nearest contacts that answered.
fn collect_answered(s: &Vec<QueryContact>) -> (r: Vec<Contact>)
    ensures
        r@ == answered(s@, near(s@)),
{
    let mut r: Vec<Contact> = Vec::new();
    let mut i: usize = 0;
    while i < s.len() && i < K
        invariant
            i <= s.len(),
            i <= K,
            r@ == answered(s@, i as nat),
        decreases s.len() - i,
    {
        if s[i].status == Status::Done {
            r.push(s[i].contact);
        }
        i += 1;
    }
    r
}

/// Refresh a contact's address, or add the contact.
fn refresh(s: &mut Vec<Contact>, c: Contact)
    ensures
        final(s)@ == refreshed(old(s)@, c),
{
    match find_contact(s, &c.id) {
        Some(i) => {
            let id: NodeId = s[i].id;
            s.set(i, Contact { id, addr: c.addr });
        },
        None => {
            s.push(c);
        },
    }
}

/// Refresh or add contacts one after the other.
fn refresh_all(s: &mut Vec<Contact>, new: &Vec<Contact>)
    ensures
        final(s)@ == all_refreshed(old(s)@, new@),
{
    let ghost s0 = s@;
    let mut i: usize = 0;
    while i < new.len()
        invariant
            i <= new.len(),
            s@ == all_refreshed(s0, new@.take(i as int)),
        decreases new.len() - i,
    {
        proof {
            assert(new@.take(i + 1).drop_last() =~= new@.take(i as int));
            assert(new@.take(i + 1).last() == new@[i as int]);
        }
        refresh(s, new[i]);
        i += 1;
    }
    assert(new@.take(new@.len() as int) =~= new@);
}

/// The outcome a strategy leads to.
fn outcome_for(strategy: Strategy) -> (r: ConnectOutcome)
    ensures
        r == outcome_of(strategy),
{
    match strategy {
        Strategy::Direct => ConnectOutcome::Direct,
        Strategy::SprayRandomPorts | Strategy::OpenBirthdaySockets => ConnectOutcome::Punched,
        Strategy::Relay => ConnectOutcome::Relayed,
    }
}

/// Whether a time is that of the earliest timer.
pub open spec fn is_next_timer(d: DhtView, t: u64) -> bool {
    timer_at(d, t) && forall|u: u64| #[trigger] timer_at(d, u) ==> t <= u
}

/// The earliest time some timer is set for.
pub open spec fn next_timer(d: DhtView) -> Option<u64> {
    if exists|t: u64| is_next_timer(d, t) {
        Some(choose|t: u64| is_next_timer(d, t))
    } else {
        None
    }
}

/// A Kademlia node.
pub struct Dht {
    id: NodeId,
    table: RoutingTable,
    queries: Vec<Query>,
    pending: Vec<Pending>,
    sampler: NatSampler,
    probes: Vec<Probe>,
    reachable: bool,
    local_firewall: Firewall,
    announces: Vec<Announced>,
    connecting: Vec<ConnectState>,
    initiators: VecDeque<(NodeId, SocketAddr)>,
    incoming: Vec<IncomingState>,
    outbox: VecDeque<Transmit>,
    events: VecDeque<Event>,
    next_rid: u64,
    next_qid: u64,
    /// What the node has been told and asked.
    past: Ghost<Past>,
}

impl View for Dht {
    type V = DhtView;

    closed spec fn view(&self) -> DhtView {
        DhtView {
            id: self.id,
            table: self.table@,
            queries: views(self.queries@),
            pending: self.pending@,
            seen_at: self.sampler@,
            probes: self.probes@,
            reachable: self.reachable,
            local_firewall: self.local_firewall,
            announces: views(self.announces@),
            connecting: views(self.connecting@),
            initiators: self.initiators@,
            incoming: self.incoming@,
            outbox: views(self.outbox@),
            events: views(self.events@),
            next_rid: self.next_rid,
            next_qid: self.next_qid,
        }
    }
}

/// A node that has seen nothing yet.
pub open spec fn fresh_node(id: NodeId) -> DhtView {
    DhtView {
        id,
        table: empty_table(id),
        queries: Seq::empty(),
        pending: Seq::empty(),
        seen_at: Seq::empty(),
        probes: Seq::empty(),
        reachable: false,
        local_firewall: Firewall::Open,
        announces: Seq::empty(),
        connecting: Seq::empty(),
        initiators: Seq::empty(),
        incoming: Seq::empty(),
        outbox: Seq::empty(),
        events: Seq::empty(),
        next_rid: 1,
        next_qid: 1,
    }
}

impl Dht {
    /// The routing table is in order, and it is this node's own.
    spec fn inv(&self) -> bool {
        &&& self.table.wf()
        &&& self.table@.local == self.id
    }

    /// What the node has been told and asked, from the moment it was new.
    pub closed spec fn past(&self) -> Past {
        self.past@
    }

    /// The routing table is in order and this node's own, and the node is what its past
    /// has made of it.
    pub closed spec fn wf(&self) -> bool {
        &&& self.inv()
        &&& self@ == lived(self.past())
    }

    /// Records what the node was told or asked.
    fn record(&mut self, call: Ghost<DhtCall>)
        requires
            old(self).inv(),
            old(self)@ == after_call(lived(old(self).past@), call@),
        ensures
            final(self).wf(),
            final(self)@ == old(self)@,
            final(self).past() == and_then(old(self).past(), call@),
    {
        proof {
            lemma_lived(self.past@, call@);
        }
        self.past = Ghost(and_then(self.past@, call@));
        assert(self@ =~= old(self)@);
    }

    /// Create a node with the given id.
    pub fn new(id: NodeId) -> (r: Self)
        ensures
            r.wf(),
            r@ == fresh_node(id),
            r.past() == (Past { id, calls: Seq::empty() }),
    {
        let r = Dht {
            id,
            table: RoutingTable::new(id),
            queries: Vec::new(),
            pending: Vec::new(),
            sampler: NatSampler::new(),
            probes: Vec::new(),
            reachable: false,
            local_firewall: Firewall::Open,
            announces: Vec::new(),
            connecting: Vec::new(),
            initiators: VecDeque::new(),
            incoming: Vec::new(),
            outbox: VecDeque::new(),
            events: VecDeque::new(),
            next_rid: 1,
            next_qid: 1,
            past: Ghost(Past { id, calls: Seq::empty() }),
        };
        assert(r@ =~= fresh_node(id));
        proof {
            lemma_new_life(id);
        }
        r
    }

    /// This node's id.
    pub fn id(&self) -> (r: NodeId)
        ensures
            r == self@.id,
    {
        self.id
    }

    /// Number of contacts in the routing table.
    pub fn routing_len(&self) -> (r: usize)
        requires
            self.wf(),
        ensures
            r == all_contacts(self@.table).len(),
    {
        self.table.len()
    }

    /// The `n` contacts closest to `target` currently in the routing table.
    pub fn closest(&self, target: &NodeId, n: usize) -> (r: Vec<Contact>)
        requires
            self.wf(),
        ensures
            r@ == nearest(self@.table, *target, n as nat),
    {
        self.table.closest(target, n)
    }

    /// Seed a bootstrap contact into the routing table.
    pub fn add_contact(&mut self, contact: Contact)
        requires
            old(self).wf(),
        ensures
            final(self).wf(),
            final(self).past() == and_then(
                old(self).past(),
                DhtCall::AddContact(contact),
            ),
            final(self)@ == (DhtView {
                table: admitted(old(self)@.table, contact).0,
                ..old(self)@
            }),
    {
        let _ = self.table.insert(contact);
        proof {
            lemma_contact_call(old(self)@, contact);
        }
        self.record(Ghost(DhtCall::AddContact(contact)));
    }

    /// Record whether an inbound reachability probe succeeded.
    pub fn note_reachable(&mut self, reachable: bool)
        requires
            old(self).wf(),
        ensures
            final(self).wf(),
            final(self).past() == and_then(
                old(self).past(),
                DhtCall::NoteReachable(reachable),
            ),
            final(self)@ == (DhtView { reachable, ..old(self)@ }),
    {
        self.reachable = reachable;
        self.record(Ghost(DhtCall::NoteReachable(reachable)));
    }

    /// The current classification of our firewall, or `None` until enough
    /// samples have arrived.
    pub fn firewall(&self) -> (r: Option<Firewall>)
        ensures
            r == verdict(self@.seen_at, self@.reachable),
    {
        self.sampler.classify(self.reachable)
    }

    /// Number of observations of our own address collected so far.
    pub fn nat_samples(&self) -> (r: usize)
        ensures
            r == self@.seen_at.len(),
    {
        self.sampler.len()
    }

    /// Set this node's own firewall type, shared with peers during connect
    /// signaling until sampling has found one.
    pub fn set_firewall(&mut self, fw: Firewall)
        requires
            old(self).wf(),
        ensures
            final(self).wf(),
            final(self).past() == and_then(
                old(self).past(),
                DhtCall::SetFirewall(fw),
            ),
            final(self)@ == (DhtView { local_firewall: fw, ..old(self)@ }),
    {
        self.local_firewall = fw;
        self.record(Ghost(DhtCall::SetFirewall(fw)));
    }

    fn signaling_firewall(&self) -> (r: Firewall)
        ensures
            r == advertised(self@),
    {
        match self.firewall() {
            Some(f) => f,
            None => self.local_firewall,
        }
    }

    fn alloc_rid(&mut self) -> (r: u64)
        requires
            old(self).inv(),
        ensures
            final(self).inv(),
            final(self).past == old(self).past,
            r == old(self)@.next_rid,
            final(self)@ == (DhtView {
                next_rid: old(self)@.next_rid.wrapping_add(1),
                ..old(self)@
            }),
    {
        let rid: u64 = self.next_rid;
        self.next_rid = rid.wrapping_add(1);
        rid
    }

    fn send(&mut self, to: SocketAddr, rid: u64, msg: Message)
        requires
            old(self).inv(),
        ensures
            final(self).inv(),
            final(self).past == old(self).past,
            final(self)@ == sent(old(self)@, to, rid, msg@),
    {
        let packet = Packet { sender: self.id, rid, msg };
        let data = packet.encode();
        let transmit = Transmit { to, data };
        proof {
            lemma_views_push(self.outbox@, transmit);
        }
        self.outbox.push_back(transmit);
        assert(self@ =~= sent(old(self)@, to, rid, msg@));
    }

    fn ask(&mut self, to: SocketAddr, msg: Message)
        requires
            old(self).inv(),
        ensures
            final(self).inv(),
            final(self).past == old(self).past,
            final(self)@ == asked(old(self)@, to, msg@),
    {
        let rid: u64 = self.alloc_rid();
        self.send(to, rid, msg);
    }

    fn report(&mut self, event: Event)
        requires
            old(self).inv(),
        ensures
            final(self).inv(),
            final(self).past == old(self).past,
            final(self)@ == reported(old(self)@, event@),
    {
        proof {
            lemma_views_push(self.events@, event);
        }
        self.events.push_back(event);
        assert(self@ =~= reported(old(self)@, event@));
    }

    fn request(&mut self, qid: u64, target: NodeId, now: Millis, out: &Vec<Contact>)
        requires
            old(self).inv(),
            now + REQUEST_TIMEOUT_MS <= u64::MAX,
        ensures
            final(self).inv(),
            final(self).past == old(self).past,
            final(self)@ == requested(old(self)@, qid, target, now, out@),
    {
        let ghost d = self@;
        let mut i: usize = 0;
        while i < out.len()
            invariant
                self.past == old(self).past,
                i <= out.len(),
                now + REQUEST_TIMEOUT_MS <= u64::MAX,
                self.inv(),
                self@ == requested(d, qid, target, now, out@.take(i as int)),
            decreases out.len() - i,
        {
            proof {
                assert(out@.take(i + 1).drop_last() =~= out@.take(i as int));
                assert(out@.take(i + 1).last() == out@[i as int]);
            }
            let c: Contact = out[i];
            let rid: u64 = self.next_rid;
            self.ask(c.addr, Message::FindNode { target });
            self.pending.push(
                Pending { rid, query: qid, contact: c.id, deadline: now + REQUEST_TIMEOUT_MS },
            );
            assert(self@ =~= requested(d, qid, target, now, out@.take(i + 1)));
            i += 1;
        }
        assert(out@.take(out@.len() as int) =~= out@);
    }

    fn register(&mut self, topic: NodeId, out: &Vec<Contact>)
        requires
            old(self).inv(),
        ensures
            final(self).inv(),
            final(self).past == old(self).past,
            final(self)@ == registered(old(self)@, topic, out@),
    {
        let ghost d = self@;
        let mut i: usize = 0;
        while i < out.len()
            invariant
                self.past == old(self).past,
                i <= out.len(),
                self.inv(),
                self@ == registered(d, topic, out@.take(i as int)),
            decreases out.len() - i,
        {
            proof {
                assert(out@.take(i + 1).drop_last() =~= out@.take(i as int));
                assert(out@.take(i + 1).last() == out@[i as int]);
            }
            self.ask(out[i].addr, Message::Announce { topic });
            i += 1;
        }
        assert(out@.take(out@.len() as int) =~= out@);
    }

    fn disconnect(&mut self, target: &NodeId)
        requires
            old(self).inv(),
        ensures
            final(self).inv(),
            final(self).past == old(self).past,
            final(self)@ == (DhtView {
                connecting: disconnected(old(self)@.connecting, *target),
                ..old(self)@
            }),
    {
        if let Some(k) = find_connect(&self.connecting, target) {
            proof {
                lemma_views_remove(self.connecting@, k as int);
            }
            let _ = self.connecting.remove(k);
        }
        assert(self@ =~= (DhtView {
            connecting: disconnected(old(self)@.connecting, *target),
            ..old(self)@
        }));
    }

    fn finish_query(&mut self, q: Query, closest: Vec<Contact>)
        requires
            old(self).inv(),
        ensures
            final(self).inv(),
            final(self).past == old(self).past,
            final(self)@ == finished(old(self)@, q@, closest@),
    {
        let target: NodeId = q.target;
        match q.kind {
            QueryKind::FindNode => {
                self.report(Event::QueryFinished { query: q.qid, target, closest });
            },
            QueryKind::Lookup => {
                self.report(Event::LookupFinished { topic: target, peers: q.peers });
            },
            QueryKind::Announce => {
                self.register(target, &closest);
                self.report(Event::AnnounceFinished { topic: target });
            },
            QueryKind::Connect => {
                if q.coordinators.len() > 0 {
                    let coordinator: Contact = q.coordinators[0];
                    if let Some(k) = find_connect(&self.connecting, &target) {
                        let ghost c = self.connecting@[k as int];
                        let ghost list = self.connecting@;
                        let fw: Firewall = self.signaling_firewall();
                        let data_addrs: Vec<SocketAddr> = copied(&self.connecting[k].data_addrs);
                        self.connecting[k].coordinator = Some(coordinator.addr);
                        proof {
                            lemma_views_update(list, k as int, self.connecting@[k as int]);
                            assert(self.connecting@ =~= list.update(
                                k as int,
                                self.connecting@[k as int],
                            ));
                            assert(views(list)[k as int] == c@);
                            assert(self@ =~= (DhtView {
                                connecting: old(self)@.connecting.update(
                                    k as int,
                                    ConnectView { coordinator: Some(coordinator.addr), ..c@ },
                                ),
                                ..old(self)@
                            }));
                        }
                        let initiator: NodeId = self.id;
                        self.ask(
                            coordinator.addr,
                            Message::Signal {
                                target,
                                initiator,
                                initiator_addr: coordinator.addr,
                                data_addrs,
                                firewall: fw,
                                is_reply: false,
                            },
                        );
                    }
                } else {
                    self.disconnect(&target);
                    self.report(
                        Event::Connected {
                            target,
                            outcome: ConnectOutcome::NotFound,
                            peer_data_addrs: Vec::new(),
                            strategy: None,
                        },
                    );
                }
            },
        }
    }

    fn drive_query(&mut self, qid: QueryId, now: Millis)
        requires
            old(self).inv(),
            now + REQUEST_TIMEOUT_MS <= u64::MAX,
        ensures
            final(self).inv(),
            final(self).past == old(self).past,
            final(self)@ == driven(old(self)@, qid, now),
    {
        let k: usize = match find_query(&self.queries, qid) {
            Some(k) => k,
            None => {
                return;
            },
        };
        let ghost list = self.queries@;
        let ghost q = list[k as int];
        assert(views(list)[k as int] == q@);
        let target: NodeId = self.queries[k].target;
        let flying: usize = count_in_flight(&self.queries[k].contacts);
        let out: Vec<Contact> = launch(&mut self.queries[k].contacts, flying);
        let ghost r = self.queries@[k as int];
        proof {
            assert(self.queries@ =~= list.update(k as int, r));
            lemma_views_update(list, k as int, r);
            assert(r@ =~= (QueryView {
                contacts: launched(q@.contacts, 0, flying as nat).0,
                ..q@
            }));
        }
        if out.len() == 0 && flying == 0 {
            proof {
                lemma_views_remove(self.queries@, k as int);
                assert(views(list).update(k as int, r@).remove(k as int) =~= views(list).remove(
                    k as int,
                ));
            }
            let q: Query = self.queries.remove(k);
            let closest: Vec<Contact> = collect_answered(&q.contacts);
            assert(self@ =~= (DhtView {
                queries: old(self)@.queries.remove(k as int),
                ..old(self)@
            }));
            self.finish_query(q, closest);
        } else {
            assert(self@ =~= (DhtView {
                queries: old(self)@.queries.update(k as int, r@),
                ..old(self)@
            }));
            self.request(qid, target, now, &out);
        }
    }

    fn start_query(&mut self, target: NodeId, kind: QueryKind, now: Millis) -> (r: QueryId)
        requires
            old(self).inv(),
            now + REQUEST_TIMEOUT_MS <= u64::MAX,
        ensures
            final(self).inv(),
            final(self).past == old(self).past,
            r == old(self)@.next_qid,
            final(self)@ == started(old(self)@, target, kind, now),
    {
        let qid: u64 = self.next_qid;
        self.next_qid = qid.wrapping_add(1);
        let mut contacts: Vec<QueryContact> = Vec::new();
        let known: Vec<Contact> = self.table.closest(&target, K);
        add_all(&mut contacts, &known, &target, None);
        let q = Query {
            qid,
            target,
            kind,
            contacts,
            coordinators: Vec::new(),
            peers: Vec::new(),
        };
        proof {
            lemma_views_push(self.queries@, q);
            assert(q@ =~= (QueryView {
                qid,
                target,
                kind,
                contacts: all_added(
                    Seq::empty(),
                    nearest(old(self)@.table, target, K as nat),
                    target,
                    None,
                ),
                coordinators: Seq::empty(),
                peers: Seq::empty(),
            }));
        }
        self.queries.push(q);
        assert(self@ =~= (DhtView {
            queries: old(self)@.queries.push(q@),
            next_qid: qid.wrapping_add(1),
            ..old(self)@
        }));
        self.drive_query(qid, now);
        qid
    }

    /// Begin a lookup for the nodes closest to our own id: the standard way to
    /// populate the routing table after learning a bootstrap peer.
    pub fn bootstrap(&mut self, now: Millis) -> (r: QueryId)
        requires
            old(self).wf(),
            now + REQUEST_TIMEOUT_MS <= u64::MAX,
        ensures
            final(self).wf(),
            final(self).past() == and_then(
                old(self).past(),
                DhtCall::Start { target: old(self)@.id, kind: QueryKind::FindNode, now },
            ),
            r == old(self)@.next_qid,
            final(self)@ == started(old(self)@, old(self)@.id, QueryKind::FindNode, now),
    {
        let id: NodeId = self.id;
        self.find_node(id, now)
    }

    /// Begin a lookup for the nodes closest to `target`.
    pub fn find_node(&mut self, target: NodeId, now: Millis) -> (r: QueryId)
        requires
            old(self).wf(),
            now + REQUEST_TIMEOUT_MS <= u64::MAX,
        ensures
            final(self).wf(),
            final(self).past() == and_then(
                old(self).past(),
                DhtCall::Start { target, kind: QueryKind::FindNode, now },
            ),
            r == old(self)@.next_qid,
            final(self)@ == started(old(self)@, target, QueryKind::FindNode, now),
    {
        let r: QueryId = self.start_query(target, QueryKind::FindNode, now);
        proof {
            lemma_start_call(old(self)@, target, QueryKind::FindNode, now);
        }
        self.record(Ghost(DhtCall::Start { target, kind: QueryKind::FindNode, now }));
        r
    }

    /// Announce this node under `topic`: find the closest nodes and register
    /// ourselves with them, so peers looking up `topic` can discover us.
    pub fn announce(&mut self, topic: NodeId, now: Millis) -> (r: QueryId)
        requires
            old(self).wf(),
            now + REQUEST_TIMEOUT_MS <= u64::MAX,
        ensures
            final(self).wf(),
            final(self).past() == and_then(
                old(self).past(),
                DhtCall::Start { target: topic, kind: QueryKind::Announce, now },
            ),
            r == old(self)@.next_qid,
            final(self)@ == started(old(self)@, topic, QueryKind::Announce, now),
    {
        let r: QueryId = self.start_query(topic, QueryKind::Announce, now);
        proof {
            lemma_start_call(old(self)@, topic, QueryKind::Announce, now);
        }
        self.record(Ghost(DhtCall::Start { target: topic, kind: QueryKind::Announce, now }));
        r
    }

    /// Look up peers that have announced under `topic`.
    pub fn lookup(&mut self, topic: NodeId, now: Millis) -> (r: QueryId)
        requires
            old(self).wf(),
            now + REQUEST_TIMEOUT_MS <= u64::MAX,
        ensures
            final(self).wf(),
            final(self).past() == and_then(
                old(self).past(),
                DhtCall::Start { target: topic, kind: QueryKind::Lookup, now },
            ),
            r == old(self)@.next_qid,
            final(self)@ == started(old(self)@, topic, QueryKind::Lookup, now),
    {
        let r: QueryId = self.start_query(topic, QueryKind::Lookup, now);
        proof {
            lemma_start_call(old(self)@, topic, QueryKind::Lookup, now);
        }
        self.record(Ghost(DhtCall::Start { target: topic, kind: QueryKind::Lookup, now }));
        r
    }

    /// Connect to `target` by id: discover it, then coordinate a hole punch
    /// through a node that holds its announce record. `data_addrs` are our own
    /// data-socket candidate addresses, sent to the target so it knows where to
    /// punch back. Completion is reported as an [`Event::Connected`].
    pub fn connect(&mut self, target: NodeId, data_addrs: Vec<SocketAddr>, now: Millis) -> (r:
        QueryId)
        requires
            old(self).wf(),
            now + CONNECT_TIMEOUT_MS <= u64::MAX,
        ensures
            final(self).wf(),
            final(self).past() == and_then(
                old(self).past(),
                DhtCall::Connect { target, data_addrs: data_addrs@, now },
            ),
            r == old(self)@.next_qid,
            final(self)@ == connect_begun(old(self)@, target, data_addrs@, now),
    {
        let ghost addrs = data_addrs@;
        let c = ConnectState {
            target,
            deadline: now + CONNECT_TIMEOUT_MS,
            coordinator: None,
            data_addrs,
        };
        match find_connect(&self.connecting, &target) {
            Some(k) => {
                proof {
                    lemma_views_update(self.connecting@, k as int, c);
                }
                self.connecting.set(k, c);
            },
            None => {
                proof {
                    lemma_views_push(self.connecting@, c);
                }
                self.connecting.push(c);
            },
        }
        proof {
            let v = ConnectView {
                target,
                deadline: (now + CONNECT_TIMEOUT_MS) as u64,
                coordinator: None,
                data_addrs: data_addrs@,
            };
            assert(c@ =~= v);
            assert(self@ =~= (DhtView {
                connecting: match first(old(self)@.connecting, to_target(target)) {
                    Some(k) => old(self)@.connecting.update(k, v),
                    None => old(self)@.connecting.push(v),
                },
                ..old(self)@
            }));
        }
        let r: QueryId = self.start_query(target, QueryKind::Connect, now);
        proof {
            lemma_connect_call(old(self)@, target, addrs, now);
        }
        self.record(Ghost(DhtCall::Connect { target, data_addrs: addrs, now }));
        r
    }

    /// Accept an incoming connect surfaced by [`Event::IncomingConnect`]: reply
    /// to `initiator`, through the coordinator that relayed the request, with our
    /// `data_addrs`, so it can punch a channel to us. Nothing happens if the
    /// request is no longer pending.
    pub fn accept_connect(&mut self, initiator: NodeId, data_addrs: Vec<SocketAddr>, now: Millis)
        requires
            old(self).wf(),
        ensures
            final(self).wf(),
            final(self).past() == and_then(
                old(self).past(),
                DhtCall::Accept { initiator, data_addrs: data_addrs@, now },
            ),
            final(self)@ == accepted(old(self)@, initiator, data_addrs@, now),
    {
        let ghost addrs = data_addrs@;
        self.reply_to(initiator, data_addrs, now);
        proof {
            lemma_accept_call(old(self)@, initiator, addrs, now);
        }
        self.record(Ghost(DhtCall::Accept { initiator, data_addrs: addrs, now }));
    }

    /// Reply to an incoming connect, if it is still pending.
    fn reply_to(&mut self, initiator: NodeId, data_addrs: Vec<SocketAddr>, now: Millis)
        requires
            old(self).inv(),
        ensures
            final(self).inv(),
            final(self).past == old(self).past,
            final(self)@ == accepted(old(self)@, initiator, data_addrs@, now),
    {
        if let Some(k) = find_incoming(&self.incoming, &initiator) {
            let inc: IncomingState = self.incoming.remove(k);
            assert(self@ =~= (DhtView {
                incoming: old(self)@.incoming.remove(k as int),
                ..old(self)@
            }));
            if inc.deadline <= now {
                return;
            }
            let fw: Firewall = self.signaling_firewall();
            let target: NodeId = self.id;
            self.ask(
                inc.coordinator,
                Message::Signal {
                    target,
                    initiator,
                    initiator_addr: inc.initiator_addr,
                    data_addrs,
                    firewall: fw,
                    is_reply: true,
                },
            );
        }
    }

    /// Probe up to `count` known peers to learn our externally observed address.
    /// Each peer replies with the source address it saw; the firewall is
    /// classified once enough of those have arrived.
    pub fn sample_nat(&mut self, now: Millis, count: usize)
        requires
            old(self).wf(),
            now + REQUEST_TIMEOUT_MS <= u64::MAX,
        ensures
            final(self).wf(),
            final(self).past() == and_then(
                old(self).past(),
                DhtCall::Sample { count: count as nat, now },
            ),
            final(self)@ == pinged(
                old(self)@,
                nearest(old(self)@.table, old(self)@.id, count as nat),
                now,
            ),
    {
        let ghost d = self@;
        let peers: Vec<Contact> = self.table.closest(&self.id, count);
        let mut i: usize = 0;
        while i < peers.len()
            invariant
                i <= peers.len(),
                now + REQUEST_TIMEOUT_MS <= u64::MAX,
                self.inv(),
                self.past == old(self).past,
                self@ == pinged(d, peers@.take(i as int), now),
            decreases peers.len() - i,
        {
            proof {
                assert(peers@.take(i + 1).drop_last() =~= peers@.take(i as int));
                assert(peers@.take(i + 1).last() == peers@[i as int]);
            }
            let rid: u64 = self.next_rid;
            self.ask(peers[i].addr, Message::Ping);
            self.probes.push(Probe { rid, deadline: now + REQUEST_TIMEOUT_MS });
            assert(self@ =~= pinged(d, peers@.take(i + 1), now));
            i += 1;
        }
        assert(peers@.take(peers@.len() as int) =~= peers@);
        proof {
            lemma_sample_call(d, count as nat, now);
        }
        self.record(Ghost(DhtCall::Sample { count: count as nat, now }));
    }

    /// Take the next packet to transmit, if any.
    pub fn poll_transmit(&mut self) -> (r: Option<Transmit>)
        requires
            old(self).wf(),
        ensures
            final(self).wf(),
            final(self).past() == and_then(
                old(self).past(),
                DhtCall::PollTransmit,
            ),
            match r {
                Some(t) => old(self)@.outbox.len() > 0 && t@ == old(self)@.outbox[0]
                    && final(self)@ == (DhtView {
                    outbox: old(self)@.outbox.skip(1),
                    ..old(self)@
                }),
                None => old(self)@.outbox.len() == 0 && final(self)@ == old(self)@,
            },
    {
        let r = self.outbox.pop_front();
        proof {
            if r is Some {
                assert(self@ =~= (DhtView { outbox: old(self)@.outbox.skip(1), ..old(self)@ }));
                assert(views(old(self).outbox@)[0] == old(self).outbox@[0]@);
            } else {
                assert(self@ =~= old(self)@);
            }
        }
        self.record(Ghost(DhtCall::PollTransmit));
        r
    }

    /// Take the next event, if any.
    pub fn poll_event(&mut self) -> (r: Option<Event>)
        requires
            old(self).wf(),
        ensures
            final(self).wf(),
            final(self).past() == and_then(
                old(self).past(),
                DhtCall::PollEvent,
            ),
            match r {
                Some(e) => old(self)@.events.len() > 0 && e@ == old(self)@.events[0]
                    && final(self)@ == (DhtView {
                    events: old(self)@.events.skip(1),
                    ..old(self)@
                }),
                None => old(self)@.events.len() == 0 && final(self)@ == old(self)@,
            },
            ids_lasted(old(self).past()) ==> (r matches Some(e) ==> is_true_report(
                e@,
                old(self).past(),
            )),
    {
        let r = self.events.pop_front();
        proof {
            if r is Some {
                assert(self@ =~= (DhtView { events: old(self)@.events.skip(1), ..old(self)@ }));
                assert(views(old(self).events@)[0] == old(self).events@[0]@);
            } else {
                assert(self@ =~= old(self)@);
            }
            if ids_lasted(self.past()) && old(self)@.events.len() > 0 {
                lemma_reports_of_a_node(self.past(), old(self)@, 0);
            }
        }
        self.record(Ghost(DhtCall::PollEvent));
        r
    }

    fn on_nodes_response(
        &mut self,
        rid: u64,
        responder: Contact,
        contacts: Vec<Contact>,
        peers: Vec<Contact>,
        now: Millis,
    )
        requires
            old(self).inv(),
            now + REQUEST_TIMEOUT_MS <= u64::MAX,
        ensures
            final(self).inv(),
            final(self).past == old(self).past,
            final(self)@ == nodes_received(old(self)@, rid, responder, contacts@, peers@, now),
    {
        let p: Pending = match find_pending(&self.pending, rid) {
            Some(k) => self.pending.remove(k),
            None => {
                return;
            },
        };
        let ghost d1 = self@;
        assert(d1 =~= (DhtView {
            pending: old(self)@.pending.remove(first(old(self)@.pending, with_rid(rid))->Some_0),
            ..old(self)@
        }));
        let j: usize = match find_query(&self.queries, p.query) {
            Some(j) => j,
            None => {
                return;
            },
        };
        let ghost list = self.queries@;
        let ghost q = list[j as int];
        assert(views(list)[j as int] == q@);
        let me: NodeId = self.id;
        let target: NodeId = self.queries[j].target;
        mark(&mut self.queries[j].contacts, &p.contact, Status::Done);
        add_all(&mut self.queries[j].contacts, &contacts, &target, Some(me));
        if find_contact(&peers, &target).is_some() && find_contact(
            &self.queries[j].coordinators,
            &responder.id,
        ).is_none() {
            self.queries[j].coordinators.push(responder);
        }
        refresh_all(&mut self.queries[j].peers, &peers);
        proof {
            let r = self.queries@[j as int];
            assert(self.queries@ =~= list.update(j as int, r));
            lemma_views_update(list, j as int, r);
            assert(r@ =~= enriched(q@, me, p.contact, responder, contacts@, peers@));
            assert(self@ =~= (DhtView { queries: d1.queries.update(j as int, r@), ..d1 }));
        }
        self.drive_query(p.query, now);
    }

    fn responsible_for(&self, topic: &NodeId) -> (r: bool)
        requires
            self.inv(),
        ensures
            r == responsible(self@, *topic),
    {
        let known: Vec<Contact> = self.table.closest(topic, K);
        let mut n: usize = 0;
        let mut i: usize = 0;
        while i < known.len()
            invariant
                i <= known.len(),
                n <= i,
                n == count_closer(known@.take(i as int), *topic, dist(self.id, *topic)),
            decreases known.len() - i,
        {
            proof {
                assert(known@.take(i + 1).drop_last() =~= known@.take(i as int));
                assert(known@.take(i + 1).last() == known@[i as int]);
            }
            if closer(&known[i].id, &self.id, topic) {
                n += 1;
            }
            i += 1;
        }
        assert(known@.take(known@.len() as int) =~= known@);
        n < K
    }

    fn store_announce(&mut self, topic: NodeId, announcer: Contact)
        requires
            old(self).inv(),
        ensures
            final(self).inv(),
            final(self).past == old(self).past,
            final(self)@ == stored(old(self)@, topic, announcer),
    {
        let ghost list = self.announces@;
        match find_topic(&self.announces, &topic) {
            Some(k) => {
                assert(views(list)[k as int] == list[k as int]@);
                proof {
                    lemma_first(views(list), on_topic(topic));
                }
                if find_contact(&self.announces[k].peers, &announcer.id).is_some()
                    || self.announces[k].peers.len() < K {
                    refresh(&mut self.announces[k].peers, announcer);
                    proof {
                        let a = self.announces@[k as int];
                        assert(self.announces@ =~= list.update(k as int, a));
                        lemma_views_update(list, k as int, a);
                        assert(a@ =~= (AnnouncedView {
                            topic,
                            peers: refreshed(list[k as int]@.peers, announcer),
                        }));
                    }
                }
            },
            None => {
                if self.announces.len() >= MAX_ANNOUNCE_TOPICS {
                    return;
                }
                let mut peers: Vec<Contact> = Vec::new();
                peers.push(announcer);
                let a = Announced { topic, peers };
                proof {
                    lemma_views_push(list, a);
                    assert(a@ =~= (AnnouncedView { topic, peers: seq![announcer] }));
                }
                self.announces.push(a);
            },
        }
        assert(self@ =~= stored(old(self)@, topic, announcer));
    }

    fn announced_under(&self, topic: &NodeId) -> (r: Vec<Contact>)
        ensures
            r@ == records(self@, *topic),
    {
        match find_topic(&self.announces, topic) {
            Some(k) => {
                assert(views(self.announces@)[k as int] == self.announces@[k as int]@);
                copied(&self.announces[k].peers)
            },
            None => Vec::new(),
        }
    }

    fn has_initiator(&self, target: &NodeId, addr: &SocketAddr) -> (r: bool)
        ensures
            r == self@.initiators.contains((*target, *addr)),
    {
        let mut i: usize = 0;
        while i < self.initiators.len()
            invariant
                i <= self.initiators@.len(),
                forall|j: int| 0 <= j < i ==> #[trigger] self.initiators@[j] != (*target, *addr),
            decreases self.initiators@.len() - i,
        {
            if self.initiators[i].0 == *target && self.initiators[i].1 == *addr {
                assert(self.initiators@[i as int] == (*target, *addr));
                return true;
            }
            i += 1;
        }
        false
    }

    fn remember_initiator(&mut self, target: NodeId, addr: SocketAddr)
        requires
            old(self).inv(),
        ensures
            final(self).inv(),
            final(self).past == old(self).past,
            final(self)@ == (DhtView {
                initiators: remembered(old(self)@.initiators, (target, addr)),
                ..old(self)@
            }),
    {
        if self.has_initiator(&target, &addr) {
            return;
        }
        if self.initiators.len() >= MAX_SEEN_INITIATORS {
            let _ = self.initiators.pop_front();
        }
        self.initiators.push_back((target, addr));
        assert(self@ =~= (DhtView {
            initiators: remembered(old(self)@.initiators, (target, addr)),
            ..old(self)@
        }));
    }

    fn on_request(
        &mut self,
        from: SocketAddr,
        initiator: NodeId,
        initiator_addr: SocketAddr,
        data_addrs: Vec<SocketAddr>,
        firewall: Firewall,
        now: Millis,
    )
        requires
            old(self).inv(),
            now + CONNECT_TIMEOUT_MS <= u64::MAX,
        ensures
            final(self).inv(),
            final(self).past == old(self).past,
            final(self)@ == request_received(
                old(self)@,
                from,
                (SignalView {
                    target: old(self)@.id,
                    initiator,
                    initiator_addr,
                    data_addrs: data_addrs@,
                    firewall,
                }),
                now,
            ),
    {
        let deadline: u64 = now + CONNECT_TIMEOUT_MS;
        match find_incoming(&self.incoming, &initiator) {
            Some(k) => {
                let inc: IncomingState = self.incoming[k];
                self.incoming.set(
                    k,
                    IncomingState {
                        initiator: inc.initiator,
                        coordinator: inc.coordinator,
                        initiator_addr: inc.initiator_addr,
                        deadline,
                    },
                );
            },
            None => {
                if self.incoming.len() < MAX_PENDING_INCOMING {
                    let strategy: Strategy = plan(self.signaling_firewall(), firewall);
                    self.incoming.push(
                        IncomingState { initiator, coordinator: from, initiator_addr, deadline },
                    );
                    self.report(
                        Event::IncomingConnect {
                            initiator,
                            initiator_data_addrs: data_addrs,
                            strategy,
                        },
                    );
                }
            },
        }
    }

    fn is_from_target(&self, target: &NodeId, from: &SocketAddr) -> (r: bool)
        ensures
            r == is_own_record(records(self@, *target), *target, *from),
    {
        let recs: Vec<Contact> = self.announced_under(target);
        let mut i: usize = 0;
        while i < recs.len()
            invariant
                i <= recs.len(),
                recs@ == records(self@, *target),
                forall|j: int|
                    0 <= j < i ==> !(#[trigger] recs@[j].id == *target && recs@[j].addr == *from),
            decreases recs.len() - i,
        {
            if recs[i].id == *target && recs[i].addr == *from {
                assert(recs@[i as int].id == *target);
                return true;
            }
            i += 1;
        }
        false
    }

    fn on_signal(
        &mut self,
        from: SocketAddr,
        target: NodeId,
        initiator: NodeId,
        initiator_addr: SocketAddr,
        data_addrs: Vec<SocketAddr>,
        firewall: Firewall,
        is_reply: bool,
        now: Millis,
    )
        requires
            old(self).inv(),
            now + CONNECT_TIMEOUT_MS <= u64::MAX,
        ensures
            final(self).inv(),
            final(self).past == old(self).past,
            final(self)@ == signaled(
                old(self)@,
                from,
                (SignalView {
                    target,
                    initiator,
                    initiator_addr,
                    data_addrs: data_addrs@,
                    firewall,
                }),
                is_reply,
                now,
            ),
    {
        if !is_reply {
            if target == self.id {
                self.on_request(from, initiator, initiator_addr, data_addrs, firewall, now);
            } else {
                let recs: Vec<Contact> = self.announced_under(&target);
                if let Some(i) = find_contact(&recs, &target) {
                    self.remember_initiator(target, from);
                    self.ask(
                        recs[i].addr,
                        Message::Signal {
                            target,
                            initiator,
                            initiator_addr: from,
                            data_addrs,
                            firewall,
                            is_reply: false,
                        },
                    );
                }
            }
        } else if initiator == self.id {
            let from_asked: bool = match find_connect(&self.connecting, &target) {
                Some(k) => {
                    assert(views(self.connecting@)[k as int] == self.connecting@[k as int]@);
                    match self.connecting[k].coordinator {
                        Some(addr) => addr == from,
                        None => false,
                    }
                },
                None => false,
            };
            if from_asked {
                let strategy: Strategy = plan(self.signaling_firewall(), firewall);
                self.disconnect(&target);
                self.report(
                    Event::Connected {
                        target,
                        outcome: outcome_for(strategy),
                        peer_data_addrs: data_addrs,
                        strategy: Some(strategy),
                    },
                );
            }
        } else if self.has_initiator(&target, &initiator_addr) && self.is_from_target(
            &target,
            &from,
        ) {
            self.ask(
                initiator_addr,
                Message::Signal {
                    target,
                    initiator,
                    initiator_addr,
                    data_addrs,
                    firewall,
                    is_reply: true,
                },
            );
        }
    }

    /// Handle a packet received from `from`. One that does not parse is ignored.
    pub fn handle_input(&mut self, from: SocketAddr, data: &[u8], now: Millis)
        requires
            old(self).wf(),
            now + CONNECT_TIMEOUT_MS <= u64::MAX,
        ensures
            final(self).wf(),
            final(self).past() == and_then(
                old(self).past(),
                DhtCall::Input { from, data: data@, now },
            ),
            final(self)@ == input(old(self)@, from, data@, now),
    {
        self.take_in(from, data, now);
        proof {
            lemma_input_call(old(self)@, from, data@, now);
        }
        self.record(Ghost(DhtCall::Input { from, data: data@, now }));
    }

    /// Take in a datagram, if it is a packet.
    fn take_in(&mut self, from: SocketAddr, data: &[u8], now: Millis)
        requires
            old(self).inv(),
            now + CONNECT_TIMEOUT_MS <= u64::MAX,
        ensures
            final(self).inv(),
            final(self).past == old(self).past,
            final(self)@ == input(old(self)@, from, data@, now),
    {
        let packet: Packet = match Packet::decode(data) {
            Ok(p) => p,
            Err(_) => {
                return;
            },
        };
        let ghost p = packet@;
        let reflexive: bool = match &packet.msg {
            Message::Reflect => true,
            _ => false,
        };
        if packet.sender != self.id && !reflexive {
            let _ = self.table.insert(Contact::new(packet.sender, from));
        }
        assert(self@ =~= sighted(old(self)@, from, p));
        self.on_packet(from, packet, now);
    }

    /// Handle a packet of a node that has been filed.
    fn on_packet(&mut self, from: SocketAddr, packet: Packet, now: Millis)
        requires
            old(self).inv(),
            now + CONNECT_TIMEOUT_MS <= u64::MAX,
        ensures
            final(self).inv(),
            final(self).past == old(self).past,
            final(self)@ == received(old(self)@, from, packet@, now),
    {
        let sender = Contact::new(packet.sender, from);
        match packet.msg {
            Message::Ping => {
                self.send(from, packet.rid, Message::Pong { observed: from });
            },
            Message::Pong { observed } => {
                self.on_pong(packet.rid, observed);
            },
            Message::FindNode { target } => {
                self.on_find_node(from, packet.rid, target);
            },
            Message::Nodes { contacts, peers } => {
                self.on_nodes_response(packet.rid, sender, contacts, peers, now);
            },
            Message::Announce { topic } => {
                if self.responsible_for(&topic) {
                    self.store_announce(topic, sender);
                }
            },
            Message::Signal { target, initiator, initiator_addr, data_addrs, firewall, is_reply } =>
            {
                self.on_signal(
                    from,
                    target,
                    initiator,
                    initiator_addr,
                    data_addrs,
                    firewall,
                    is_reply,
                    now,
                );
            },
            Message::Reflect => {
                self.send(from, packet.rid, Message::Reflected { observed: from });
            },
            Message::Reflected { .. } => {},
        }
    }

    /// A probe is answered with our own address as a peer sees it.
    fn on_pong(&mut self, rid: u64, observed: SocketAddr)
        requires
            old(self).inv(),
        ensures
            final(self).inv(),
            final(self).past == old(self).past,
            final(self)@ == ponged(old(self)@, rid, observed),
    {
        if let Some(k) = find_probe(&self.probes, rid) {
            let _ = self.probes.remove(k);
            self.sampler.add(observed);
            assert(self@ =~= ponged(old(self)@, rid, observed));
        }
    }

    /// A peer asks for the nodes nearest to a target, and who announced there.
    fn on_find_node(&mut self, from: SocketAddr, rid: u64, target: NodeId)
        requires
            old(self).inv(),
        ensures
            final(self).inv(),
            final(self).past == old(self).past,
            final(self)@ == sent(
                old(self)@,
                from,
                rid,
                MessageView::Nodes {
                    contacts: nearest(old(self)@.table, target, K as nat),
                    peers: records(old(self)@, target),
                },
            ),
    {
        let contacts: Vec<Contact> = self.table.closest(&target, K);
        let peers: Vec<Contact> = self.announced_under(&target);
        self.send(from, rid, Message::Nodes { contacts, peers });
    }

    fn give_up(&mut self, rid: u64, now: Millis)
        requires
            old(self).inv(),
            now + REQUEST_TIMEOUT_MS <= u64::MAX,
        ensures
            final(self).inv(),
            final(self).past == old(self).past,
            final(self)@ == given_up(old(self)@, rid, now),
    {
        let k: usize = match find_pending(&self.pending, rid) {
            Some(k) => k,
            None => {
                return;
            },
        };
        let p: Pending = self.pending.remove(k);
        let _ = self.table.record_failure(&p.contact);
        let ghost d1 = self@;
        assert(d1 =~= (DhtView {
            pending: old(self)@.pending.remove(k as int),
            table: failed(old(self)@.table, p.contact).0,
            ..old(self)@
        }));
        if let Some(j) = find_query(&self.queries, p.query) {
            let ghost list = self.queries@;
            let ghost q = list[j as int];
            assert(views(list)[j as int] == q@);
            mark(&mut self.queries[j].contacts, &p.contact, Status::Failed);
            proof {
                let r = self.queries@[j as int];
                assert(self.queries@ =~= list.update(j as int, r));
                lemma_views_update(list, j as int, r);
                let want = QueryView {
                    contacts: marked(q@.contacts, p.contact, Status::Failed),
                    ..q@
                };
                assert(r@ =~= want);
                assert(self@ =~= (DhtView { queries: d1.queries.update(j as int, want), ..d1 }));
            }
        }
        self.drive_query(p.query, now);
    }

    fn cancel_connect_queries(&mut self, target: &NodeId)
        requires
            old(self).inv(),
        ensures
            final(self).inv(),
            final(self).past == old(self).past,
            final(self)@ == cancelled(old(self)@, *target),
    {
        let ghost d = self@;
        let ghost p = not_of_connect(d.queries, *target);
        let mut pending: Vec<Pending> = Vec::new();
        let mut i: usize = 0;
        while i < self.pending.len()
            invariant
                self.past == old(self).past,
                i <= self.pending.len(),
                self@ == d,
                self.inv(),
                p == not_of_connect(d.queries, *target),
                pending@ == kept(d.pending.take(i as int), p),
            decreases self.pending.len() - i,
        {
            proof {
                assert(d.pending.take(i + 1).drop_last() =~= d.pending.take(i as int));
                assert(d.pending.take(i + 1).last() == d.pending[i as int]);
            }
            let next: Pending = self.pending[i];
            if !self.is_connect_query(next.query, target) {
                pending.push(next);
            }
            i += 1;
        }
        assert(d.pending.take(d.pending.len() as int) =~= d.pending);
        self.pending = pending;
        let ghost q = not_connecting(*target);
        let ghost all = d.queries;
        let mut n: usize = 0;
        let mut k: usize = 0;
        let len: usize = self.queries.len();
        assert(all.take(0) =~= Seq::<QueryView>::empty());
        assert(views(self.queries@) =~= kept(all.take(0), q) + all.skip(0));
        while n < len
            invariant
                self.past == old(self).past,
                n <= len,
                len == all.len(),
                q == not_connecting(*target),
                k <= n,
                k == kept(all.take(n as int), q).len(),
                views(self.queries@) == kept(all.take(n as int), q) + all.skip(n as int),
                self.inv(),
                self.pending@ == kept(d.pending, p),
                self@ == (DhtView {
                    queries: views(self.queries@),
                    pending: kept(d.pending, p),
                    ..d
                }),
            decreases len - n,
        {
            let ghost before = self.queries@;
            proof {
                assert(all.take(n + 1).drop_last() =~= all.take(n as int));
                assert(all.take(n + 1).last() == all[n as int]);
                assert(views(before).len() == k + (len - n));
                assert(views(before)[k as int] == all[n as int]);
                assert(before.len() == views(before).len());
                assert(before[k as int]@ == all[n as int]);
            }
            let drop: bool = self.queries[k].kind == QueryKind::Connect && self.queries[k].target
                == *target;
            if drop {
                proof {
                    lemma_views_remove(before, k as int);
                    assert(views(before).remove(k as int) =~= kept(all.take(n + 1), q) + all.skip(
                        n + 1,
                    ));
                }
                let _ = self.queries.remove(k);
            } else {
                proof {
                    assert(kept(all.take(n as int), q) + all.skip(n as int) =~= kept(
                        all.take(n + 1),
                        q,
                    ) + all.skip(n + 1));
                }
                k += 1;
            }
            n += 1;
        }
        proof {
            assert(all.take(len as int) =~= all);
            assert(all.skip(len as int) =~= Seq::<QueryView>::empty());
            assert(views(self.queries@) =~= kept(all, q));
            assert(self@ =~= cancelled(d, *target));
        }
    }

    fn is_connect_query(&self, qid: u64, target: &NodeId) -> (r: bool)
        ensures
            r == is_connect(self@.queries, qid, *target),
    {
        let mut i: usize = 0;
        while i < self.queries.len()
            invariant
                i <= self.queries.len(),
                forall|j: int|
                    0 <= j < i ==> !(#[trigger] self@.queries[j].qid == qid
                        && self@.queries[j].kind == QueryKind::Connect && self@.queries[j].target
                        == *target),
            decreases self.queries.len() - i,
        {
            assert(self@.queries[i as int] == self.queries@[i as int]@);
            if self.queries[i].qid == qid && self.queries[i].kind == QueryKind::Connect
                && self.queries[i].target == *target {
                assert(self@.queries[i as int].qid == qid);
                return true;
            }
            i += 1;
        }
        false
    }

    fn time_out(&mut self, target: NodeId)
        requires
            old(self).inv(),
        ensures
            final(self).inv(),
            final(self).past == old(self).past,
            final(self)@ == timed_out(old(self)@, target),
    {
        self.disconnect(&target);
        self.cancel_connect_queries(&target);
        self.report(
            Event::Connected {
                target,
                outcome: ConnectOutcome::TimedOut,
                peer_data_addrs: Vec::new(),
                strategy: None,
            },
        );
    }

    fn expire_requests(&mut self, now: Millis)
        requires
            old(self).inv(),
            now + REQUEST_TIMEOUT_MS <= u64::MAX,
        ensures
            final(self).inv(),
            final(self).past == old(self).past,
            final(self)@ == all_given_up(
                old(self)@,
                kept(old(self)@.pending, due(now)),
                now,
            ),
    {
        let ghost d = self@;
        let mut expired: Vec<Pending> = Vec::new();
        let mut i: usize = 0;
        while i < self.pending.len()
            invariant
                self.past == old(self).past,
                i <= self.pending.len(),
                self@ == d,
                self.inv(),
                expired@ == kept(d.pending.take(i as int), due(now)),
            decreases self.pending.len() - i,
        {
            proof {
                assert(d.pending.take(i + 1).drop_last() =~= d.pending.take(i as int));
                assert(d.pending.take(i + 1).last() == d.pending[i as int]);
            }
            if self.pending[i].deadline <= now {
                expired.push(self.pending[i]);
            }
            i += 1;
        }
        assert(d.pending.take(d.pending.len() as int) =~= d.pending);
        let mut j: usize = 0;
        while j < expired.len()
            invariant
                self.past == old(self).past,
                j <= expired.len(),
                now + REQUEST_TIMEOUT_MS <= u64::MAX,
                self.inv(),
                self@ == all_given_up(d, expired@.take(j as int), now),
            decreases expired.len() - j,
        {
            proof {
                assert(expired@.take(j + 1).drop_last() =~= expired@.take(j as int));
                assert(expired@.take(j + 1).last() == expired@[j as int]);
            }
            self.give_up(expired[j].rid, now);
            j += 1;
        }
        assert(expired@.take(expired@.len() as int) =~= expired@);
    }

    fn expire_probes(&mut self, now: Millis)
        requires
            old(self).inv(),
        ensures
            final(self).inv(),
            final(self).past == old(self).past,
            final(self)@ == (DhtView {
                probes: kept(old(self)@.probes, live_probe(now)),
                ..old(self)@
            }),
    {
        let ghost d = self@;
        let mut live: Vec<Probe> = Vec::new();
        let mut i: usize = 0;
        while i < self.probes.len()
            invariant
                self.past == old(self).past,
                i <= self.probes.len(),
                self@ == d,
                self.inv(),
                live@ == kept(d.probes.take(i as int), live_probe(now)),
            decreases self.probes.len() - i,
        {
            proof {
                assert(d.probes.take(i + 1).drop_last() =~= d.probes.take(i as int));
                assert(d.probes.take(i + 1).last() == d.probes[i as int]);
            }
            if self.probes[i].deadline > now {
                live.push(self.probes[i]);
            }
            i += 1;
        }
        assert(d.probes.take(d.probes.len() as int) =~= d.probes);
        self.probes = live;
    }

    fn expire_incoming(&mut self, now: Millis)
        requires
            old(self).inv(),
        ensures
            final(self).inv(),
            final(self).past == old(self).past,
            final(self)@ == (DhtView {
                incoming: kept(old(self)@.incoming, live_incoming(now)),
                ..old(self)@
            }),
    {
        let ghost d = self@;
        let mut live: Vec<IncomingState> = Vec::new();
        let mut i: usize = 0;
        while i < self.incoming.len()
            invariant
                self.past == old(self).past,
                i <= self.incoming.len(),
                self@ == d,
                self.inv(),
                live@ == kept(d.incoming.take(i as int), live_incoming(now)),
            decreases self.incoming.len() - i,
        {
            proof {
                assert(d.incoming.take(i + 1).drop_last() =~= d.incoming.take(i as int));
                assert(d.incoming.take(i + 1).last() == d.incoming[i as int]);
            }
            if self.incoming[i].deadline > now {
                live.push(self.incoming[i]);
            }
            i += 1;
        }
        assert(d.incoming.take(d.incoming.len() as int) =~= d.incoming);
        self.incoming = live;
    }

    fn expire_connects(&mut self, now: Millis)
        requires
            old(self).inv(),
        ensures
            final(self).inv(),
            final(self).past == old(self).past,
            final(self)@ == all_timed_out(
                old(self)@,
                kept(old(self)@.connecting, stale(now)),
            ),
    {
        let ghost d = self@;
        let ghost mut gone: Seq<ConnectView> = Seq::empty();
        let mut targets: Vec<NodeId> = Vec::new();
        let mut i: usize = 0;
        while i < self.connecting.len()
            invariant
                self.past == old(self).past,
                i <= self.connecting.len(),
                self@ == d,
                self.inv(),
                gone == kept(d.connecting.take(i as int), stale(now)),
                targets@.len() == gone.len(),
                forall|j: int| 0 <= j < gone.len() ==> #[trigger] targets@[j] == gone[j].target,
            decreases self.connecting.len() - i,
        {
            proof {
                assert(d.connecting.take(i + 1).drop_last() =~= d.connecting.take(i as int));
                assert(d.connecting.take(i + 1).last() == d.connecting[i as int]);
                assert(d.connecting[i as int] == self.connecting@[i as int]@);
            }
            if self.connecting[i].deadline <= now {
                targets.push(self.connecting[i].target);
                proof {
                    gone = gone.push(d.connecting[i as int]);
                }
            }
            i += 1;
        }
        assert(d.connecting.take(d.connecting.len() as int) =~= d.connecting);
        let mut j: usize = 0;
        while j < targets.len()
            invariant
                self.past == old(self).past,
                j <= targets.len(),
                targets@.len() == gone.len(),
                forall|j: int| 0 <= j < gone.len() ==> #[trigger] targets@[j] == gone[j].target,
                self.inv(),
                self@ == all_timed_out(d, gone.take(j as int)),
            decreases targets.len() - j,
        {
            proof {
                assert(gone.take(j + 1).drop_last() =~= gone.take(j as int));
                assert(gone.take(j + 1).last() == gone[j as int]);
            }
            self.time_out(targets[j]);
            j += 1;
        }
        assert(gone.take(gone.len() as int) =~= gone);
    }

    /// Fire any timers whose deadline has passed.
    pub fn handle_timeout(&mut self, now: Millis)
        requires
            old(self).wf(),
            now + REQUEST_TIMEOUT_MS <= u64::MAX,
        ensures
            final(self).wf(),
            final(self).past() == and_then(
                old(self).past(),
                DhtCall::Timeout { now },
            ),
            final(self)@ == timers_fired(old(self)@, now),
            ids_lasted(final(self).past()) ==> forall|u: u64| #[trigger]
                timer_at(final(self)@, u) ==> u > now,
            ids_lasted(final(self).past()) && connects_singly(final(self).past())
                ==> all_reported_once(old(self)@, final(self)@, now),
    {
        self.expire_requests(now);
        self.expire_probes(now);
        self.expire_connects(now);
        self.expire_incoming(now);
        proof {
            lemma_timeout_call(old(self)@, now);
            if ids_lasted(and_then(old(self).past(), DhtCall::Timeout { now })) {
                lemma_timers_of_a_node(old(self).past(), now);
            }
        }
        self.record(Ghost(DhtCall::Timeout { now }));
    }

    /// A node is what its past has made of it.
    pub proof fn law_past_explains(&self)
        requires
            self.wf(),
        ensures
            self@ == lived(self.past()),
    {
    }

    /// While its ids last, a node has at most [`ALPHA`] requests of each query open, and no
    /// query of it has ever asked a contact twice.
    pub proof fn law_lookups(&self)
        requires
            self.wf(),
            ids_lasted(self.past()),
        ensures
            forall|qid: u64| (#[trigger] kept(self@.pending, of_query(qid))).len() <= ALPHA,
            all_asked(fresh_node(self.past().id), self.past().calls).no_duplicates(),
    {
        reveal(lived);
        law_lookups_over_a_history(self.past().id, self.past().calls);
    }

    /// The earliest deadline, if any request or connect is in flight.
    pub fn poll_timeout(&self) -> (r: Option<Millis>)
        ensures
            r == next_timer(self@),
            r is None ==> forall|u: u64| !#[trigger] timer_at(self@, u),
            r is Some ==> is_next_timer(self@, r->Some_0),
    {
        let ghost d = self@;
        let mut r: Option<u64> = None;
        let mut i: usize = 0;
        while i < self.pending.len()
            invariant
                d == self@,
                i <= self.pending.len(),
                r is Some ==> timer_at(d, r->Some_0),
                forall|j: int|
                    0 <= j < i ==> no_later(r, (#[trigger] d.pending[j]).deadline),
            decreases self.pending.len() - i,
        {
            assert(d.pending[i as int].deadline == self.pending@[i as int].deadline);
            r = earlier(r, self.pending[i].deadline);
            i += 1;
        }
        assert(i == d.pending.len());
        i = 0;
        while i < self.probes.len()
            invariant
                d == self@,
                i <= self.probes.len(),
                r is Some ==> timer_at(d, r->Some_0),
                forall|j: int|
                    0 <= j < d.pending.len() ==> no_later(r, (#[trigger] d.pending[j]).deadline),
                forall|j: int|
                    0 <= j < i ==> no_later(r, (#[trigger] d.probes[j]).deadline),
            decreases self.probes.len() - i,
        {
            assert(d.probes[i as int].deadline == self.probes@[i as int].deadline);
            r = earlier(r, self.probes[i].deadline);
            i += 1;
        }
        assert(i == d.probes.len());
        i = 0;
        while i < self.connecting.len()
            invariant
                d == self@,
                i <= self.connecting.len(),
                r is Some ==> timer_at(d, r->Some_0),
                forall|j: int|
                    0 <= j < d.pending.len() ==> no_later(r, (#[trigger] d.pending[j]).deadline),
                forall|j: int|
                    0 <= j < d.probes.len() ==> no_later(r, (#[trigger] d.probes[j]).deadline),
                forall|j: int|
                    0 <= j < i ==> no_later(r, (#[trigger] d.connecting[j]).deadline),
            decreases self.connecting.len() - i,
        {
            assert(d.connecting[i as int] == self.connecting@[i as int]@);
            assert(d.connecting[i as int].deadline == self.connecting@[i as int].deadline);
            r = earlier(r, self.connecting[i].deadline);
            i += 1;
        }
        assert(i == d.connecting.len());
        i = 0;
        while i < self.incoming.len()
            invariant
                d == self@,
                i <= self.incoming.len(),
                r is Some ==> timer_at(d, r->Some_0),
                forall|j: int|
                    0 <= j < d.pending.len() ==> no_later(r, (#[trigger] d.pending[j]).deadline),
                forall|j: int|
                    0 <= j < d.probes.len() ==> no_later(r, (#[trigger] d.probes[j]).deadline),
                forall|j: int|
                    0 <= j < d.connecting.len() ==> no_later(r, (#[trigger] d.connecting[j]).deadline),
                forall|j: int|
                    0 <= j < i ==> no_later(r, (#[trigger] d.incoming[j]).deadline),
            decreases self.incoming.len() - i,
        {
            assert(d.incoming[i as int].deadline == self.incoming@[i as int].deadline);
            r = earlier(r, self.incoming[i].deadline);
            i += 1;
        }
        proof {
            if r is Some {
                assert(is_next_timer(d, r->Some_0));
                let t = choose|t: u64| is_next_timer(d, t);
                assert(is_next_timer(d, t));
            } else {
                assert forall|u: u64| !#[trigger] timer_at(d, u) by {}
                assert(!(exists|t: u64| is_next_timer(d, t)));
            }
        }
        r
    }
}

/// Whether there is a deadline, no later than another.
spec fn no_later(a: Option<u64>, b: u64) -> bool {
    a is Some && a->Some_0 <= b
}

/// The earlier of two deadlines, the first of which may be none.
fn earlier(a: Option<u64>, b: u64) -> (r: Option<u64>)
    ensures
        r == (match a {
            Some(t) => if t <= b {
                Some(t)
            } else {
                Some(b)
            },
            None => Some(b),
        }),
{
    match a {
        Some(t) => if t <= b {
            Some(t)
        } else {
            Some(b)
        },
        None => Some(b),
    }
}

} // verus!
