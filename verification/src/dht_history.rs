//! What holds of a node over its whole history, from the moment it is new.
use crate::addr::SocketAddr;
use crate::dht::{
    accepted, advertised, all_added, all_given_up, all_timed_out, answered, cancelled,
    connect_begun, disconnected, driven, due, enriched, finished, fresh_node, from_coordinator,
    given_up, in_flight, input, is_connect, launched, listed, live_probe, marked, near, next_timer,
    not_connecting, not_of_connect, outcome_of, pinged, requested, sighted, stale, started,
    timed_out, timer_at, timers_fired, to_target, with_qid, with_rid, ConnectOutcome, ConnectView,
    DhtView, EventView, Pending, QueryContact, QueryKind, QueryView, Status, TransmitView, ALPHA,
    CONNECT_TIMEOUT_MS, REQUEST_TIMEOUT_MS,
};
use crate::dht_laws::{
    asks, connects, ended, endings, healthy, is_asked, is_awaited, is_looked_for, is_overdue,
    law_connect_keeps_health, law_due_connect_ends_once, law_input_keeps_health,
    law_input_keeps_ids_apart, law_new_node_is_healthy, law_no_timer_is_left_behind,
    law_replies_keep_health, law_start_keeps_health, law_starting_keeps_ids_apart,
    law_timers_keep_ids_apart, law_timers_leave_nothing_hanging, lemma_all_added,
    lemma_all_given_up, lemma_all_given_up_pending, lemma_all_timed_out, lemma_all_timed_out_ends,
    lemma_disconnected, lemma_endings_push, lemma_finished_ends, lemma_finished_queries,
    lemma_kept_one_each, lemma_launched, lemma_launched_asks, lemma_launches_none,
    lemma_lookups_remove, lemma_lookups_update, lemma_marked, lemma_pinged, lemma_registered,
    lemma_requested, looked_for_once, lookup_ok, lookups_ok, nearest_first, one_each, report_ok,
    rids_ok, sorted_to, was_asked,
};
use crate::firewall::Firewall;
use crate::id::{dist, NodeId};
use crate::lists::{first, kept, lemma_first, lemma_kept};
use crate::msg::{packet_bytes, read_packet, MessageView, PacketView};
use crate::punch::planned;
use crate::routing::{admitted, nearest, Contact, K};
use vstd::prelude::*;

verus! {

/// Something a node is told or asked.
pub enum DhtCall {
    /// A contact is seeded.
    AddContact(Contact),
    /// A reachability probe succeeded or failed.
    NoteReachable(bool),
    /// The firewall type is set.
    SetFirewall(Firewall),
    /// A query of a kind other than a connect is started.
    Start {
        /// The target or topic.
        target: NodeId,
        /// The kind.
        kind: QueryKind,
        /// The time.
        now: u64,
    },
    /// A connect is started.
    Connect {
        /// The peer.
        target: NodeId,
        /// Our own candidate addresses.
        data_addrs: Seq<SocketAddr>,
        /// The time.
        now: u64,
    },
    /// An incoming connect is accepted.
    Accept {
        /// The peer.
        initiator: NodeId,
        /// Our own candidate addresses.
        data_addrs: Seq<SocketAddr>,
        /// The time.
        now: u64,
    },
    /// Peers are probed for our own address.
    Sample {
        /// How many.
        count: nat,
        /// The time.
        now: u64,
    },
    /// A datagram arrives.
    Input {
        /// The sender.
        from: SocketAddr,
        /// The bytes.
        data: Seq<u8>,
        /// The time.
        now: u64,
    },
    /// The timers fire.
    Timeout {
        /// The time.
        now: u64,
    },
    /// The next packet is taken.
    PollTransmit,
    /// The next event is taken.
    PollEvent,
}

/// A node after a contact is seeded.
#[verifier::opaque]
pub open spec fn after_contact(d: DhtView, contact: Contact) -> DhtView {
    DhtView { table: admitted(d.table, contact).0, ..d }
}

/// A node after a query is started.
#[verifier::opaque]
pub open spec fn after_start(d: DhtView, target: NodeId, kind: QueryKind, now: u64) -> DhtView {
    started(d, target, kind, now)
}

/// A node after a connect is started.
#[verifier::opaque]
pub open spec fn after_connect(
    d: DhtView,
    target: NodeId,
    data_addrs: Seq<SocketAddr>,
    now: u64,
) -> DhtView {
    connect_begun(d, target, data_addrs, now)
}

/// A node after an incoming connect is accepted.
#[verifier::opaque]
pub open spec fn after_accept(
    d: DhtView,
    initiator: NodeId,
    data_addrs: Seq<SocketAddr>,
    now: u64,
) -> DhtView {
    accepted(d, initiator, data_addrs, now)
}

/// A node after peers are probed for its own address.
#[verifier::opaque]
pub open spec fn after_sample(d: DhtView, count: nat, now: u64) -> DhtView {
    pinged(d, nearest(d.table, d.id, count), now)
}

/// A node after a datagram arrives.
#[verifier::opaque]
pub open spec fn after_input(d: DhtView, from: SocketAddr, data: Seq<u8>, now: u64) -> DhtView {
    input(d, from, data, now)
}

/// A node after the timers fire.
#[verifier::opaque]
pub open spec fn after_timeout(d: DhtView, now: u64) -> DhtView {
    timers_fired(d, now)
}

/// A node after a call.
pub open spec fn after_call(d: DhtView, c: DhtCall) -> DhtView {
    match c {
        DhtCall::AddContact(contact) => after_contact(d, contact),
        DhtCall::NoteReachable(reachable) => DhtView { reachable, ..d },
        DhtCall::SetFirewall(f) => DhtView { local_firewall: f, ..d },
        DhtCall::Start { target, kind, now } => after_start(d, target, kind, now),
        DhtCall::Connect { target, data_addrs, now } => after_connect(d, target, data_addrs, now),
        DhtCall::Accept { initiator, data_addrs, now } => after_accept(d, initiator, data_addrs, now),
        DhtCall::Sample { count, now } => after_sample(d, count, now),
        DhtCall::Input { from, data, now } => after_input(d, from, data, now),
        DhtCall::Timeout { now } => after_timeout(d, now),
        DhtCall::PollTransmit => if d.outbox.len() > 0 {
            DhtView { outbox: d.outbox.skip(1), ..d }
        } else {
            d
        },
        DhtCall::PollEvent => if d.events.len() > 0 {
            DhtView { events: d.events.skip(1), ..d }
        } else {
            d
        },
    }
}

/// A node after its calls, one after the other.
pub open spec fn after_calls(d: DhtView, calls: Seq<DhtCall>) -> DhtView
    decreases calls.len(),
{
    if calls.len() == 0 {
        d
    } else {
        after_call(after_calls(d, calls.drop_last()), calls.last())
    }
}

/// What a node has been told and asked, from the moment it was new.
#[verifier::ext_equal]
pub struct Past {
    /// The node's id.
    pub id: NodeId,
    /// The calls, in order.
    pub calls: Seq<DhtCall>,
}

/// What a past has made of a node.
#[verifier::opaque]
pub open spec fn lived(p: Past) -> DhtView {
    after_calls(fresh_node(p.id), p.calls)
}

/// A past and one more call.
pub open spec fn and_then(p: Past, c: DhtCall) -> Past {
    Past { calls: p.calls.push(c), ..p }
}

/// What one more call makes of a node.
pub proof fn lemma_lived(p: Past, c: DhtCall)
    ensures
        lived(and_then(p, c)) == after_call(lived(p), c),
{
    reveal(lived);
    assert(p.calls.push(c).drop_last() =~= p.calls);
}

/// What a new node is.
pub proof fn lemma_new_life(id: NodeId)
    ensures
        lived(Past { id, calls: Seq::empty() }) == fresh_node(id),
{
    reveal(lived);
}

/// Whether a node had ids to spare for each call of its past.
pub open spec fn ids_lasted(p: Past) -> bool {
    all_have_room(fresh_node(p.id), p.calls)
}

/// Whether no connect was started to a peer while an earlier one was unresolved.
pub open spec fn connects_singly(p: Past) -> bool {
    no_second_connects(fresh_node(p.id), p.calls)
}

/// Whether every connect that was due is over, and reported exactly once.
pub open spec fn all_reported_once(before: DhtView, after: DhtView, now: u64) -> bool {
    forall|t: NodeId| #[trigger]
        is_overdue(before.connecting, t, now) ==> !is_awaited(after.connecting, t)
            && is_reported_once(before, after, t)
}

/// Whether the contacts that a lookup reports are at most a bucket's, nearest first, and
/// have all answered it.
pub open spec fn is_true_report(e: EventView, p: Past) -> bool {
    e matches EventView::QueryFinished { query, target, closest } ==> {
        &&& closest.len() <= K
        &&& sorted_to(closest, target)
        &&& forall|j: int|
            0 <= j < closest.len() ==> all_answered(fresh_node(p.id), p.calls).contains(
                (query, (#[trigger] closest[j]).id),
            )
    }
}

/// Whether a node has ids to spare for what a call may need, and the call's deadlines
/// can be told.
pub open spec fn has_room(d: DhtView, c: DhtCall) -> bool {
    &&& d.next_rid + K * (d.pending.len() + 1) <= u64::MAX
    &&& d.next_qid < u64::MAX
    &&& match c {
        DhtCall::Start { kind, now, .. } => kind != QueryKind::Connect && now + REQUEST_TIMEOUT_MS
            <= u64::MAX,
        DhtCall::Connect { now, .. } => now + CONNECT_TIMEOUT_MS <= u64::MAX,
        DhtCall::Sample { count, now } => d.next_rid + nearest(d.table, d.id, count).len()
            <= u64::MAX && now + REQUEST_TIMEOUT_MS <= u64::MAX,
        DhtCall::Input { now, .. } => now + CONNECT_TIMEOUT_MS <= u64::MAX,
        DhtCall::Timeout { now } => now + REQUEST_TIMEOUT_MS <= u64::MAX,
        _ => true,
    }
}

/// Whether a node has room for each call of a history.
pub open spec fn all_have_room(d: DhtView, calls: Seq<DhtCall>) -> bool
    decreases calls.len(),
{
    calls.len() > 0 ==> all_have_room(d, calls.drop_last()) && has_room(
        after_calls(d, calls.drop_last()),
        calls.last(),
    )
}

/// A request for nodes: the query that made it, and the contact it went to.
pub type Asking = (u64, NodeId);

/// The requests of a query to contacts.
pub open spec fn askings(qid: u64, out: Seq<Contact>) -> Seq<Asking> {
    Seq::new(out.len(), |i: int| (qid, out[i].id))
}

/// The requests made when a query moves on.
pub open spec fn asked_moving_on(d: DhtView, qid: u64) -> Seq<Asking> {
    match first(d.queries, with_qid(qid)) {
        Some(k) => {
            let s = d.queries[k].contacts;
            askings(qid, launched(s, 0, in_flight(s)).1)
        },
        None => Seq::empty(),
    }
}

/// A node whose `k`-th request has failed, before its query moves on.
pub open spec fn with_failure(d: DhtView, k: int) -> DhtView {
    let p = d.pending[k];
    let d1 = DhtView {
        pending: d.pending.remove(k),
        table: crate::routing::failed(d.table, p.contact).0,
        ..d
    };
    match first(d1.queries, with_qid(p.query)) {
        Some(j) => DhtView {
            queries: d1.queries.update(
                j,
                QueryView {
                    contacts: marked(d1.queries[j].contacts, p.contact, Status::Failed),
                    ..d1.queries[j]
                },
            ),
            ..d1
        },
        None => d1,
    }
}

/// The requests made when requests are given up.
pub open spec fn asked_giving_up(d: DhtView, due: Seq<Pending>, now: u64) -> Seq<Asking>
    decreases due.len(),
{
    if due.len() == 0 {
        Seq::empty()
    } else {
        let e = all_given_up(d, due.drop_last(), now);
        asked_giving_up(d, due.drop_last(), now) + match first(
            e.pending,
            with_rid(due.last().rid),
        ) {
            Some(k) => asked_moving_on(with_failure(e, k), e.pending[k].query),
            None => Seq::empty(),
        }
    }
}

/// A node with a new query, before it moves on.
pub open spec fn with_query(d: DhtView, target: NodeId, kind: QueryKind) -> DhtView {
    let q = QueryView {
        qid: d.next_qid,
        target,
        kind,
        contacts: all_added(Seq::empty(), nearest(d.table, target, K as nat), target, None),
        coordinators: Seq::empty(),
        peers: Seq::empty(),
    };
    DhtView { queries: d.queries.push(q), next_qid: d.next_qid.wrapping_add(1), ..d }
}

/// A node with a connect that awaits its peer, before it is looked for.
pub open spec fn with_connect(
    d: DhtView,
    target: NodeId,
    data_addrs: Seq<SocketAddr>,
    now: u64,
) -> DhtView {
    let c = ConnectView {
        target,
        deadline: (now + CONNECT_TIMEOUT_MS) as u64,
        coordinator: None,
        data_addrs,
    };
    DhtView {
        connecting: match first(d.connecting, to_target(target)) {
            Some(k) => d.connecting.update(k, c),
            None => d.connecting.push(c),
        },
        ..d
    }
}

/// A node that has taken in the answer to its `k`-th request, before the query moves
/// on.
pub open spec fn with_answer(
    d: DhtView,
    k: int,
    responder: Contact,
    contacts: Seq<Contact>,
    peers: Seq<Contact>,
) -> DhtView {
    let p = d.pending[k];
    let d1 = DhtView { pending: d.pending.remove(k), ..d };
    match first(d1.queries, with_qid(p.query)) {
        Some(j) => DhtView {
            queries: d1.queries.update(
                j,
                enriched(d1.queries[j], d.id, p.contact, responder, contacts, peers),
            ),
            ..d1
        },
        None => d1,
    }
}

/// The request that a datagram answers: its place among those that await an answer.
pub open spec fn answers(d: DhtView, data: Seq<u8>) -> Option<int> {
    match read_packet(data) {
        Ok(p) => if p.msg is Nodes {
            first(d.pending, with_rid(p.rid))
        } else {
            None
        },
        Err(_) => None,
    }
}

/// The requests for nodes that a call makes.
pub open spec fn asked_in(d: DhtView, c: DhtCall) -> Seq<Asking> {
    match c {
        DhtCall::Start { target, kind, .. } => asked_moving_on(
            with_query(d, target, kind),
            d.next_qid,
        ),
        DhtCall::Connect { target, data_addrs, now } => asked_moving_on(
            with_query(with_connect(d, target, data_addrs, now), target, QueryKind::Connect),
            d.next_qid,
        ),
        DhtCall::Input { from, data, now } => match read_packet(data) {
            Ok(p) => match (p.msg, answers(d, data)) {
                (MessageView::Nodes { contacts, peers }, Some(k)) => asked_moving_on(
                    with_answer(
                        sighted(d, from, p),
                        k,
                        Contact { id: p.sender, addr: from },
                        contacts,
                        peers,
                    ),
                    d.pending[k].query,
                ),
                _ => Seq::empty(),
            },
            Err(_) => Seq::empty(),
        },
        DhtCall::Timeout { now } => asked_giving_up(d, kept(d.pending, due(now)), now),
        _ => Seq::empty(),
    }
}

/// The requests for nodes that a call answers.
pub open spec fn answered_in(d: DhtView, c: DhtCall) -> Seq<Asking> {
    match c {
        DhtCall::Input { data, .. } => match answers(d, data) {
            Some(k) => seq![(d.pending[k].query, d.pending[k].contact)],
            None => Seq::empty(),
        },
        _ => Seq::empty(),
    }
}

/// The requests for nodes that a history made, in order.
pub open spec fn all_asked(d: DhtView, calls: Seq<DhtCall>) -> Seq<Asking>
    decreases calls.len(),
{
    if calls.len() == 0 {
        Seq::empty()
    } else {
        all_asked(d, calls.drop_last()) + asked_in(after_calls(d, calls.drop_last()), calls.last())
    }
}

/// The requests for nodes that were answered in a history, in order.
pub open spec fn all_answered(d: DhtView, calls: Seq<DhtCall>) -> Seq<Asking>
    decreases calls.len(),
{
    if calls.len() == 0 {
        Seq::empty()
    } else {
        all_answered(d, calls.drop_last()) + answered_in(
            after_calls(d, calls.drop_last()),
            calls.last(),
        )
    }
}

/// The packets that ask contacts for the nodes nearest to a target, from a request id
/// on.
pub open spec fn requests_to(me: NodeId, target: NodeId, rid: u64, out: Seq<Contact>) -> Seq<
    TransmitView,
> {
    Seq::new(
        out.len(),
        |i: int|
            TransmitView {
                to: out[i].addr,
                data: packet_bytes(
                    PacketView {
                        sender: me,
                        rid: (rid + i) as u64,
                        msg: MessageView::FindNode { target },
                    },
                ),
            },
    )
}

/// The entries for requests that await an answer, from a request id on.
pub open spec fn entries_for(qid: u64, rid: u64, now: u64, out: Seq<Contact>) -> Seq<Pending> {
    Seq::new(
        out.len(),
        |i: int|
            Pending {
                rid: (rid + i) as u64,
                query: qid,
                contact: out[i].id,
                deadline: (now + REQUEST_TIMEOUT_MS) as u64,
            },
    )
}

/// Asking contacts sends each a request for nodes, and awaits an answer to each.
pub proof fn law_each_asking_is_sent(
    d: DhtView,
    qid: u64,
    target: NodeId,
    now: u64,
    out: Seq<Contact>,
)
    requires
        d.next_rid + out.len() <= u64::MAX,
    ensures
        ({
            let r = requested(d, qid, target, now, out);
            &&& r.outbox == d.outbox + requests_to(d.id, target, d.next_rid, out)
            &&& r.pending == d.pending + entries_for(qid, d.next_rid, now, out)
            &&& r.next_rid == d.next_rid + out.len()
        }),
    decreases out.len(),
{
    let r = requested(d, qid, target, now, out);
    lemma_requested(d, qid, target, now, out);
    if out.len() == 0 {
        assert(r.outbox =~= d.outbox + requests_to(d.id, target, d.next_rid, out));
        assert(r.pending =~= d.pending + entries_for(qid, d.next_rid, now, out));
    } else {
        let rest = out.drop_last();
        law_each_asking_is_sent(d, qid, target, now, rest);
        lemma_requested(d, qid, target, now, rest);
        assert(r.outbox =~= d.outbox + requests_to(d.id, target, d.next_rid, out));
        assert(r.pending =~= d.pending + entries_for(qid, d.next_rid, now, out));
    }
}

/// Whether a shortlist has a contact in a status.
pub open spec fn has_status(s: Seq<QueryContact>, id: NodeId, status: Status) -> bool {
    exists|i: int| 0 <= i < s.len() && (#[trigger] s[i]).contact.id == id && s[i].status == status
}

/// Whether queries have different ids, below the next one.
pub open spec fn qids_ok(d: DhtView) -> bool {
    &&& forall|i: int| 0 <= i < d.queries.len() ==> (#[trigger] d.queries[i]).qid < d.next_qid
    &&& forall|i: int, j: int|
        0 <= i < j < d.queries.len() ==> (#[trigger] d.queries[i]).qid != (
        #[trigger] d.queries[j]).qid
}

/// Whether a request is one that a query has in flight.
pub open spec fn is_open(queries: Seq<QueryView>, p: Pending) -> bool {
    exists|j: int|
        0 <= j < queries.len() && (#[trigger] queries[j]).qid == p.query && has_status(
            queries[j].contacts,
            p.contact,
            Status::InFlight,
        )
}

/// Whether the requests that await an answer are those that queries have in flight, and
/// no query has two to one contact.
pub open spec fn requests_ok(d: DhtView) -> bool {
    &&& forall|i: int| 0 <= i < d.pending.len() ==> is_open(d.queries, #[trigger] d.pending[i])
    &&& forall|i: int, j: int|
        0 <= i < j < d.pending.len() ==> !same_asking(
            #[trigger] d.pending[i],
            #[trigger] d.pending[j],
        )
}

/// Whether two requests are of one query to one contact.
pub open spec fn same_asking(a: Pending, b: Pending) -> bool {
    a.query == b.query && a.contact == b.contact
}

/// Whether a query knows of its requests in a list that it has asked them.
pub open spec fn knows_asked(queries: Seq<QueryView>, asked: Seq<Asking>) -> bool {
    forall|i: int, j: int|
        0 <= i < queries.len() && 0 <= j < asked.len() && (#[trigger] queries[i]).qid == (
        #[trigger] asked[j]).0 ==> was_asked(queries[i].contacts, asked[j].1)
}

/// Whether the requests in a list are each there once, and known to their queries.
pub open spec fn asked_ok(d: DhtView, asked: Seq<Asking>) -> bool {
    &&& forall|j: int| 0 <= j < asked.len() ==> (#[trigger] asked[j]).0 < d.next_qid
    &&& knows_asked(d.queries, asked)
    &&& asked.no_duplicates()
}

/// Whether contacts that a query counts as having answered did.
pub open spec fn done_answered(q: QueryView, answers: Seq<Asking>) -> bool {
    forall|i: int|
        0 <= i < q.contacts.len() && (#[trigger] q.contacts[i]).status == Status::Done
            ==> answers.contains((q.qid, q.contacts[i].contact.id))
}

/// Whether the contacts that a lookup reported have answered it.
pub open spec fn report_answered(e: EventView, answers: Seq<Asking>) -> bool {
    e matches EventView::QueryFinished { query, closest, .. } ==> forall|i: int|
        0 <= i < closest.len() ==> answers.contains((query, (#[trigger] closest[i]).id))
}

/// Whether every contact counted or reported as having answered did.
pub open spec fn answers_ok(d: DhtView, answers: Seq<Asking>) -> bool {
    &&& forall|i: int| 0 <= i < d.queries.len() ==> done_answered(#[trigger] d.queries[i], answers)
    &&& forall|i: int| 0 <= i < d.events.len() ==> report_answered(#[trigger] d.events[i], answers)
}

/// What holds of a node's lookups at every moment, given the requests that were made and
/// those that were answered.
#[verifier::opaque]
pub open spec fn lookups_sound(d: DhtView, asked: Seq<Asking>, answers: Seq<Asking>) -> bool {
    &&& lookups_ok(d.queries)
    &&& qids_ok(d)
    &&& requests_ok(d)
    &&& asked_ok(d, asked)
    &&& answers_ok(d, answers)
}

/// Two contacts of a shortlist with one id are one.
proof fn lemma_one_place(s: Seq<QueryContact>, target: NodeId, i: int, j: int)
    requires
        nearest_first(s, target),
        0 <= i < s.len(),
        0 <= j < s.len(),
        s[i].contact.id == s[j].contact.id,
    ensures
        i == j,
{
    if i < j {
        assert(dist(s[i].contact.id, target) < dist(s[j].contact.id, target));
    } else if j < i {
        assert(dist(s[j].contact.id, target) < dist(s[i].contact.id, target));
    }
}

/// Two queries with one id are one.
proof fn lemma_one_query(d: DhtView, i: int, j: int)
    requires
        qids_ok(d),
        0 <= i < d.queries.len(),
        0 <= j < d.queries.len(),
        d.queries[i].qid == d.queries[j].qid,
    ensures
        i == j,
{
    if i < j {
        assert(d.queries[i].qid != d.queries[j].qid);
    } else if j < i {
        assert(d.queries[j].qid != d.queries[i].qid);
    }
}

/// Asking contacts changes a status only from fresh to in flight.
proof fn lemma_launched_each(s: Seq<QueryContact>, i: nat, flying: nat)
    ensures
        launched(s, i, flying).0.len() == s.len(),
        forall|j: int|
            0 <= j < s.len() ==> (#[trigger] launched(s, i, flying).0[j]) == s[j] || (s[j].status
                == Status::Fresh && launched(s, i, flying).0[j] == (QueryContact {
                status: Status::InFlight,
                ..s[j]
            })),
    decreases K - i,
{
    if i >= s.len() || i >= K || flying >= ALPHA {
    } else if s[i as int].status == Status::Fresh {
        let next = s.update(
            i as int,
            QueryContact { status: Status::InFlight, ..s[i as int] },
        );
        lemma_launched_each(next, i + 1, flying + 1);
        let r = launched(next, i + 1, flying + 1).0;
        assert forall|j: int| 0 <= j < s.len() implies (#[trigger] r[j]) == s[j] || (s[j].status
            == Status::Fresh && r[j] == (QueryContact { status: Status::InFlight, ..s[j] })) by {
            assert(r[j] == next[j] || (next[j].status == Status::Fresh && r[j] == (QueryContact {
                status: Status::InFlight,
                ..next[j]
            })));
        }
    } else {
        lemma_launched_each(s, i + 1, flying);
    }
}

/// A contact in flight counts.
proof fn lemma_in_flight_some(s: Seq<QueryContact>, i: int)
    requires
        0 <= i < s.len(),
        s[i].status == Status::InFlight,
    ensures
        in_flight(s) >= 1,
    decreases s.len(),
{
    if i < s.len() - 1 {
        assert(s.drop_last()[i] == s[i]);
        lemma_in_flight_some(s.drop_last(), i);
    } else {
        assert(s.last() == s[i]);
    }
}

/// What a query that is replaced by one with the same id leaves open.
proof fn lemma_open_update(
    d: DhtView,
    k: int,
    r: QueryView,
    p: Pending,
)
    requires
        qids_ok(d),
        0 <= k < d.queries.len(),
        r.qid == d.queries[k].qid,
        is_open(d.queries, p),
        p.query == r.qid && has_status(d.queries[k].contacts, p.contact, Status::InFlight)
            ==> has_status(r.contacts, p.contact, Status::InFlight),
    ensures
        is_open(d.queries.update(k, r), p),
{
    let j = choose|j: int|
        0 <= j < d.queries.len() && (#[trigger] d.queries[j]).qid == p.query && has_status(
            d.queries[j].contacts,
            p.contact,
            Status::InFlight,
        );
    let u = d.queries.update(k, r);
    if d.queries[j].qid == r.qid {
        lemma_one_query(d, j, k);
        assert(u[k].qid == p.query);
    } else {
        assert(u[j] == d.queries[j]);
    }
}

/// A query that makes requests: nothing else about the node's lookups changes.
proof fn lemma_requests_sound(
    d: DhtView,
    k: int,
    now: u64,
    asked: Seq<Asking>,
    answers: Seq<Asking>,
)
    requires
        lookups_sound(d, asked, answers),
        0 <= k < d.queries.len(),
        d.next_rid + K <= u64::MAX,
    ensures
        ({
            let q = d.queries[k];
            let (contacts, out) = launched(q.contacts, 0, in_flight(q.contacts));
            let r = requested(
                DhtView { queries: d.queries.update(k, QueryView { contacts, ..q }), ..d },
                q.qid,
                q.target,
                now,
                out,
            );
            lookups_sound(r, asked + askings(q.qid, out), answers)
        }),
{
    reveal(lookups_sound);
    let q = d.queries[k];
    assert(lookup_ok(q));
    let s = q.contacts;
    let flying = in_flight(s);
    let (contacts, out) = launched(s, 0, flying);
    let new = QueryView { contacts, ..q };
    let e = DhtView { queries: d.queries.update(k, new), ..d };
    let r = requested(e, q.qid, q.target, now, out);
    lemma_launched(s, 0, flying);
    lemma_launched_each(s, 0, flying);
    lemma_launched_asks(s, 0, flying, q.target);
    lemma_requested(e, q.qid, q.target, now, out);
    law_each_asking_is_sent(e, q.qid, q.target, now, out);
    let more = entries_for(q.qid, d.next_rid, now, out);
    assert(r.queries == e.queries && r.events == d.events && r.next_qid == d.next_qid);
    // The shortlist stays in order.
    assert(lookup_ok(new)) by {
        assert forall|i: int, j: int| 0 <= i < j < contacts.len() implies dist(
            (#[trigger] contacts[i]).contact.id,
            q.target,
        ) < dist((#[trigger] contacts[j]).contact.id, q.target) by {
            assert(dist(s[i].contact.id, q.target) < dist(s[j].contact.id, q.target));
        }
    }
    assert(lookups_ok(r.queries));
    assert(qids_ok(r)) by {
        assert forall|i: int| 0 <= i < r.queries.len() implies (#[trigger] r.queries[i]).qid
            == d.queries[i].qid by {}
        assert forall|i: int, j: int| 0 <= i < j < r.queries.len() implies (
        #[trigger] r.queries[i]).qid != (#[trigger] r.queries[j]).qid by {
            assert(d.queries[i].qid != d.queries[j].qid);
        }
    }
    assert forall|m: int| 0 <= m < out.len() implies has_status(
        contacts,
        (#[trigger] out[m]).id,
        Status::InFlight,
    ) && !was_asked(s, out[m].id) by {
        let c = out[m];
        assert(is_asked(s, contacts, 0, c));
        let j = choose|j: int| asks(s, contacts, 0, c, j);
        assert(contacts[j].contact.id == c.id);
        if was_asked(s, c.id) {
            let i = choose|i: int|
                0 <= i < s.len() && (#[trigger] s[i]).contact.id == c.id && s[i].status
                    != Status::Fresh;
            lemma_one_place(s, q.target, i, j);
        }
    }
    assert(requests_ok(r)) by {
        assert forall|i: int| 0 <= i < r.pending.len() implies is_open(
            r.queries,
            #[trigger] r.pending[i],
        ) by {
            let p = r.pending[i];
            if i < d.pending.len() {
                assert(p == d.pending[i]);
                if p.query == q.qid && has_status(s, p.contact, Status::InFlight) {
                    let a = choose|a: int|
                        0 <= a < s.len() && (#[trigger] s[a]).contact.id == p.contact && s[a].status
                            == Status::InFlight;
                    assert(contacts[a] == s[a]);
                }
                lemma_open_update(d, k, new, p);
            } else {
                let m = i - d.pending.len();
                assert(p == more[m]);
                assert(has_status(contacts, out[m].id, Status::InFlight));
                assert(r.queries[k].qid == p.query);
            }
        }
        assert forall|i: int, j: int| 0 <= i < j < r.pending.len() implies !same_asking(
            #[trigger] r.pending[i],
            #[trigger] r.pending[j],
        ) by {
            if j < d.pending.len() {
                assert(r.pending[i] == d.pending[i] && r.pending[j] == d.pending[j]);
            } else {
                let m = j - d.pending.len();
                assert(r.pending[j] == more[m]);
                if i < d.pending.len() {
                    let p = d.pending[i];
                    assert(r.pending[i] == p);
                    if same_asking(p, more[m]) {
                        assert(is_open(d.queries, p));
                        let a = choose|a: int|
                            0 <= a < d.queries.len() && (#[trigger] d.queries[a]).qid == p.query
                                && has_status(d.queries[a].contacts, p.contact, Status::InFlight);
                        lemma_one_query(d, a, k);
                        let b = choose|b: int|
                            0 <= b < s.len() && (#[trigger] s[b]).contact.id == p.contact
                                && s[b].status == Status::InFlight;
                        assert(was_asked(s, out[m].id)) by {
                            assert(s[b].contact.id == out[m].id);
                        }
                    }
                } else {
                    let l = i - d.pending.len();
                    assert(r.pending[i] == more[l]);
                    assert(dist(out[l].id, q.target) < dist(out[m].id, q.target));
                }
            }
        }
    }
    let now_asked = asked + askings(q.qid, out);
    assert(asked_ok(r, now_asked)) by {
        assert forall|i: int, j: int|
            0 <= i < r.queries.len() && 0 <= j < now_asked.len() && (#[trigger] r.queries[i]).qid
                == (#[trigger] now_asked[j]).0 implies was_asked(
            r.queries[i].contacts,
            now_asked[j].1,
        ) by {
            if j < asked.len() {
                assert(now_asked[j] == asked[j]);
                assert(d.queries[i].qid == asked[j].0);
                assert(was_asked(d.queries[i].contacts, asked[j].1));
                if i == k {
                    let a = choose|a: int|
                        0 <= a < s.len() && (#[trigger] s[a]).contact.id == asked[j].1 && s[a].status
                            != Status::Fresh;
                    assert(contacts[a] == s[a]);
                }
            } else {
                let m = j - asked.len();
                assert(now_asked[j] == askings(q.qid, out)[m]);
                assert(d.queries[i].qid == d.queries[k].qid);
                lemma_one_query(d, i, k);
                assert(has_status(contacts, out[m].id, Status::InFlight));
                let a = choose|a: int|
                    0 <= a < contacts.len() && (#[trigger] contacts[a]).contact.id == out[m].id
                        && contacts[a].status == Status::InFlight;
                assert(contacts[a].status != Status::Fresh);
            }
        }
        assert forall|i: int, j: int|
            0 <= i < now_asked.len() && 0 <= j < now_asked.len() && i != j implies now_asked[i]
            != now_asked[j] by {
            let (a, b) = if i < j {
                (i, j)
            } else {
                (j, i)
            };
            if b >= asked.len() {
                let m = b - asked.len();
                assert(now_asked[b] == (q.qid, out[m].id));
                if a < asked.len() {
                    assert(now_asked[a] == asked[a]);
                    if asked[a] == (q.qid, out[m].id) {
                        assert(d.queries[k].qid == asked[a].0);
                        assert(was_asked(s, asked[a].1));
                    }
                } else {
                    let l = a - asked.len();
                    assert(now_asked[a] == (q.qid, out[l].id));
                    assert(dist(out[l].id, q.target) < dist(out[m].id, q.target));
                }
            } else {
                assert(asked[a] != asked[b]);
            }
        }
    }
    assert(answers_ok(r, answers)) by {
        assert forall|i: int| 0 <= i < r.queries.len() implies done_answered(
            #[trigger] r.queries[i],
            answers,
        ) by {
            assert(done_answered(d.queries[i], answers));
            if i == k {
                assert forall|a: int| 0 <= a < contacts.len() && (#[trigger] contacts[a]).status
                    == Status::Done implies answers.contains((q.qid, contacts[a].contact.id)) by {
                    assert(contacts[a] == s[a]);
                }
            }
        }
    }
}

/// A query that ends: nothing else about the node's lookups changes.
proof fn lemma_ending_sound(d: DhtView, k: int, asked: Seq<Asking>, answers: Seq<Asking>)
    requires
        lookups_sound(d, asked, answers),
        0 <= k < d.queries.len(),
        in_flight(d.queries[k].contacts) == 0,
    ensures
        ({
            let q = d.queries[k];
            let r = finished(
                DhtView { queries: d.queries.remove(k), ..d },
                q,
                answered(q.contacts, near(q.contacts)),
            );
            lookups_sound(r, asked, answers)
        }),
{
    reveal(lookups_sound);
    let q = d.queries[k];
    let e = DhtView { queries: d.queries.remove(k), ..d };
    let closest = answered(q.contacts, near(q.contacts));
    let r = finished(e, q, closest);
    assert(lookup_ok(q));
    lemma_registered(e, q.target, closest);
    assert(r.queries == e.queries && r.pending == d.pending && r.next_qid == d.next_qid);
    assert forall|i: int| 0 <= i < r.queries.len() implies (#[trigger] r.queries[i])
        == d.queries[if i < k {
        i
    } else {
        i + 1
    }] by {}
    assert(lookups_ok(r.queries)) by {
        assert forall|i: int| 0 <= i < r.queries.len() implies lookup_ok(
            #[trigger] r.queries[i],
        ) by {}
    }
    assert(qids_ok(r)) by {
        assert forall|i: int, j: int| 0 <= i < j < r.queries.len() implies (
        #[trigger] r.queries[i]).qid != (#[trigger] r.queries[j]).qid by {
            let i2 = if i < k {
                i
            } else {
                i + 1
            };
            let j2 = if j < k {
                j
            } else {
                j + 1
            };
            assert(d.queries[i2].qid != d.queries[j2].qid);
        }
    }
    assert(requests_ok(r)) by {
        assert forall|i: int| 0 <= i < r.pending.len() implies is_open(
            r.queries,
            #[trigger] r.pending[i],
        ) by {
            let p = d.pending[i];
            assert(is_open(d.queries, p));
            let j = choose|j: int|
                0 <= j < d.queries.len() && (#[trigger] d.queries[j]).qid == p.query && has_status(
                    d.queries[j].contacts,
                    p.contact,
                    Status::InFlight,
                );
            if j == k {
                let a = choose|a: int|
                    0 <= a < q.contacts.len() && (#[trigger] q.contacts[a]).contact.id == p.contact
                        && q.contacts[a].status == Status::InFlight;
                lemma_in_flight_some(q.contacts, a);
            }
            let j2 = if j < k {
                j
            } else {
                j - 1
            };
            assert(r.queries[j2] == d.queries[j]);
        }
    }
    assert(asked_ok(r, asked)) by {
        assert forall|i: int, j: int|
            0 <= i < r.queries.len() && 0 <= j < asked.len() && (#[trigger] r.queries[i]).qid == (
            #[trigger] asked[j]).0 implies was_asked(r.queries[i].contacts, asked[j].1) by {
            let i2 = if i < k {
                i
            } else {
                i + 1
            };
            assert(d.queries[i2].qid == asked[j].0);
        }
    }
    assert(answers_ok(r, answers)) by {
        assert forall|i: int| 0 <= i < r.queries.len() implies done_answered(
            #[trigger] r.queries[i],
            answers,
        ) by {}
        crate::dht_laws::law_reported_nearest_first(q.contacts, q.target, near(q.contacts));
        assert(done_answered(q, answers));
        assert forall|i: int| 0 <= i < closest.len() implies answers.contains(
            (q.qid, (#[trigger] closest[i]).id),
        ) by {
            assert(closest.contains(closest[i]));
            let a = choose|a: int|
                0 <= a < near(q.contacts) && #[trigger] q.contacts[a] == (QueryContact {
                    contact: closest[i],
                    status: Status::Done,
                });
            assert(q.contacts[a].status == Status::Done);
        }
        assert forall|i: int| 0 <= i < r.events.len() implies report_answered(
            #[trigger] r.events[i],
            answers,
        ) by {
            if i < d.events.len() {
                assert(r.events[i] == d.events[i]);
            }
        }
    }
}

/// A query that moves on keeps the node's lookups sound.
proof fn lemma_driven_sound(
    d: DhtView,
    qid: u64,
    now: u64,
    asked: Seq<Asking>,
    answers: Seq<Asking>,
)
    requires
        lookups_sound(d, asked, answers),
        d.next_rid + K <= u64::MAX,
    ensures
        lookups_sound(driven(d, qid, now), asked + asked_moving_on(d, qid), answers),
{
    reveal(lookups_sound);
    lemma_first(d.queries, with_qid(qid));
    match first(d.queries, with_qid(qid)) {
        Some(k) => {
            let q = d.queries[k];
            assert(q.qid == qid);
            let flying = in_flight(q.contacts);
            let out = launched(q.contacts, 0, flying).1;
            if out.len() == 0 && flying == 0 {
                lemma_launches_none(q.contacts, 0, flying);
                lemma_ending_sound(d, k, asked, answers);
                assert(asked + asked_moving_on(d, qid) =~= asked);
            } else {
                lemma_requests_sound(d, k, now, asked, answers);
            }
        },
        None => {
            assert(asked + asked_moving_on(d, qid) =~= asked);
        },
    }
}

/// Whether no end of a lookup for nodes is among events that was not before.
spec fn adds_no_report(old: Seq<EventView>, new: Seq<EventView>) -> bool {
    forall|i: int|
        0 <= i < new.len() ==> !((#[trigger] new[i]) is QueryFinished) || old.contains(new[i])
}

/// Changes beside the queries and their requests keep the lookups sound.
proof fn lemma_same_lookups(d: DhtView, e: DhtView, asked: Seq<Asking>, answers: Seq<Asking>)
    requires
        lookups_sound(d, asked, answers),
        e.queries == d.queries,
        e.pending == d.pending,
        e.next_qid == d.next_qid,
        adds_no_report(d.events, e.events),
    ensures
        lookups_sound(e, asked, answers),
{
    reveal(lookups_sound);
    assert forall|i: int| 0 <= i < e.events.len() implies report_answered(
        #[trigger] e.events[i],
        answers,
    ) by {
        if e.events[i] is QueryFinished {
            let j = d.events.index_of(e.events[i]);
            assert(d.events[j] == e.events[i]);
        }
    }
}

/// Reporting anything but the end of a lookup for nodes is such a change.
proof fn lemma_other_event(s: Seq<EventView>, e: EventView)
    requires
        !(e is QueryFinished),
    ensures
        adds_no_report(s, s.push(e)),
{
    assert forall|i: int| 0 <= i < s.push(e).len() implies !((#[trigger] s.push(e)[i])
        is QueryFinished) || s.contains(s.push(e)[i]) by {
        if i < s.len() {
            assert(s.push(e)[i] == s[i]);
        }
    }
}

/// A new query has asked nobody.
proof fn lemma_with_query_sound(
    d: DhtView,
    target: NodeId,
    kind: QueryKind,
    asked: Seq<Asking>,
    answers: Seq<Asking>,
)
    requires
        lookups_sound(d, asked, answers),
        d.next_qid < u64::MAX,
    ensures
        lookups_sound(with_query(d, target, kind), asked, answers),
{
    reveal(lookups_sound);
    let e = with_query(d, target, kind);
    let n = d.queries.len() as int;
    let q = e.queries[n];
    let none = Seq::<QueryContact>::empty();
    lemma_all_added(none, nearest(d.table, target, K as nat), target, None);
    assert forall|i: int| 0 <= i < q.contacts.len() implies (#[trigger] q.contacts[i]).status
        == Status::Fresh by {
        assert(q.contacts.contains(q.contacts[i]));
        assert(!none.contains(q.contacts[i]));
    }
    assert(in_flight(none) == 0);
    assert forall|i: int| 0 <= i < n implies (#[trigger] e.queries[i]) == d.queries[i] by {}
    assert(lookup_ok(q));
    assert(lookups_ok(e.queries));
    assert(requests_ok(e)) by {
        assert forall|i: int| 0 <= i < e.pending.len() implies is_open(
            e.queries,
            #[trigger] e.pending[i],
        ) by {
            let p = d.pending[i];
            assert(is_open(d.queries, p));
            let j = choose|j: int|
                0 <= j < d.queries.len() && (#[trigger] d.queries[j]).qid == p.query && has_status(
                    d.queries[j].contacts,
                    p.contact,
                    Status::InFlight,
                );
            assert(e.queries[j] == d.queries[j]);
        }
    }
    assert(asked_ok(e, asked)) by {
        assert forall|i: int, j: int|
            0 <= i < e.queries.len() && 0 <= j < asked.len() && (#[trigger] e.queries[i]).qid == (
            #[trigger] asked[j]).0 implies was_asked(e.queries[i].contacts, asked[j].1) by {
            if i < n {
                assert(d.queries[i].qid == asked[j].0);
            }
        }
    }
    assert(answers_ok(e, answers)) by {
        assert forall|i: int| 0 <= i < e.queries.len() implies done_answered(
            #[trigger] e.queries[i],
            answers,
        ) by {
            if i < n {
                assert(done_answered(d.queries[i], answers));
            }
        }
    }
}

/// Requests that no longer await an answer leave the others.
proof fn lemma_fewer_requests(d: DhtView, s: Seq<Pending>, queries: Seq<QueryView>)
    requires
        requests_ok(d),
        forall|i: int|
            0 <= i < s.len() ==> d.pending.contains(#[trigger] s[i]) && is_open(queries, s[i]),
        forall|i: int, j: int|
            0 <= i < j < s.len() ==> !same_asking(#[trigger] s[i], #[trigger] s[j]),
    ensures
        requests_ok(DhtView { pending: s, queries, ..d }),
{
}

/// A request that is over: its query knows what came of it.
proof fn lemma_resolved_sound(
    d: DhtView,
    k: int,
    j: int,
    r: QueryView,
    asked: Seq<Asking>,
    answers: Seq<Asking>,
    more: Seq<Asking>,
)
    requires
        lookups_sound(d, asked, answers),
        0 <= k < d.pending.len(),
        0 <= j < d.queries.len(),
        d.queries[j].qid == d.pending[k].query,
        r.qid == d.queries[j].qid,
        lookup_ok(r),
        forall|id: NodeId|
            id != d.pending[k].contact && has_status(d.queries[j].contacts, id, Status::InFlight)
                ==> #[trigger] has_status(r.contacts, id, Status::InFlight),
        forall|id: NodeId|
            was_asked(d.queries[j].contacts, id) ==> #[trigger] was_asked(r.contacts, id),
        done_answered(r, more),
        forall|a: Asking| answers.contains(a) ==> #[trigger] more.contains(a),
    ensures
        lookups_sound(
            DhtView { pending: d.pending.remove(k), queries: d.queries.update(j, r), ..d },
            asked,
            more,
        ),
{
    reveal(lookups_sound);
    let p = d.pending[k];
    let rest = d.pending.remove(k);
    let queries = d.queries.update(j, r);
    let e = DhtView { pending: rest, queries, ..d };
    assert(lookups_ok(e.queries));
    assert(qids_ok(e)) by {
        assert forall|i: int| 0 <= i < e.queries.len() implies (#[trigger] e.queries[i]).qid
            == d.queries[i].qid by {}
        assert forall|a: int, b: int| 0 <= a < b < e.queries.len() implies (
        #[trigger] e.queries[a]).qid != (#[trigger] e.queries[b]).qid by {
            assert(d.queries[a].qid != d.queries[b].qid);
        }
    }
    assert forall|i: int| 0 <= i < rest.len() implies (#[trigger] rest[i]) == d.pending[if i < k {
        i
    } else {
        i + 1
    }] by {}
    assert(requests_ok(e)) by {
        assert forall|i: int| 0 <= i < rest.len() implies d.pending.contains(#[trigger] rest[i])
            && is_open(queries, rest[i]) by {
            let i2 = if i < k {
                i
            } else {
                i + 1
            };
            assert(rest[i] == d.pending[i2]);
            assert(!same_asking(rest[i], p)) by {
                if i2 < k {
                    assert(!same_asking(d.pending[i2], d.pending[k]));
                } else {
                    assert(!same_asking(d.pending[k], d.pending[i2]));
                }
            }
            lemma_open_update(d, j, r, rest[i]);
        }
        assert forall|a: int, b: int| 0 <= a < b < rest.len() implies !same_asking(
            #[trigger] rest[a],
            #[trigger] rest[b],
        ) by {
            let a2 = if a < k {
                a
            } else {
                a + 1
            };
            let b2 = if b < k {
                b
            } else {
                b + 1
            };
            assert(!same_asking(d.pending[a2], d.pending[b2]));
        }
        lemma_fewer_requests(d, rest, queries);
    }
    assert(asked_ok(e, asked)) by {
        assert forall|a: int, b: int|
            0 <= a < e.queries.len() && 0 <= b < asked.len() && (#[trigger] e.queries[a]).qid == (
            #[trigger] asked[b]).0 implies was_asked(e.queries[a].contacts, asked[b].1) by {
            assert(d.queries[a].qid == asked[b].0);
        }
    }
    assert(answers_ok(e, more)) by {
        assert forall|i: int| 0 <= i < e.queries.len() implies done_answered(
            #[trigger] e.queries[i],
            more,
        ) by {
            if i != j {
                assert(e.queries[i] == d.queries[i]);
                assert(done_answered(d.queries[i], answers));
            }
        }
        assert forall|i: int| 0 <= i < e.events.len() implies report_answered(
            #[trigger] e.events[i],
            more,
        ) by {
            assert(report_answered(d.events[i], answers));
        }
    }
}

/// What marking a contact does to a shortlist.
proof fn lemma_marked_statuses(q: QueryView, id: NodeId, status: Status)
    requires
        lookup_ok(q),
        status == Status::Done || status == Status::Failed,
    ensures
        ({
            let s = q.contacts;
            let m = marked(s, id, status);
            &&& forall|x: NodeId|
                x != id && has_status(s, x, Status::InFlight) ==> #[trigger] has_status(
                    m,
                    x,
                    Status::InFlight,
                )
            &&& forall|x: NodeId| was_asked(s, x) ==> #[trigger] was_asked(m, x)
            &&& m.len() == s.len()
            &&& forall|i: int|
                0 <= i < s.len() ==> (#[trigger] m[i]) == s[i] || (m[i] == (QueryContact {
                    status,
                    ..s[i]
                }) && s[i].contact.id == id)
        }),
{
    let s = q.contacts;
    let m = marked(s, id, status);
    lemma_first(s, listed(id));
    assert forall|x: NodeId| x != id && has_status(s, x, Status::InFlight) implies #[trigger] has_status(
        m,
        x,
        Status::InFlight,
    ) by {
        let i = choose|i: int|
            0 <= i < s.len() && (#[trigger] s[i]).contact.id == x && s[i].status
                == Status::InFlight;
        assert(m[i] == s[i]);
    }
    assert forall|x: NodeId| was_asked(s, x) implies #[trigger] was_asked(m, x) by {
        let i = choose|i: int|
            0 <= i < s.len() && (#[trigger] s[i]).contact.id == x && s[i].status != Status::Fresh;
        assert(m[i].contact.id == x && m[i].status != Status::Fresh);
    }
}

proof fn lemma_with_failure_sound(d: DhtView, k: int, asked: Seq<Asking>, answers: Seq<Asking>)
    requires
        lookups_sound(d, asked, answers),
        0 <= k < d.pending.len(),
    ensures
        lookups_sound(with_failure(d, k), asked, answers),
{
    reveal(lookups_sound);
    let p = d.pending[k];
    let f = DhtView { table: crate::routing::failed(d.table, p.contact).0, ..d };
    lemma_same_lookups(d, f, asked, answers);
    lemma_first(d.queries, with_qid(p.query));
    assert(is_open(d.queries, p));
    let at = choose|at: int|
        0 <= at < d.queries.len() && (#[trigger] d.queries[at]).qid == p.query && has_status(
            d.queries[at].contacts,
            p.contact,
            Status::InFlight,
        );
    match first(d.queries, with_qid(p.query)) {
        Some(j) => {
            let q = d.queries[j];
            assert(lookup_ok(q));
            lemma_marked(q.contacts, p.contact, Status::Failed, q.target);
            lemma_marked_statuses(q, p.contact, Status::Failed);
            let r = QueryView { contacts: marked(q.contacts, p.contact, Status::Failed), ..q };
            assert(done_answered(q, answers));
            assert(done_answered(r, answers)) by {
                assert forall|i: int| 0 <= i < r.contacts.len() && (#[trigger] r.contacts[i]).status
                    == Status::Done implies answers.contains((r.qid, r.contacts[i].contact.id)) by {
                    assert(r.contacts[i] == q.contacts[i]);
                }
            }
            lemma_resolved_sound(f, k, j, r, asked, answers, answers);
        },
        None => {
            assert(!with_qid(p.query)(d.queries[at]));
        },
    }
}

proof fn lemma_with_answer_sound(
    d: DhtView,
    k: int,
    responder: Contact,
    contacts: Seq<Contact>,
    peers: Seq<Contact>,
    asked: Seq<Asking>,
    answers: Seq<Asking>,
)
    requires
        lookups_sound(d, asked, answers),
        0 <= k < d.pending.len(),
    ensures
        lookups_sound(
            with_answer(d, k, responder, contacts, peers),
            asked,
            answers + seq![(d.pending[k].query, d.pending[k].contact)],
        ),
        first(d.queries, with_qid(d.pending[k].query)) is Some,
{
    reveal(lookups_sound);
    let p = d.pending[k];
    let this: Asking = (p.query, p.contact);
    let more = answers + seq![this];
    assert forall|a: Asking| answers.contains(a) implies #[trigger] more.contains(a) by {
        let i = answers.index_of(a);
        assert(more[i] == a);
    }
    assert(more[answers.len() as int] == this);
    lemma_first(d.queries, with_qid(p.query));
    assert(is_open(d.queries, p));
    let at = choose|at: int|
        0 <= at < d.queries.len() && (#[trigger] d.queries[at]).qid == p.query && has_status(
            d.queries[at].contacts,
            p.contact,
            Status::InFlight,
        );
    match first(d.queries, with_qid(p.query)) {
        Some(j) => {
            let q = d.queries[j];
            assert(lookup_ok(q));
            let m = marked(q.contacts, p.contact, Status::Done);
            lemma_marked(q.contacts, p.contact, Status::Done, q.target);
            lemma_marked_statuses(q, p.contact, Status::Done);
            lemma_all_added(m, contacts, q.target, Some(d.id));
            let r = enriched(q, d.id, p.contact, responder, contacts, peers);
            let c = r.contacts;
            assert forall|i: int| 0 <= i < m.len() implies exists|a: int|
                0 <= a < c.len() && c[a] == #[trigger] m[i] by {
                assert(m.contains(m[i]));
                assert(c.contains(m[i]));
                let a = c.index_of(m[i]);
                assert(c[a] == m[i]);
            }
            assert forall|id: NodeId|
                id != p.contact && has_status(
                    q.contacts,
                    id,
                    Status::InFlight,
                ) implies #[trigger] has_status(c, id, Status::InFlight) by {
                assert(has_status(m, id, Status::InFlight));
                let i = choose|i: int|
                    0 <= i < m.len() && (#[trigger] m[i]).contact.id == id && m[i].status
                        == Status::InFlight;
                let a = choose|a: int| 0 <= a < c.len() && c[a] == m[i];
                assert(c[a].contact.id == id);
            }
            assert forall|id: NodeId| was_asked(q.contacts, id) implies #[trigger] was_asked(
                c,
                id,
            ) by {
                assert(was_asked(m, id));
                let i = choose|i: int|
                    0 <= i < m.len() && (#[trigger] m[i]).contact.id == id && m[i].status
                        != Status::Fresh;
                let a = choose|a: int| 0 <= a < c.len() && c[a] == m[i];
                assert(c[a].contact.id == id);
            }
            assert(done_answered(q, answers));
            assert(done_answered(r, more)) by {
                assert forall|i: int| 0 <= i < c.len() && (#[trigger] c[i]).status
                    == Status::Done implies more.contains((r.qid, c[i].contact.id)) by {
                    assert(c.contains(c[i]));
                    assert(m.contains(c[i]));
                    let a = m.index_of(c[i]);
                    assert(m[a] == c[i]);
                    if m[a] == q.contacts[a] {
                        assert(answers.contains((q.qid, q.contacts[a].contact.id)));
                    }
                }
            }
            lemma_resolved_sound(d, k, j, r, asked, answers, more);
        },
        None => {
            assert(!with_qid(p.query)(d.queries[at]));
        },
    }
}

/// The elements kept of requests that are all different are.
proof fn lemma_kept_askings(s: Seq<Pending>, p: spec_fn(Pending) -> bool)
    requires
        forall|i: int, j: int|
            0 <= i < j < s.len() ==> !same_asking(#[trigger] s[i], #[trigger] s[j]),
    ensures
        forall|i: int, j: int|
            0 <= i < j < kept(s, p).len() ==> !same_asking(
                #[trigger] kept(s, p)[i],
                #[trigger] kept(s, p)[j],
            ),
    decreases s.len(),
{
    if s.len() > 0 {
        let rest = s.drop_last();
        assert forall|i: int, j: int| 0 <= i < j < rest.len() implies !same_asking(
            #[trigger] rest[i],
            #[trigger] rest[j],
        ) by {
            assert(!same_asking(s[i], s[j]));
        }
        lemma_kept_askings(rest, p);
        lemma_kept(rest, p);
        let r = kept(s, p);
        let w = kept(rest, p);
        assert forall|i: int, j: int| 0 <= i < j < r.len() implies !same_asking(
            #[trigger] r[i],
            #[trigger] r[j],
        ) by {
            assert(r[i] == w[i]);
            if j < w.len() {
                assert(r[j] == w[j]);
            } else {
                assert(w.contains(w[i]));
                let m = rest.index_of(w[i]);
                assert(s[m] == w[i]);
                assert(!same_asking(s[m], s[s.len() - 1]));
            }
        }
    }
}

/// The elements kept of queries that are all different are, each from where it stood.
proof fn lemma_kept_qids(s: Seq<QueryView>, p: spec_fn(QueryView) -> bool)
    requires
        forall|i: int, j: int|
            0 <= i < j < s.len() ==> (#[trigger] s[i]).qid != (#[trigger] s[j]).qid,
    ensures
        forall|i: int, j: int|
            0 <= i < j < kept(s, p).len() ==> (#[trigger] kept(s, p)[i]).qid != (
            #[trigger] kept(s, p)[j]).qid,
    decreases s.len(),
{
    if s.len() > 0 {
        let rest = s.drop_last();
        assert forall|i: int, j: int| 0 <= i < j < rest.len() implies (#[trigger] rest[i]).qid != (
        #[trigger] rest[j]).qid by {
            assert(s[i].qid != s[j].qid);
        }
        lemma_kept_qids(rest, p);
        lemma_kept(rest, p);
        let r = kept(s, p);
        let w = kept(rest, p);
        assert forall|i: int, j: int| 0 <= i < j < r.len() implies (#[trigger] r[i]).qid != (
        #[trigger] r[j]).qid by {
            assert(r[i] == w[i]);
            if j < w.len() {
                assert(r[j] == w[j]);
            } else {
                assert(w.contains(w[i]));
                let m = rest.index_of(w[i]);
                assert(s[m] == w[i]);
                assert(s[m].qid != s[s.len() - 1].qid);
            }
        }
    }
}

proof fn lemma_cancelled_sound(d: DhtView, t: NodeId, asked: Seq<Asking>, answers: Seq<Asking>)
    requires
        lookups_sound(d, asked, answers),
    ensures
        lookups_sound(cancelled(d, t), asked, answers),
{
    reveal(lookups_sound);
    let e = cancelled(d, t);
    let f = not_of_connect(d.queries, t);
    let g = not_connecting(t);
    lemma_kept(d.queries, g);
    lemma_kept(d.pending, f);
    lemma_kept_qids(d.queries, g);
    lemma_kept_askings(d.pending, f);
    assert forall|i: int| 0 <= i < e.queries.len() implies d.queries.contains(
        #[trigger] e.queries[i],
    ) by {
        assert(e.queries.contains(e.queries[i]));
    }
    assert(lookups_ok(e.queries)) by {
        assert forall|i: int| 0 <= i < e.queries.len() implies lookup_ok(
            #[trigger] e.queries[i],
        ) by {
            let j = d.queries.index_of(e.queries[i]);
            assert(d.queries[j] == e.queries[i]);
        }
    }
    assert(qids_ok(e)) by {
        assert forall|i: int| 0 <= i < e.queries.len() implies (#[trigger] e.queries[i]).qid
            < e.next_qid by {
            let j = d.queries.index_of(e.queries[i]);
            assert(d.queries[j] == e.queries[i]);
        }
    }
    assert(requests_ok(e)) by {
        assert forall|i: int| 0 <= i < e.pending.len() implies d.pending.contains(
            #[trigger] e.pending[i],
        ) && is_open(e.queries, e.pending[i]) by {
            let p = e.pending[i];
            assert(e.pending.contains(p));
            let m = d.pending.index_of(p);
            assert(d.pending[m] == p);
            assert(is_open(d.queries, p));
            let j = choose|j: int|
                0 <= j < d.queries.len() && (#[trigger] d.queries[j]).qid == p.query && has_status(
                    d.queries[j].contacts,
                    p.contact,
                    Status::InFlight,
                );
            assert(f(p));
            assert(g(d.queries[j])) by {
                if !g(d.queries[j]) {
                    assert(d.queries[j].qid == p.query);
                    assert(is_connect(d.queries, p.query, t));
                }
            }
            assert(d.queries.contains(d.queries[j]));
            assert(e.queries.contains(d.queries[j]));
            let a = e.queries.index_of(d.queries[j]);
            assert(e.queries[a] == d.queries[j]);
        }
        lemma_fewer_requests(d, e.pending, e.queries);
    }
    assert(asked_ok(e, asked)) by {
        assert forall|i: int, j: int|
            0 <= i < e.queries.len() && 0 <= j < asked.len() && (#[trigger] e.queries[i]).qid == (
            #[trigger] asked[j]).0 implies was_asked(e.queries[i].contacts, asked[j].1) by {
            let a = d.queries.index_of(e.queries[i]);
            assert(d.queries[a] == e.queries[i]);
            assert(d.queries[a].qid == asked[j].0);
        }
    }
    assert(answers_ok(e, answers)) by {
        assert forall|i: int| 0 <= i < e.queries.len() implies done_answered(
            #[trigger] e.queries[i],
            answers,
        ) by {
            let a = d.queries.index_of(e.queries[i]);
            assert(d.queries[a] == e.queries[i]);
        }
    }
}

proof fn lemma_all_given_up_sound(
    d: DhtView,
    due: Seq<Pending>,
    now: u64,
    asked: Seq<Asking>,
    answers: Seq<Asking>,
)
    requires
        healthy(d),
        rids_ok(d),
        lookups_sound(d, asked, answers),
        d.next_rid + K * due.len() <= u64::MAX,
        now + REQUEST_TIMEOUT_MS <= u64::MAX,
    ensures
        lookups_sound(
            all_given_up(d, due, now),
            asked + asked_giving_up(d, due, now),
            answers,
        ),
    decreases due.len(),
{
    if due.len() == 0 {
        assert(asked + asked_giving_up(d, due, now) =~= asked);
    } else {
        let rest = due.drop_last();
        lemma_all_given_up_sound(d, rest, now, asked, answers);
        lemma_all_given_up_pending(d, rest, now);
        let e = all_given_up(d, rest, now);
        let before = asked + asked_giving_up(d, rest, now);
        let rid = due.last().rid;
        lemma_first(e.pending, with_rid(rid));
        match first(e.pending, with_rid(rid)) {
            Some(k) => {
                let f = with_failure(e, k);
                lemma_with_failure_sound(e, k, before, answers);
                lemma_driven_sound(f, e.pending[k].query, now, before, answers);
                assert(given_up(e, rid, now) == driven(f, e.pending[k].query, now));
                assert(before + asked_moving_on(f, e.pending[k].query) =~= asked + asked_giving_up(
                    d,
                    due,
                    now,
                ));
            },
            None => {
                assert(before =~= asked + asked_giving_up(d, due, now));
            },
        }
    }
}

proof fn lemma_all_timed_out_sound(
    d: DhtView,
    stale: Seq<ConnectView>,
    asked: Seq<Asking>,
    answers: Seq<Asking>,
)
    requires
        lookups_sound(d, asked, answers),
    ensures
        lookups_sound(all_timed_out(d, stale), asked, answers),
    decreases stale.len(),
{
    if stale.len() > 0 {
        lemma_all_timed_out_sound(d, stale.drop_last(), asked, answers);
        let e = all_timed_out(d, stale.drop_last());
        let t = stale.last().target;
        let f = DhtView { connecting: disconnected(e.connecting, t), ..e };
        lemma_same_lookups(e, f, asked, answers);
        lemma_cancelled_sound(f, t, asked, answers);
        let g = cancelled(f, t);
        let r = timed_out(e, t);
        lemma_other_event(g.events, ended(t, ConnectOutcome::TimedOut));
        assert(r.events == g.events.push(
            ended(t, ConnectOutcome::TimedOut),
        ));
        lemma_same_lookups(g, r, asked, answers);
    }
}

/// What holds of a node at every moment of its history.
#[verifier::opaque]
pub open spec fn node_sound(d: DhtView, asked: Seq<Asking>, answers: Seq<Asking>) -> bool {
    healthy(d) && rids_ok(d) && lookups_sound(d, asked, answers)
}

proof fn lemma_started_sound(
    d: DhtView,
    target: NodeId,
    kind: QueryKind,
    now: u64,
    asked: Seq<Asking>,
    answers: Seq<Asking>,
)
    requires
        lookups_sound(d, asked, answers),
        d.next_qid < u64::MAX,
        d.next_rid + K <= u64::MAX,
    ensures
        lookups_sound(
            started(d, target, kind, now),
            asked + asked_moving_on(with_query(d, target, kind), d.next_qid),
            answers,
        ),
{
    lemma_with_query_sound(d, target, kind, asked, answers);
    lemma_driven_sound(with_query(d, target, kind), d.next_qid, now, asked, answers);
}

proof fn lemma_input_sound(
    d: DhtView,
    from: SocketAddr,
    data: Seq<u8>,
    now: u64,
    asked: Seq<Asking>,
    answers: Seq<Asking>,
)
    requires
        lookups_sound(d, asked, answers),
        d.next_rid + K <= u64::MAX,
    ensures
        ({
            let c = DhtCall::Input { from, data, now };
            lookups_sound(
                input(d, from, data, now),
                asked + asked_in(d, c),
                answers + answered_in(d, c),
            )
        }),
{
    let c = DhtCall::Input { from, data, now };
    let r = input(d, from, data, now);
    if let Ok(p) = read_packet(data) {
        let e = sighted(d, from, p);
        lemma_same_lookups(d, e, asked, answers);
        if let MessageView::Nodes { contacts, peers } = p.msg {
            let responder = Contact { id: p.sender, addr: from };
            lemma_first(d.pending, with_rid(p.rid));
            match first(d.pending, with_rid(p.rid)) {
                Some(k) => {
                    let qid = d.pending[k].query;
                    lemma_with_answer_sound(e, k, responder, contacts, peers, asked, answers);
                    let f = with_answer(e, k, responder, contacts, peers);
                    let more = answers + seq![(d.pending[k].query, d.pending[k].contact)];
                    lemma_driven_sound(f, qid, now, asked, more);
                    assert(r == driven(f, qid, now));
                },
                None => {
                    assert(r == e);
                    assert(asked + asked_in(d, c) =~= asked);
                    assert(answers + answered_in(d, c) =~= answers);
                },
            }
        } else {
            assert(asked + asked_in(d, c) =~= asked);
            assert(answers + answered_in(d, c) =~= answers);
            assert(r.queries == d.queries && r.pending == d.pending && r.next_qid == d.next_qid);
            assert forall|i: int| 0 <= i < r.events.len() implies !((#[trigger] r.events[i])
                is QueryFinished) || d.events.contains(r.events[i]) by {
                if i < d.events.len() {
                    assert(r.events[i] == d.events[i]);
                }
            }
            lemma_same_lookups(d, r, asked, answers);
        }
    } else {
        assert(asked + asked_in(d, c) =~= asked);
        assert(answers + answered_in(d, c) =~= answers);
    }
}

proof fn lemma_call_sound(d: DhtView, c: DhtCall, asked: Seq<Asking>, answers: Seq<Asking>)
    requires
        healthy(d),
        rids_ok(d),
        lookups_sound(d, asked, answers),
        has_room(d, c),
    ensures
        lookups_sound(after_call(d, c), asked + asked_in(d, c), answers + answered_in(d, c)),
{
    let r = after_call(d, c);
    match c {
        DhtCall::Start { target, kind, now } => {
            lemma_start_call(d, target, kind, now);
            lemma_started_sound(d, target, kind, now, asked, answers);
            assert(answers + answered_in(d, c) =~= answers);
        },
        DhtCall::Connect { target, data_addrs, now } => {
            lemma_connect_call(d, target, data_addrs, now);
            let e = with_connect(d, target, data_addrs, now);
            lemma_same_lookups(d, e, asked, answers);
            lemma_started_sound(e, target, QueryKind::Connect, now, asked, answers);
            assert(r == started(e, target, QueryKind::Connect, now));
            assert(answers + answered_in(d, c) =~= answers);
        },
        DhtCall::Input { from, data, now } => {
            lemma_input_call(d, from, data, now);
            lemma_input_sound(d, from, data, now, asked, answers);
        },
        DhtCall::Timeout { now } => {
            lemma_timeout_call(d, now);
            let late = kept(d.pending, due(now));
            lemma_kept(d.pending, due(now));
            lemma_all_given_up_sound(d, late, now, asked, answers);
            let more = asked + asked_in(d, c);
            let d1 = all_given_up(d, late, now);
            let d2 = DhtView { probes: kept(d1.probes, live_probe(now)), ..d1 };
            lemma_same_lookups(d1, d2, more, answers);
            let gone = kept(d2.connecting, stale(now));
            lemma_all_timed_out_sound(d2, gone, more, answers);
            lemma_same_lookups(all_timed_out(d2, gone), r, more, answers);
            assert(answers + answered_in(d, c) =~= answers);
        },
        _ => {
            assert(asked + asked_in(d, c) =~= asked);
            assert(answers + answered_in(d, c) =~= answers);
            if let DhtCall::AddContact(contact) = c {
                lemma_contact_call(d, contact);
            }
            if let DhtCall::Accept { initiator, data_addrs, now } = c {
                lemma_accept_call(d, initiator, data_addrs, now);
            }
            if let DhtCall::Sample { count, now } = c {
                lemma_sample_call(d, count, now);
                lemma_pinged(d, nearest(d.table, d.id, count), now);
            }
            assert forall|i: int| 0 <= i < r.events.len() implies !((#[trigger] r.events[i])
                is QueryFinished) || d.events.contains(r.events[i]) by {
                if c is PollEvent && d.events.len() > 0 {
                    assert(r.events[i] == d.events[i + 1]);
                } else {
                    assert(r.events[i] == d.events[i]);
                }
            }
            lemma_same_lookups(d, r, asked, answers);
        },
    }
}

proof fn lemma_call_keeps_health(d: DhtView, c: DhtCall)
    requires
        healthy(d),
        rids_ok(d),
        has_room(d, c),
    ensures
        healthy(after_call(d, c)),
        rids_ok(after_call(d, c)),
{
    let r = after_call(d, c);
    let none = Seq::<SocketAddr>::empty();
    let nobody = Seq::<Contact>::empty();
    match c {
        DhtCall::Start { target, kind, now } => {
            lemma_start_call(d, target, kind, now);
            law_start_keeps_health(d, target, kind, now);
            law_starting_keeps_ids_apart(d, target, kind, none, now);
        },
        DhtCall::Connect { target, data_addrs, now } => {
            lemma_connect_call(d, target, data_addrs, now);
            law_connect_keeps_health(d, target, data_addrs, now);
            law_starting_keeps_ids_apart(d, target, QueryKind::Connect, data_addrs, now);
        },
        DhtCall::Accept { initiator, data_addrs, now } => {
            lemma_accept_call(d, initiator, data_addrs, now);
            law_replies_keep_health(d, initiator, data_addrs, nobody, now);
            lemma_accepted_rids(d, initiator, data_addrs, now);
        },
        DhtCall::Sample { count, now } => {
            lemma_sample_call(d, count, now);
            let peers = nearest(d.table, d.id, count);
            law_replies_keep_health(d, d.id, none, peers, now);
            law_timers_keep_ids_apart(d, d.id, none, peers, now);
        },
        DhtCall::Input { from, data, now } => {
            lemma_input_call(d, from, data, now);
            law_input_keeps_health(d, from, data, now);
            law_input_keeps_ids_apart(d, from, data, now);
        },
        DhtCall::Timeout { now } => {
            lemma_timeout_call(d, now);
            law_timers_leave_nothing_hanging(d, now);
            law_timers_keep_ids_apart(d, d.id, none, nobody, now);
        },
        DhtCall::PollEvent => {
            assert forall|i: int| 0 <= i < r.events.len() implies report_ok(
                #[trigger] r.events[i],
            ) by {
                if d.events.len() > 0 {
                    assert(r.events[i] == d.events[i + 1]);
                }
            }
        },
        DhtCall::AddContact(contact) => {
            lemma_contact_call(d, contact);
        },
        _ => {},
    }
}

proof fn lemma_accepted_rids(
    d: DhtView,
    initiator: NodeId,
    data_addrs: Seq<SocketAddr>,
    now: u64,
)
    requires
        rids_ok(d),
        d.next_rid < u64::MAX,
    ensures
        rids_ok(accepted(d, initiator, data_addrs, now)),
{
}

proof fn lemma_call_keeps_sound(d: DhtView, c: DhtCall, asked: Seq<Asking>, answers: Seq<Asking>)
    requires
        node_sound(d, asked, answers),
        has_room(d, c),
    ensures
        node_sound(after_call(d, c), asked + asked_in(d, c), answers + answered_in(d, c)),
{
    reveal(node_sound);
    lemma_call_keeps_health(d, c);
    lemma_call_sound(d, c, asked, answers);
}

proof fn lemma_new_node_is_sound(id: NodeId)
    ensures
        node_sound(fresh_node(id), Seq::empty(), Seq::empty()),
{
    reveal(lookups_sound);
    reveal(node_sound);
    law_new_node_is_healthy(id);
}

/// What holds of every node, from the moment it is new and whatever it is told and
/// sent, while its ids last.
pub proof fn law_node_is_always_sound(id: NodeId, calls: Seq<DhtCall>)
    requires
        all_have_room(fresh_node(id), calls),
    ensures
        node_sound(
            after_calls(fresh_node(id), calls),
            all_asked(fresh_node(id), calls),
            all_answered(fresh_node(id), calls),
        ),
    decreases calls.len(),
{
    let d0 = fresh_node(id);
    if calls.len() == 0 {
        lemma_new_node_is_sound(id);
    } else {
        let rest = calls.drop_last();
        law_node_is_always_sound(id, rest);
        let d = after_calls(d0, rest);
        lemma_call_keeps_sound(d, calls.last(), all_asked(d0, rest), all_answered(d0, rest));
    }
}

/// The requests of a query.
pub open spec fn of_query(qid: u64) -> spec_fn(Pending) -> bool {
    |p: Pending| p.query == qid
}

/// As many different contacts in flight are counted as there are.
proof fn lemma_counts_in_flight(ids: Seq<NodeId>, s: Seq<QueryContact>)
    requires
        ids.no_duplicates(),
        forall|i: int| 0 <= i < ids.len() ==> has_status(s, #[trigger] ids[i], Status::InFlight),
    ensures
        ids.len() <= in_flight(s),
    decreases s.len(),
{
    if s.len() == 0 {
        if ids.len() > 0 {
            assert(has_status(s, ids[0], Status::InFlight));
        }
    } else {
        let rest = s.drop_last();
        let last = s.last();
        assert(last == s[s.len() - 1]);
        if last.status == Status::InFlight && ids.contains(last.contact.id) {
            let m = ids.index_of(last.contact.id);
            let fewer = ids.remove(m);
            assert forall|i: int| 0 <= i < fewer.len() implies (#[trigger] fewer[i]) == ids[if i < m {
                i
            } else {
                i + 1
            }] by {}
            assert(fewer.no_duplicates()) by {
                assert forall|i: int, j: int|
                    0 <= i < fewer.len() && 0 <= j < fewer.len() && i != j implies fewer[i]
                    != fewer[j] by {
                    let i2 = if i < m {
                        i
                    } else {
                        i + 1
                    };
                    let j2 = if j < m {
                        j
                    } else {
                        j + 1
                    };
                    assert(ids[i2] != ids[j2]);
                }
            }
            assert forall|i: int| 0 <= i < fewer.len() implies has_status(
                rest,
                #[trigger] fewer[i],
                Status::InFlight,
            ) by {
                let i2 = if i < m {
                    i
                } else {
                    i + 1
                };
                assert(ids[i2] != ids[m]);
                lemma_status_before(s, ids[i2]);
            }
            lemma_counts_in_flight(fewer, rest);
        } else {
            assert forall|i: int| 0 <= i < ids.len() implies has_status(
                rest,
                #[trigger] ids[i],
                Status::InFlight,
            ) by {
                if last.status == Status::InFlight {
                    assert(ids[i] != last.contact.id);
                }
                lemma_status_before(s, ids[i]);
            }
            lemma_counts_in_flight(ids, rest);
        }
    }
}

proof fn lemma_status_before(s: Seq<QueryContact>, id: NodeId)
    requires
        s.len() > 0,
        has_status(s, id, Status::InFlight),
        s.last().contact.id != id || s.last().status != Status::InFlight,
    ensures
        has_status(s.drop_last(), id, Status::InFlight),
{
    let i = choose|i: int|
        0 <= i < s.len() && (#[trigger] s[i]).contact.id == id && s[i].status == Status::InFlight;
    assert(s.drop_last()[i] == s[i]);
}

/// A query has no more requests that await an answer than it may have in flight.
proof fn lemma_few_open(d: DhtView, qid: u64)
    requires
        lookups_ok(d.queries),
        qids_ok(d),
        requests_ok(d),
    ensures
        kept(d.pending, of_query(qid)).len() <= ALPHA,
{
    let mine = kept(d.pending, of_query(qid));
    lemma_kept(d.pending, of_query(qid));
    lemma_kept_askings(d.pending, of_query(qid));
    if mine.len() > 0 {
        assert forall|i: int| 0 <= i < mine.len() implies (#[trigger] mine[i]).query == qid
            && is_open(d.queries, mine[i]) by {
            assert(mine.contains(mine[i]));
            let j = d.pending.index_of(mine[i]);
            assert(d.pending[j] == mine[i]);
        }
        assert(is_open(d.queries, mine[0]));
        let k = choose|k: int|
            0 <= k < d.queries.len() && (#[trigger] d.queries[k]).qid == mine[0].query
                && has_status(d.queries[k].contacts, mine[0].contact, Status::InFlight);
        let s = d.queries[k].contacts;
        let ids = Seq::new(mine.len(), |i: int| mine[i].contact);
        assert forall|i: int| 0 <= i < ids.len() implies has_status(
            s,
            #[trigger] ids[i],
            Status::InFlight,
        ) by {
            assert(is_open(d.queries, mine[i]));
            let j = choose|j: int|
                0 <= j < d.queries.len() && (#[trigger] d.queries[j]).qid == mine[i].query
                    && has_status(d.queries[j].contacts, mine[i].contact, Status::InFlight);
            lemma_one_query(d, j, k);
        }
        assert(ids.no_duplicates()) by {
            assert forall|i: int, j: int|
                0 <= i < ids.len() && 0 <= j < ids.len() && i != j implies ids[i] != ids[j] by {
                if i < j {
                    assert(!same_asking(mine[i], mine[j]));
                } else {
                    assert(!same_asking(mine[j], mine[i]));
                }
            }
        }
        lemma_counts_in_flight(ids, s);
        assert(lookup_ok(d.queries[k]));
    }
}

/// Lookups over a node's whole history: at every moment each query has at most
/// [`ALPHA`] requests that await an answer; no query ever asks a contact twice; and the
/// contacts that a lookup reports are at most a bucket's, nearest first, and have all
/// answered it.
pub proof fn law_lookups_over_a_history(id: NodeId, calls: Seq<DhtCall>)
    requires
        all_have_room(fresh_node(id), calls),
    ensures
        ({
            let d = after_calls(fresh_node(id), calls);
            &&& forall|qid: u64| (#[trigger] kept(d.pending, of_query(qid))).len() <= ALPHA
            &&& all_asked(fresh_node(id), calls).no_duplicates()
            &&& forall|i: int|
                0 <= i < d.events.len() ==> ((#[trigger] d.events[i]) matches
                    EventView::QueryFinished { query, target, closest } ==> {
                    &&& closest.len() <= K
                    &&& sorted_to(closest, target)
                    &&& forall|j: int|
                        0 <= j < closest.len() ==> all_answered(fresh_node(id), calls).contains(
                            (query, (#[trigger] closest[j]).id),
                        )
                })
        }),
{
    reveal(lookups_sound);
    reveal(node_sound);
    law_node_is_always_sound(id, calls);
    let d = after_calls(fresh_node(id), calls);
    assert forall|qid: u64| (#[trigger] kept(d.pending, of_query(qid))).len() <= ALPHA by {
        lemma_few_open(d, qid);
    }
    assert forall|i: int| 0 <= i < d.events.len() implies ((#[trigger] d.events[i]) matches
        EventView::QueryFinished { query, target, closest } ==> {
        &&& closest.len() <= K
        &&& sorted_to(closest, target)
        &&& forall|j: int|
            0 <= j < closest.len() ==> all_answered(fresh_node(id), calls).contains(
                (query, (#[trigger] closest[j]).id),
            )
    }) by {
        assert(report_ok(d.events[i]));
        assert(report_answered(d.events[i], all_answered(fresh_node(id), calls)));
    }
}

/// Whether a connect to a peer waits for its lookup.
pub open spec fn awaits_lookup(s: Seq<ConnectView>, target: NodeId) -> bool {
    exists|k: int|
        0 <= k < s.len() && (#[trigger] s[k]).target == target && s[k].coordinator is None
}

/// Whether each peer is looked for at most once, and only while a connect waits for it.
pub open spec fn connects_ok(d: DhtView) -> bool {
    &&& forall|t: NodeId| #[trigger] looked_for_once(d.queries, t)
    &&& forall|i: int|
        0 <= i < d.queries.len() && (#[trigger] d.queries[i]).kind == QueryKind::Connect
            ==> awaits_lookup(d.connecting, d.queries[i].target)
}

/// Whether a call does not start a connect to a peer while an earlier one is
/// unresolved.
pub open spec fn starts_no_second(d: DhtView, c: DhtCall) -> bool {
    c matches DhtCall::Connect { target, .. } ==> !is_awaited(d.connecting, target)
}

/// Whether no call of a history does.
pub open spec fn no_second_connects(d: DhtView, calls: Seq<DhtCall>) -> bool
    decreases calls.len(),
{
    calls.len() > 0 ==> no_second_connects(d, calls.drop_last()) && starts_no_second(
        after_calls(d, calls.drop_last()),
        calls.last(),
    )
}

/// Where no connect awaits a peer, it is not looked for.
proof fn lemma_not_looked_for(d: DhtView, t: NodeId)
    requires
        connects_ok(d),
        !is_awaited(d.connecting, t),
    ensures
        !is_looked_for(d.queries, t),
{
    if is_looked_for(d.queries, t) {
        let i = choose|i: int| 0 <= i < d.queries.len() && connects(#[trigger] d.queries[i], t);
        assert(awaits_lookup(d.connecting, t));
        let k = choose|k: int|
            0 <= k < d.connecting.len() && (#[trigger] d.connecting[k]).target == t
                && d.connecting[k].coordinator is None;
        assert(d.connecting[k].target == t);
    }
}

proof fn lemma_connects_update(d: DhtView, k: int, q: QueryView)
    requires
        connects_ok(d),
        0 <= k < d.queries.len(),
        q.kind == d.queries[k].kind,
        q.target == d.queries[k].target,
    ensures
        connects_ok(DhtView { queries: d.queries.update(k, q), ..d }),
{
    let e = DhtView { queries: d.queries.update(k, q), ..d };
    assert forall|t: NodeId| #[trigger] looked_for_once(e.queries, t) by {
        assert(looked_for_once(d.queries, t));
        lemma_lookups_update(d.queries, k, q, t);
    }
    assert forall|i: int| 0 <= i < e.queries.len() && (#[trigger] e.queries[i]).kind
        == QueryKind::Connect implies awaits_lookup(e.connecting, e.queries[i].target) by {
        assert(d.queries[i].kind == QueryKind::Connect);
    }
}

/// A connect that changes leaves those to other peers waiting.
proof fn lemma_awaits_others(s: Seq<ConnectView>, r: Seq<ConnectView>, t: NodeId, other: NodeId)
    requires
        awaits_lookup(s, other),
        other != t,
        forall|x: ConnectView| s.contains(x) && x.target != t ==> #[trigger] r.contains(x),
    ensures
        awaits_lookup(r, other),
{
    let k = choose|k: int|
        0 <= k < s.len() && (#[trigger] s[k]).target == other && s[k].coordinator is None;
    assert(s.contains(s[k]));
    assert(r.contains(s[k]));
    let j = r.index_of(s[k]);
    assert(r[j] == s[k]);
}

proof fn lemma_ending_connects(d: DhtView, k: int, closest: Seq<Contact>)
    requires
        connects_ok(d),
        one_each(d.connecting),
        0 <= k < d.queries.len(),
    ensures
        connects_ok(
            finished(DhtView { queries: d.queries.remove(k), ..d }, d.queries[k], closest),
        ),
{
    let q = d.queries[k];
    let e = DhtView { queries: d.queries.remove(k), ..d };
    let r = finished(e, q, closest);
    lemma_finished_queries(e, q, closest);
    lemma_registered(e, q.target, closest);
    assert forall|t: NodeId| #[trigger] looked_for_once(r.queries, t) by {
        assert(looked_for_once(d.queries, t));
        lemma_lookups_remove(d.queries, k, t);
    }
    assert(looked_for_once(d.queries, q.target));
    lemma_lookups_remove(d.queries, k, q.target);
    lemma_disconnected(d.connecting, q.target);
    lemma_first(d.connecting, to_target(q.target));
    assert forall|i: int| 0 <= i < r.queries.len() && (#[trigger] r.queries[i]).kind
        == QueryKind::Connect implies awaits_lookup(r.connecting, r.queries[i].target) by {
        let i2 = if i < k {
            i
        } else {
            i + 1
        };
        let other = r.queries[i].target;
        assert(r.queries[i] == d.queries[i2]);
        assert(awaits_lookup(d.connecting, other));
        if q.kind == QueryKind::Connect {
            assert(connects(q, q.target));
            if other == q.target {
                assert(connects(r.queries[i], q.target));
                assert(is_looked_for(r.queries, q.target));
            }
            assert forall|x: ConnectView|
                d.connecting.contains(x) && x.target
                    != q.target implies #[trigger] r.connecting.contains(x) by {
                if q.coordinators.len() > 0 {
                    let m = d.connecting.index_of(x);
                    assert(d.connecting[m] == x);
                    assert(r.connecting[m] == x);
                }
            }
            lemma_awaits_others(d.connecting, r.connecting, q.target, other);
        }
    }
}

proof fn lemma_driven_connects(d: DhtView, qid: u64, now: u64)
    requires
        connects_ok(d),
        one_each(d.connecting),
    ensures
        connects_ok(driven(d, qid, now)),
{
    lemma_first(d.queries, with_qid(qid));
    if let Some(k) = first(d.queries, with_qid(qid)) {
        let q = d.queries[k];
        let flying = in_flight(q.contacts);
        let (contacts, out) = launched(q.contacts, 0, flying);
        if out.len() == 0 && flying == 0 {
            lemma_launches_none(q.contacts, 0, flying);
            lemma_ending_connects(d, k, answered(contacts, near(contacts)));
        } else {
            let r = QueryView { contacts, ..q };
            lemma_connects_update(d, k, r);
            lemma_requested(
                DhtView { queries: d.queries.update(k, r), ..d },
                qid,
                q.target,
                now,
                out,
            );
        }
    }
}

/// What a query that moves on makes of a connect that is no longer awaited.
proof fn lemma_driven_quiet(d: DhtView, qid: u64, now: u64, t: NodeId)
    requires
        connects_ok(d),
        one_each(d.connecting),
        !is_awaited(d.connecting, t),
    ensures
        !is_awaited(driven(d, qid, now).connecting, t),
        endings(driven(d, qid, now).events, t) == endings(d.events, t),
{
    lemma_not_looked_for(d, t);
    lemma_first(d.queries, with_qid(qid));
    if let Some(k) = first(d.queries, with_qid(qid)) {
        let q = d.queries[k];
        let flying = in_flight(q.contacts);
        let (contacts, out) = launched(q.contacts, 0, flying);
        let r = QueryView { contacts, ..q };
        if out.len() == 0 && flying == 0 {
            assert(!connects(q, t)) by {
                if connects(q, t) {
                    assert(connects(d.queries[k], t));
                }
            }
            lemma_finished_ends(
                DhtView { queries: d.queries.remove(k), ..d },
                r,
                answered(contacts, near(contacts)),
                t,
                now,
            );
        } else {
            lemma_requested(
                DhtView { queries: d.queries.update(k, r), ..d },
                qid,
                q.target,
                now,
                out,
            );
        }
    }
}

proof fn lemma_with_failure_connects(d: DhtView, k: int)
    requires
        connects_ok(d),
        0 <= k < d.pending.len(),
    ensures
        connects_ok(with_failure(d, k)),
        with_failure(d, k).connecting == d.connecting,
        with_failure(d, k).events == d.events,
{
    let p = d.pending[k];
    lemma_first(d.queries, with_qid(p.query));
    if let Some(j) = first(d.queries, with_qid(p.query)) {
        let q = d.queries[j];
        lemma_connects_update(
            d,
            j,
            QueryView { contacts: marked(q.contacts, p.contact, Status::Failed), ..q },
        );
    }
}

proof fn lemma_all_given_up_connects(d: DhtView, due: Seq<Pending>, now: u64)
    requires
        healthy(d),
        connects_ok(d),
    ensures
        connects_ok(all_given_up(d, due, now)),
    decreases due.len(),
{
    if due.len() > 0 {
        let rest = due.drop_last();
        lemma_all_given_up_connects(d, rest, now);
        lemma_all_given_up(d, rest, now);
        let e = all_given_up(d, rest, now);
        let rid = due.last().rid;
        lemma_first(e.pending, with_rid(rid));
        if let Some(k) = first(e.pending, with_rid(rid)) {
            lemma_with_failure_connects(e, k);
            lemma_driven_connects(with_failure(e, k), e.pending[k].query, now);
            assert(given_up(e, rid, now) == driven(with_failure(e, k), e.pending[k].query, now));
        }
    }
}

proof fn lemma_all_given_up_quiet(d: DhtView, due: Seq<Pending>, now: u64, t: NodeId)
    requires
        healthy(d),
        connects_ok(d),
        !is_awaited(d.connecting, t),
    ensures
        !is_awaited(all_given_up(d, due, now).connecting, t),
        endings(all_given_up(d, due, now).events, t) == endings(d.events, t),
    decreases due.len(),
{
    if due.len() > 0 {
        let rest = due.drop_last();
        lemma_all_given_up_quiet(d, rest, now, t);
        lemma_all_given_up_connects(d, rest, now);
        lemma_all_given_up(d, rest, now);
        let e = all_given_up(d, rest, now);
        let rid = due.last().rid;
        lemma_first(e.pending, with_rid(rid));
        if let Some(k) = first(e.pending, with_rid(rid)) {
            lemma_with_failure_connects(e, k);
            lemma_driven_quiet(with_failure(e, k), e.pending[k].query, now, t);
            assert(given_up(e, rid, now) == driven(with_failure(e, k), e.pending[k].query, now));
        }
    }
}

/// The queries kept look for each peer at most once.
proof fn lemma_kept_lookups(s: Seq<QueryView>, p: spec_fn(QueryView) -> bool, t: NodeId)
    requires
        looked_for_once(s, t),
    ensures
        looked_for_once(kept(s, p), t),
    decreases s.len(),
{
    if s.len() > 0 {
        let rest = s.drop_last();
        assert forall|i: int, j: int| 0 <= i < j < rest.len() implies !(connects(
            #[trigger] rest[i],
            t,
        ) && connects(#[trigger] rest[j], t)) by {
            assert(!(connects(s[i], t) && connects(s[j], t)));
        }
        lemma_kept_lookups(rest, p, t);
        lemma_kept(rest, p);
        let r = kept(s, p);
        let w = kept(rest, p);
        assert forall|i: int, j: int| 0 <= i < j < r.len() implies !(connects(#[trigger] r[i], t)
            && connects(#[trigger] r[j], t)) by {
            assert(r[i] == w[i]);
            if j < w.len() {
                assert(r[j] == w[j]);
            } else {
                assert(w.contains(w[i]));
                let m = rest.index_of(w[i]);
                assert(s[m] == w[i]);
                assert(!(connects(s[m], t) && connects(s[s.len() - 1], t)));
            }
        }
    }
}

proof fn lemma_timed_out_connects(d: DhtView, t: NodeId)
    requires
        connects_ok(d),
        one_each(d.connecting),
    ensures
        connects_ok(timed_out(d, t)),
{
    let r = timed_out(d, t);
    lemma_disconnected(d.connecting, t);
    lemma_kept(d.queries, not_connecting(t));
    assert forall|x: NodeId| #[trigger] looked_for_once(r.queries, x) by {
        assert(looked_for_once(d.queries, x));
        lemma_kept_lookups(d.queries, not_connecting(t), x);
    }
    assert forall|i: int| 0 <= i < r.queries.len() && (#[trigger] r.queries[i]).kind
        == QueryKind::Connect implies awaits_lookup(r.connecting, r.queries[i].target) by {
        let q = r.queries[i];
        assert(r.queries.contains(q));
        assert(not_connecting(t)(q));
        let j = d.queries.index_of(q);
        assert(d.queries[j] == q);
        assert(awaits_lookup(d.connecting, q.target));
        lemma_awaits_others(d.connecting, r.connecting, t, q.target);
    }
}

proof fn lemma_all_timed_out_connects(d: DhtView, stale: Seq<ConnectView>)
    requires
        healthy(d),
        connects_ok(d),
    ensures
        connects_ok(all_timed_out(d, stale)),
    decreases stale.len(),
{
    if stale.len() > 0 {
        let rest = stale.drop_last();
        lemma_all_timed_out_connects(d, rest);
        lemma_all_timed_out(d, rest);
        lemma_timed_out_connects(all_timed_out(d, rest), stale.last().target);
    }
}

proof fn lemma_with_query_connects(d: DhtView, target: NodeId, kind: QueryKind)
    requires
        connects_ok(d),
        kind == QueryKind::Connect ==> !is_looked_for(d.queries, target) && awaits_lookup(
            d.connecting,
            target,
        ),
    ensures
        connects_ok(with_query(d, target, kind)),
{
    let e = with_query(d, target, kind);
    let n = d.queries.len() as int;
    assert forall|i: int| 0 <= i < n implies (#[trigger] e.queries[i]) == d.queries[i] by {}
    assert forall|t: NodeId| #[trigger] looked_for_once(e.queries, t) by {
        assert(looked_for_once(d.queries, t));
        assert forall|i: int, j: int| 0 <= i < j < e.queries.len() implies !(connects(
            #[trigger] e.queries[i],
            t,
        ) && connects(#[trigger] e.queries[j], t)) by {
            assert(e.queries[i] == d.queries[i]);
            if j < n {
                assert(e.queries[j] == d.queries[j]);
            } else if connects(e.queries[i], t) && connects(e.queries[j], t) {
                assert(connects(d.queries[i], target));
                assert(is_looked_for(d.queries, target));
            }
        }
    }
    assert forall|i: int| 0 <= i < e.queries.len() && (#[trigger] e.queries[i]).kind
        == QueryKind::Connect implies awaits_lookup(e.connecting, e.queries[i].target) by {
        if i < n {
            assert(d.queries[i].kind == QueryKind::Connect);
        }
    }
}

proof fn lemma_with_connect_connects(
    d: DhtView,
    target: NodeId,
    data_addrs: Seq<SocketAddr>,
    now: u64,
)
    requires
        connects_ok(d),
        one_each(d.connecting),
        !is_awaited(d.connecting, target),
    ensures
        ({
            let e = with_connect(d, target, data_addrs, now);
            &&& connects_ok(e)
            &&& one_each(e.connecting)
            &&& awaits_lookup(e.connecting, target)
            &&& forall|t: NodeId|
                t != target && !is_awaited(d.connecting, t) ==> !#[trigger] is_awaited(
                    e.connecting,
                    t,
                )
        }),
{
    let e = with_connect(d, target, data_addrs, now);
    let n = d.connecting.len() as int;
    lemma_first(d.connecting, to_target(target));
    assert(first(d.connecting, to_target(target)) is None) by {
        if let Some(k) = first(d.connecting, to_target(target)) {
            assert(d.connecting[k].target == target);
        }
    }
    assert forall|i: int| 0 <= i < n implies (#[trigger] e.connecting[i]) == d.connecting[i] by {}
    assert(e.connecting[n].target == target && e.connecting[n].coordinator is None);
    assert forall|i: int, j: int| 0 <= i < j < e.connecting.len() implies (
    #[trigger] e.connecting[i]).target != (#[trigger] e.connecting[j]).target by {
        assert(e.connecting[i] == d.connecting[i]);
        if j < n {
            assert(e.connecting[j] == d.connecting[j]);
        }
    }
    assert forall|i: int| 0 <= i < e.queries.len() && (#[trigger] e.queries[i]).kind
        == QueryKind::Connect implies awaits_lookup(e.connecting, e.queries[i].target) by {
        let t = d.queries[i].target;
        assert(awaits_lookup(d.connecting, t));
        let k = choose|k: int|
            0 <= k < n && (#[trigger] d.connecting[k]).target == t && d.connecting[k].coordinator
                is None;
        assert(e.connecting[k] == d.connecting[k]);
    }
    assert forall|t: NodeId| t != target && !is_awaited(
        d.connecting,
        t,
    ) implies !#[trigger] is_awaited(e.connecting, t) by {
        if is_awaited(e.connecting, t) {
            let i = choose|i: int|
                0 <= i < e.connecting.len() && (#[trigger] e.connecting[i]).target == t;
            assert(d.connecting[i].target == t);
        }
    }
}

/// A reply taken from its coordinator ends a connect whose lookup has ended.
proof fn lemma_replied_connects(d: DhtView, t: NodeId, from: SocketAddr, other: NodeId)
    requires
        connects_ok(d),
        one_each(d.connecting),
        from_coordinator(d, t, from),
    ensures
        connects_ok(DhtView { connecting: disconnected(d.connecting, t), ..d }),
        is_awaited(d.connecting, t),
        !is_awaited(d.connecting, other) ==> !is_awaited(disconnected(d.connecting, t), other),
{
    let e = DhtView { connecting: disconnected(d.connecting, t), ..d };
    lemma_first(d.connecting, to_target(t));
    lemma_disconnected(d.connecting, t);
    let k = first(d.connecting, to_target(t))->Some_0;
    assert(d.connecting[k].target == t && d.connecting[k].coordinator is Some);
    assert forall|x: NodeId| #[trigger] looked_for_once(e.queries, x) by {
        assert(looked_for_once(d.queries, x));
    }
    assert forall|i: int| 0 <= i < e.queries.len() && (#[trigger] e.queries[i]).kind
        == QueryKind::Connect implies awaits_lookup(e.connecting, e.queries[i].target) by {
        let x = d.queries[i].target;
        assert(awaits_lookup(d.connecting, x));
        if x == t {
            let m = choose|m: int|
                0 <= m < d.connecting.len() && (#[trigger] d.connecting[m]).target == t
                    && d.connecting[m].coordinator is None;
            if m < k {
                assert(d.connecting[m].target != d.connecting[k].target);
            } else if k < m {
                assert(d.connecting[k].target != d.connecting[m].target);
            }
        }
        lemma_awaits_others(d.connecting, e.connecting, t, x);
    }
    if is_awaited(e.connecting, other) {
        let i = choose|i: int|
            0 <= i < e.connecting.len() && (#[trigger] e.connecting[i]).target == other;
        assert(e.connecting.contains(e.connecting[i]));
        assert(d.connecting.contains(e.connecting[i]));
        let m = d.connecting.index_of(e.connecting[i]);
        assert(d.connecting[m].target == other);
    }
}

proof fn lemma_with_answer_connects(
    d: DhtView,
    k: int,
    responder: Contact,
    contacts: Seq<Contact>,
    peers: Seq<Contact>,
)
    requires
        connects_ok(d),
        0 <= k < d.pending.len(),
    ensures
        connects_ok(with_answer(d, k, responder, contacts, peers)),
        with_answer(d, k, responder, contacts, peers).connecting == d.connecting,
        with_answer(d, k, responder, contacts, peers).events == d.events,
{
    let p = d.pending[k];
    lemma_first(d.queries, with_qid(p.query));
    if let Some(j) = first(d.queries, with_qid(p.query)) {
        lemma_connects_update(
            d,
            j,
            enriched(d.queries[j], d.id, p.contact, responder, contacts, peers),
        );
    }
}

/// What a datagram does to the node's connects, and to one that is not awaited.
proof fn lemma_input_connects(d: DhtView, from: SocketAddr, data: Seq<u8>, now: u64, t: NodeId)
    requires
        healthy(d),
        connects_ok(d),
    ensures
        connects_ok(input(d, from, data, now)),
        !is_awaited(d.connecting, t) ==> !is_awaited(input(d, from, data, now).connecting, t)
            && endings(input(d, from, data, now).events, t) == endings(d.events, t),
{
    let r = input(d, from, data, now);
    if let Ok(p) = read_packet(data) {
        let e = sighted(d, from, p);
        assert(connects_ok(e));
        match p.msg {
            MessageView::Nodes { contacts, peers } => {
                let responder = Contact { id: p.sender, addr: from };
                lemma_first(e.pending, with_rid(p.rid));
                if let Some(k) = first(e.pending, with_rid(p.rid)) {
                    let qid = e.pending[k].query;
                    let f = with_answer(e, k, responder, contacts, peers);
                    lemma_with_answer_connects(e, k, responder, contacts, peers);
                    lemma_driven_connects(f, qid, now);
                    if !is_awaited(d.connecting, t) {
                        lemma_driven_quiet(f, qid, now, t);
                    }
                    lemma_first(e.queries, with_qid(qid));
                    if first(e.queries, with_qid(qid)) is Some {
                        assert(r == driven(f, qid, now));
                    } else {
                        assert(r == f);
                    }
                }
            },
            MessageView::Signal {
                target,
                initiator,
                initiator_addr,
                data_addrs,
                firewall,
                is_reply,
            } => {
                if is_reply && initiator == e.id && from_coordinator(e, target, from) {
                    lemma_replied_connects(e, target, from, t);
                    let strategy = planned(advertised(e), firewall);
                    let event = EventView::Connected {
                        target,
                        outcome: outcome_of(strategy),
                        peer_data_addrs: data_addrs,
                        strategy: Some(strategy),
                    };
                    lemma_endings_push(e.events, event, t);
                } else if !is_reply && target == e.id {
                    let strategy = planned(advertised(e), firewall);
                    lemma_endings_push(
                        e.events,
                        EventView::IncomingConnect {
                            initiator,
                            initiator_data_addrs: data_addrs,
                            strategy,
                        },
                        t,
                    );
                }
            },
            _ => {},
        }
    }
}

/// What the timers do to the node's connects, and to one that is not awaited.
proof fn lemma_timers_connects(d: DhtView, now: u64, t: NodeId)
    requires
        healthy(d),
        connects_ok(d),
    ensures
        connects_ok(timers_fired(d, now)),
        !is_awaited(d.connecting, t) ==> !is_awaited(timers_fired(d, now).connecting, t)
            && endings(timers_fired(d, now).events, t) == endings(d.events, t),
{
    let late = kept(d.pending, due(now));
    lemma_all_given_up(d, late, now);
    lemma_all_given_up_connects(d, late, now);
    let d1 = all_given_up(d, late, now);
    let d2 = DhtView { probes: kept(d1.probes, live_probe(now)), ..d1 };
    assert(connects_ok(d2));
    let gone = kept(d2.connecting, stale(now));
    lemma_all_timed_out_connects(d2, gone);
    let d3 = all_timed_out(d2, gone);
    assert(connects_ok(timers_fired(d, now)));
    if !is_awaited(d.connecting, t) {
        lemma_all_given_up_quiet(d, late, now, t);
        lemma_kept(d2.connecting, stale(now));
        lemma_kept_one_each(d2.connecting, stale(now));
        if is_awaited(gone, t) {
            let i = choose|i: int| 0 <= i < gone.len() && (#[trigger] gone[i]).target == t;
            assert(gone.contains(gone[i]));
            let j = d2.connecting.index_of(gone[i]);
            assert(d1.connecting[j].target == t);
        }
        lemma_all_timed_out_ends(d2, gone, t);
        lemma_all_timed_out(d2, gone);
        if is_awaited(d3.connecting, t) {
            let i = choose|i: int|
                0 <= i < d3.connecting.len() && (#[trigger] d3.connecting[i]).target == t;
            assert(d3.connecting.contains(d3.connecting[i]));
            assert(d2.connecting.contains(d3.connecting[i]));
            let j = d2.connecting.index_of(d3.connecting[i]);
            assert(d1.connecting[j].target == t);
        }
    }
}

/// Whether a call starts a connect to a peer.
pub open spec fn starts_connect(c: DhtCall, t: NodeId) -> bool {
    c matches DhtCall::Connect { target, .. } && target == t
}

/// What a call does to the node's connects, and to one that is not awaited.
proof fn lemma_call_connects(d: DhtView, c: DhtCall, t: NodeId)
    requires
        healthy(d),
        connects_ok(d),
        has_room(d, c),
        starts_no_second(d, c),
    ensures
        connects_ok(after_call(d, c)),
        !is_awaited(d.connecting, t) && !starts_connect(c, t) ==> !is_awaited(
            after_call(d, c).connecting,
            t,
        ) && (c is PollEvent || endings(after_call(d, c).events, t) == endings(d.events, t)),
{
    let r = after_call(d, c);
    match c {
        DhtCall::Start { target, kind, now } => {
            lemma_start_call(d, target, kind, now);
            let e = with_query(d, target, kind);
            lemma_with_query_connects(d, target, kind);
            lemma_driven_connects(e, d.next_qid, now);
            if !is_awaited(d.connecting, t) {
                lemma_driven_quiet(e, d.next_qid, now, t);
            }
        },
        DhtCall::Connect { target, data_addrs, now } => {
            lemma_connect_call(d, target, data_addrs, now);
            let w = with_connect(d, target, data_addrs, now);
            lemma_not_looked_for(d, target);
            lemma_with_connect_connects(d, target, data_addrs, now);
            let e = with_query(w, target, QueryKind::Connect);
            lemma_with_query_connects(w, target, QueryKind::Connect);
            lemma_driven_connects(e, d.next_qid, now);
            assert(r == driven(e, d.next_qid, now));
            if !is_awaited(d.connecting, t) && !starts_connect(c, t) {
                assert(!is_awaited(w.connecting, t));
                lemma_driven_quiet(e, d.next_qid, now, t);
            }
        },
        DhtCall::Input { from, data, now } => {
            lemma_input_call(d, from, data, now);
            lemma_input_connects(d, from, data, now, t);
        },
        DhtCall::Timeout { now } => {
            lemma_timeout_call(d, now);
            lemma_timers_connects(d, now, t);
        },
        DhtCall::Sample { count, now } => {
            lemma_sample_call(d, count, now);
            lemma_pinged(d, nearest(d.table, d.id, count), now);
            assert(r.queries == d.queries && r.connecting == d.connecting);
        },
        DhtCall::Accept { initiator, data_addrs, now } => {
            lemma_accept_call(d, initiator, data_addrs, now);
            assert(r.queries == d.queries && r.connecting == d.connecting);
        },
        DhtCall::AddContact(contact) => {
            lemma_contact_call(d, contact);
        },
        _ => {
            assert(r.queries == d.queries && r.connecting == d.connecting);
        },
    }
}

proof fn lemma_history_connects(id: NodeId, calls: Seq<DhtCall>)
    requires
        all_have_room(fresh_node(id), calls),
        no_second_connects(fresh_node(id), calls),
    ensures
        connects_ok(after_calls(fresh_node(id), calls)),
        healthy(after_calls(fresh_node(id), calls)),
        rids_ok(after_calls(fresh_node(id), calls)),
    decreases calls.len(),
{
    reveal(node_sound);
    law_node_is_always_sound(id, calls);
    if calls.len() > 0 {
        let rest = calls.drop_last();
        lemma_history_connects(id, rest);
        lemma_call_connects(after_calls(fresh_node(id), rest), calls.last(), id);
    }
}

/// The ends of connects to a peer that a call reports.
pub open spec fn ends_in(d: DhtView, c: DhtCall, t: NodeId) -> Seq<EventView> {
    if c is PollEvent {
        Seq::empty()
    } else {
        endings(after_call(d, c).events, t).skip(endings(d.events, t).len() as int)
    }
}

/// The ends of connects to a peer that calls report.
pub open spec fn all_ends(d: DhtView, calls: Seq<DhtCall>, t: NodeId) -> Seq<EventView>
    decreases calls.len(),
{
    if calls.len() == 0 {
        Seq::empty()
    } else {
        all_ends(d, calls.drop_last(), t) + ends_in(
            after_calls(d, calls.drop_last()),
            calls.last(),
            t,
        )
    }
}

proof fn lemma_calls_follow(d: DhtView, calls: Seq<DhtCall>, later: Seq<DhtCall>)
    ensures
        after_calls(d, calls + later) == after_calls(after_calls(d, calls), later),
        all_have_room(d, calls + later) ==> all_have_room(d, calls),
        no_second_connects(d, calls + later) ==> no_second_connects(d, calls),
    decreases later.len(),
{
    if later.len() == 0 {
        assert(calls + later =~= calls);
    } else {
        lemma_calls_follow(d, calls, later.drop_last());
        assert((calls + later).drop_last() =~= calls + later.drop_last());
    }
}

/// A connect that has been resolved is not reported again, until one to the same peer is
/// started.
pub proof fn law_resolved_connect_stays_quiet(
    id: NodeId,
    calls: Seq<DhtCall>,
    later: Seq<DhtCall>,
    t: NodeId,
)
    requires
        all_have_room(fresh_node(id), calls + later),
        no_second_connects(fresh_node(id), calls + later),
        !is_awaited(after_calls(fresh_node(id), calls).connecting, t),
        forall|i: int| 0 <= i < later.len() ==> !starts_connect(#[trigger] later[i], t),
    ensures
        all_ends(after_calls(fresh_node(id), calls), later, t).len() == 0,
        !is_awaited(after_calls(fresh_node(id), calls + later).connecting, t),
    decreases later.len(),
{
    let d0 = fresh_node(id);
    let d = after_calls(d0, calls);
    if later.len() == 0 {
        assert(calls + later =~= calls);
    } else {
        let rest = later.drop_last();
        assert((calls + later).drop_last() =~= calls + rest);
        assert forall|i: int| 0 <= i < rest.len() implies !starts_connect(#[trigger] rest[i], t) by {
            assert(rest[i] == later[i]);
        }
        law_resolved_connect_stays_quiet(id, calls, rest, t);
        lemma_calls_follow(d0, calls, rest);
        lemma_history_connects(id, calls + rest);
        let e = after_calls(d0, calls + rest);
        assert(later.last() == later[later.len() - 1]);
        lemma_call_connects(e, later.last(), t);
        assert(e == after_calls(d, rest));
        assert(ends_in(e, later.last(), t).len() == 0);
    }
}

/// Whether a connect that was due has been reported exactly once.
pub open spec fn is_reported_once(before: DhtView, after: DhtView, t: NodeId) -> bool {
    ||| endings(after.events, t) == endings(before.events, t).push(
        ended(t, ConnectOutcome::TimedOut),
    )
    ||| is_looked_for(before.queries, t) && endings(after.events, t) == endings(
        before.events,
        t,
    ).push(ended(t, ConnectOutcome::NotFound))
}

proof fn lemma_timers_report(d: DhtView, now: u64, t: NodeId)
    requires
        healthy(d),
        rids_ok(d),
        connects_ok(d),
        has_room(d, DhtCall::Timeout { now }),
    ensures
        ({
            let r = timers_fired(d, now);
            &&& forall|u: u64| #[trigger] timer_at(r, u) ==> u > now
            &&& next_timer(r) matches Some(u) ==> u > now
            &&& is_overdue(d.connecting, t, now) ==> !is_awaited(r.connecting, t)
                && is_reported_once(d, r, t)
        }),
{
    let r = timers_fired(d, now);
    law_no_timer_is_left_behind(d, now);
    if is_overdue(d.connecting, t, now) {
        let k = choose|k: int|
            0 <= k < d.connecting.len() && (#[trigger] d.connecting[k]).target == t
                && d.connecting[k].deadline <= now;
        assert(looked_for_once(d.queries, t));
        law_due_connect_ends_once(d, now, k);
        lemma_first(r.connecting, to_target(t));
        assert(!is_awaited(r.connecting, t)) by {
            if is_awaited(r.connecting, t) {
                let i = choose|i: int|
                    0 <= i < r.connecting.len() && (#[trigger] r.connecting[i]).target == t;
                assert(to_target(t)(r.connecting[i]));
            }
        }
    }
}

proof fn lemma_last_call(d: DhtView, calls: Seq<DhtCall>, c: DhtCall)
    requires
        all_have_room(d, calls.push(c)),
        no_second_connects(d, calls.push(c)),
    ensures
        after_calls(d, calls.push(c)) == after_call(after_calls(d, calls), c),
        all_have_room(d, calls),
        no_second_connects(d, calls),
        has_room(after_calls(d, calls), c),
{
    let all = calls.push(c);
    assert(all.drop_last() =~= calls);
    assert(all.last() == c);
}

/// What seeding a contact makes of a node.
pub proof fn lemma_contact_call(d: DhtView, contact: Contact)
    ensures
        after_call(d, DhtCall::AddContact(contact)) == (DhtView {
            table: admitted(d.table, contact).0,
            ..d
        }),
{
    reveal(after_contact);
}

/// What starting a query makes of a node.
pub proof fn lemma_start_call(d: DhtView, target: NodeId, kind: QueryKind, now: u64)
    ensures
        after_call(d, DhtCall::Start { target, kind, now }) == started(d, target, kind, now),
{
    reveal(after_start);
}

/// What starting a connect makes of a node.
pub proof fn lemma_connect_call(
    d: DhtView,
    target: NodeId,
    data_addrs: Seq<SocketAddr>,
    now: u64,
)
    ensures
        after_call(d, DhtCall::Connect { target, data_addrs, now }) == connect_begun(
            d,
            target,
            data_addrs,
            now,
        ),
{
    reveal(after_connect);
}

/// What accepting a connect makes of a node.
pub proof fn lemma_accept_call(
    d: DhtView,
    initiator: NodeId,
    data_addrs: Seq<SocketAddr>,
    now: u64,
)
    ensures
        after_call(d, DhtCall::Accept { initiator, data_addrs, now }) == accepted(
            d,
            initiator,
            data_addrs,
            now,
        ),
{
    reveal(after_accept);
}

/// What a datagram makes of a node.
pub proof fn lemma_input_call(d: DhtView, from: SocketAddr, data: Seq<u8>, now: u64)
    ensures
        after_call(d, DhtCall::Input { from, data, now }) == input(d, from, data, now),
{
    reveal(after_input);
}

/// What probing peers makes of a node.
pub proof fn lemma_sample_call(d: DhtView, count: nat, now: u64)
    ensures
        after_call(d, DhtCall::Sample { count, now }) == pinged(
            d,
            nearest(d.table, d.id, count),
            now,
        ),
{
    reveal(after_sample);
}

/// What the timers make of a node.
pub proof fn lemma_timeout_call(d: DhtView, now: u64)
    ensures
        after_call(d, DhtCall::Timeout { now }) == timers_fired(d, now),
{
    reveal(after_timeout);
}

/// The timers over a node's whole history, in which no connect is started to a peer
/// while an earlier one is unresolved: once they have fired, none is left that was due,
/// and each connect that was due has been reported exactly once, with nowhere to punch
/// to: as timed out, or as not found if its lookup ended just then. Nothing that follows
/// reports it again.
pub proof fn law_timers_over_a_history(
    id: NodeId,
    calls: Seq<DhtCall>,
    now: u64,
    later: Seq<DhtCall>,
    t: NodeId,
)
    requires
        all_have_room(fresh_node(id), calls.push(DhtCall::Timeout { now }) + later),
        no_second_connects(fresh_node(id), calls.push(DhtCall::Timeout { now }) + later),
        forall|i: int| 0 <= i < later.len() ==> !starts_connect(#[trigger] later[i], t),
    ensures
        ({
            let d = after_calls(fresh_node(id), calls);
            let r = after_calls(fresh_node(id), calls.push(DhtCall::Timeout { now }));
            &&& r == timers_fired(d, now)
            &&& forall|u: u64| #[trigger] timer_at(r, u) ==> u > now
            &&& next_timer(r) matches Some(u) ==> u > now
            &&& is_overdue(d.connecting, t, now) ==> {
                &&& !is_awaited(r.connecting, t)
                &&& is_reported_once(d, r, t)
                &&& all_ends(r, later, t).len() == 0
            }
        }),
{
    let d = after_calls(fresh_node(id), calls);
    let c = DhtCall::Timeout { now };
    lemma_calls_follow(fresh_node(id), calls.push(c), later);
    lemma_last_call(fresh_node(id), calls, c);
    lemma_timeout_call(d, now);
    lemma_history_connects(id, calls);
    lemma_timers_report(d, now, t);
    if is_overdue(d.connecting, t, now) {
        law_resolved_connect_stays_quiet(id, calls.push(DhtCall::Timeout { now }), later, t);
    }
}

/// Every event that a node has to report is a true report.
pub proof fn lemma_reports_of_a_node(p: Past, d: DhtView, i: int)
    requires
        ids_lasted(p),
        d == lived(p),
        0 <= i < d.events.len(),
    ensures
        is_true_report(d.events[i], p),
{
    reveal(lived);
    law_lookups_over_a_history(p.id, p.calls);
}

/// What the timers leave, and report.
pub proof fn lemma_timers_of_a_node(p: Past, now: u64)
    requires
        ids_lasted(and_then(p, DhtCall::Timeout { now })),
    ensures
        forall|u: u64| #[trigger] timer_at(timers_fired(lived(p), now), u) ==> u > now,
        connects_singly(and_then(p, DhtCall::Timeout { now })) ==> all_reported_once(
            lived(p),
            timers_fired(lived(p), now),
            now,
        ),
{
    reveal(lived);
    let c = DhtCall::Timeout { now };
    let d0 = fresh_node(p.id);
    let none = Seq::<DhtCall>::empty();
    assert(p.calls.push(c) + none =~= p.calls.push(c));
    lemma_last_room(d0, p.calls, c);
    assert(node_sound(lived(p), all_asked(d0, p.calls), all_answered(d0, p.calls))) by {
        law_node_is_always_sound(p.id, p.calls);
    }
    assert(healthy(lived(p)) && rids_ok(lived(p))) by {
        reveal(node_sound);
    }
    law_no_timer_is_left_behind(lived(p), now);
    if connects_singly(and_then(p, c)) {
        assert forall|t: NodeId| #[trigger] is_overdue(
            lived(p).connecting,
            t,
            now,
        ) implies !is_awaited(timers_fired(lived(p), now).connecting, t) && is_reported_once(
            lived(p),
            timers_fired(lived(p), now),
            t,
        ) by {
            law_timers_over_a_history(p.id, p.calls, now, none, t);
        }
    }
}

proof fn lemma_last_room(d: DhtView, calls: Seq<DhtCall>, c: DhtCall)
    requires
        all_have_room(d, calls.push(c)),
    ensures
        all_have_room(d, calls),
        has_room(after_calls(d, calls), c),
{
    assert(calls.push(c).drop_last() =~= calls);
    assert(calls.push(c).last() == c);
}

} // verus!
