//! What nodes do for each other: what one sends, another takes in, and what comes of it.
use crate::addr::SocketAddr;
use crate::dht::{
    accepted, advertised, all_added, all_given_up, all_timed_out, answered, connect_begun,
    count_closer, driven, due, enriched, finished, from_initiator, given_up, in_flight, input,
    is_connect, is_next_timer, launched, listed, live_incoming, live_probe, marked, near,
    next_timer, not_connecting, not_of_connect, on_topic, own_record, pinged, probe_rid, records,
    refreshed, registered, remembered, requested, responsible, shortlisted, sighted, signal, stale,
    started, stored, timer_at, timers_fired, to_target, with_id, with_qid, with_rid, ConnectOutcome,
    ConnectView, Dht, DhtView, Event, EventView, IncomingState, Pending, Probe, QueryContact,
    QueryKind, QueryView, SignalView, Status, Transmit, TransmitView, ALPHA, CONNECT_TIMEOUT_MS,
    MAX_ANNOUNCE_TOPICS, MAX_PENDING_INCOMING, MAX_SEEN_INITIATORS, REQUEST_TIMEOUT_MS,
};
use crate::dht_history::{after_accept, after_input, law_each_asking_is_sent};
use crate::dht_laws::{
    healthy, law_announcement_is_found, law_reported_nearest_first, law_reported_record_is_gathered,
    lemma_all_added, lemma_all_given_up, lemma_all_given_up_pending, lemma_all_timed_out,
    lemma_kept_rids, lemma_launched, lemma_launches_none, lemma_marked, lemma_registered,
    lemma_requested, lookup_ok, nearest_first, rids_ok,
};
use crate::firewall::Firewall;
use crate::id::{dist, NodeId};
use crate::lists::{
    first, kept, lemma_first, lemma_first_at, lemma_first_none, lemma_kept, lemma_push_contains,
};
use crate::msg::{
    countable, law_packet_roundtrip, packet_bytes, read_packet, MessageView, PacketView,
};
use crate::punch::Strategy;
use crate::routing::{admitted, failed, law_closest, nearest, Contact, TableView, K};
use vstd::prelude::*;

verus! {

/// Whether a packet goes to an address and carries a message of a sender's.
pub open spec fn carries(t: TransmitView, to: SocketAddr, sender: NodeId, msg: MessageView) -> bool {
    &&& t.to == to
    &&& read_packet(t.data) matches Ok(p) && p.sender == sender && p.msg == msg
}

/// Whether the `k`-th query is the one with an id.
pub open spec fn is_query(d: DhtView, qid: u64, k: int) -> bool {
    &&& 0 <= k < d.queries.len()
    &&& d.queries[k].qid == qid
    &&& forall|j: int| 0 <= j < k ==> (#[trigger] d.queries[j]).qid != qid
}

/// Whether a lookup has nobody left to wait for, nor any of the nearest left to ask.
pub open spec fn is_over(s: Seq<QueryContact>) -> bool {
    &&& forall|i: int| 0 <= i < s.len() ==> (#[trigger] s[i]).status != Status::InFlight
    &&& forall|i: int| 0 <= i < s.len() && i < K ==> (#[trigger] s[i]).status != Status::Fresh
}

proof fn lemma_none_flying(s: Seq<QueryContact>)
    requires
        forall|i: int| 0 <= i < s.len() ==> (#[trigger] s[i]).status != Status::InFlight,
    ensures
        in_flight(s) == 0,
    decreases s.len(),
{
    if s.len() > 0 {
        assert forall|i: int| 0 <= i < s.drop_last().len() implies (
        #[trigger] s.drop_last()[i]).status != Status::InFlight by {
            assert(s.drop_last()[i] == s[i]);
        }
        lemma_none_flying(s.drop_last());
        assert(s.last() == s[s.len() - 1]);
    }
}

proof fn lemma_none_launched(s: Seq<QueryContact>, i: nat)
    requires
        forall|j: int| 0 <= j < s.len() && j < K ==> (#[trigger] s[j]).status != Status::Fresh,
    ensures
        launched(s, i, 0) == (s, Seq::<Contact>::empty()),
    decreases K - i,
{
    if i < s.len() && i < K {
        assert(s[i as int].status != Status::Fresh);
        lemma_none_launched(s, i + 1);
    }
}

proof fn lemma_ends(d: DhtView, qid: u64, now: u64, k: int)
    requires
        is_query(d, qid, k),
        is_over(d.queries[k].contacts),
    ensures
        ({
            let q = d.queries[k];
            driven(d, qid, now) == finished(
                DhtView { queries: d.queries.remove(k), ..d },
                q,
                answered(q.contacts, near(q.contacts)),
            )
        }),
{
    assert forall|j: int| 0 <= j < k implies !with_qid(qid)(#[trigger] d.queries[j]) by {}
    lemma_first_at(d.queries, with_qid(qid), k);
    lemma_none_flying(d.queries[k].contacts);
    lemma_none_launched(d.queries[k].contacts, 0);
}

proof fn lemma_registers_each(d: DhtView, topic: NodeId, out: Seq<Contact>)
    ensures
        ({
            let r = registered(d, topic, out);
            let n = d.outbox.len() as int;
            &&& r.outbox.len() == n + out.len()
            &&& r.outbox.take(n) == d.outbox
            &&& forall|i: int|
                0 <= i < out.len() ==> carries(
                    r.outbox[n + i],
                    (#[trigger] out[i]).addr,
                    d.id,
                    MessageView::Announce { topic },
                )
        }),
    decreases out.len(),
{
    let r = registered(d, topic, out);
    let n = d.outbox.len() as int;
    if out.len() == 0 {
        assert(r.outbox.take(n) =~= d.outbox);
    } else {
        let rest = out.drop_last();
        let before = registered(d, topic, rest);
        lemma_registers_each(d, topic, rest);
        lemma_registered(d, topic, rest);
        assert(r.outbox.take(n) =~= before.outbox.take(n));
        law_packet_roundtrip(
            PacketView {
                sender: d.id,
                rid: before.next_rid,
                msg: MessageView::Announce { topic },
            },
        );
        assert forall|i: int| 0 <= i < out.len() implies carries(
            r.outbox[n + i],
            (#[trigger] out[i]).addr,
            d.id,
            MessageView::Announce { topic },
        ) by {
            if i < rest.len() {
                assert(rest[i] == out[i]);
                assert(r.outbox[n + i] == before.outbox[n + i]);
            } else {
                assert(out[i] == out.last());
            }
        }
    }
}

/// Whether a packet sent since `n` announces a topic to an address.
pub open spec fn announces_to(
    r: DhtView,
    n: nat,
    to: SocketAddr,
    me: NodeId,
    topic: NodeId,
) -> bool {
    exists|j: int|
        n <= j < r.outbox.len() && carries(
            #[trigger] r.outbox[j],
            to,
            me,
            MessageView::Announce { topic },
        )
}

/// An announcement that ends has been sent to every one of the nearest nodes that
/// answered, and to nobody else; what was sent before stays, and the end is reported.
pub proof fn law_announcement_is_sent_to_all(d: DhtView, qid: u64, now: u64, k: int)
    requires
        is_query(d, qid, k),
        d.queries[k].kind == QueryKind::Announce,
        is_over(d.queries[k].contacts),
        nearest_first(d.queries[k].contacts, d.queries[k].target),
    ensures
        ({
            let q = d.queries[k];
            let s = q.contacts;
            let r = driven(d, qid, now);
            &&& r.outbox.take(d.outbox.len() as int) == d.outbox
            &&& forall|i: int|
                0 <= i < s.len() && i < K && (#[trigger] s[i]).status == Status::Done
                    ==> announces_to(r, d.outbox.len(), s[i].contact.addr, d.id, q.target)
            &&& forall|j: int|
                d.outbox.len() <= j < r.outbox.len() ==> exists|i: int|
                    0 <= i < s.len() && i < K && s[i].status == Status::Done && carries(
                        #[trigger] r.outbox[j],
                        (#[trigger] s[i]).contact.addr,
                        d.id,
                        MessageView::Announce { topic: q.target },
                    )
            &&& r.outbox.len() <= d.outbox.len() + K
            &&& r.events == d.events.push(EventView::AnnounceFinished { topic: q.target })
            &&& r.queries == d.queries.remove(k)
        }),
{
    let q = d.queries[k];
    let s = q.contacts;
    let r = driven(d, qid, now);
    let n = d.outbox.len() as int;
    let e = DhtView { queries: d.queries.remove(k), ..d };
    let closest = answered(s, near(s));
    lemma_ends(d, qid, now, k);
    lemma_registers_each(e, q.target, closest);
    lemma_registered(e, q.target, closest);
    law_reported_nearest_first(s, q.target, near(s));
    assert forall|i: int| 0 <= i < s.len() && i < K && (#[trigger] s[i]).status
        == Status::Done implies announces_to(
        r,
        d.outbox.len(),
        s[i].contact.addr,
        d.id,
        q.target,
    ) by {
        let c = s[i].contact;
        assert(s[i] == (QueryContact { contact: c, status: Status::Done }));
        assert(closest.contains(c));
        let m = closest.index_of(c);
        assert(closest[m] == c);
        assert(carries(r.outbox[n + m], c.addr, d.id, MessageView::Announce { topic: q.target }));
    }
    assert forall|j: int| n <= j < r.outbox.len() implies exists|i: int|
        0 <= i < s.len() && i < K && s[i].status == Status::Done && carries(
            #[trigger] r.outbox[j],
            (#[trigger] s[i]).contact.addr,
            d.id,
            MessageView::Announce { topic: q.target },
        ) by {
        let c = closest[j - n];
        assert(closest.contains(c));
        let i = choose|i: int|
            0 <= i < near(s) && #[trigger] s[i] == (QueryContact {
                contact: c,
                status: Status::Done,
            });
        assert(r.outbox[n + (j - n)] == r.outbox[j]);
        assert(s[i].contact.addr == c.addr);
    }
}

/// A lookup that ends reports all the announcers it gathered.
pub proof fn law_lookup_reports_its_records(d: DhtView, qid: u64, now: u64, k: int)
    requires
        is_query(d, qid, k),
        d.queries[k].kind == QueryKind::Lookup,
        is_over(d.queries[k].contacts),
    ensures
        driven(d, qid, now).events == d.events.push(
            EventView::LookupFinished {
                topic: d.queries[k].target,
                peers: d.queries[k].peers,
            },
        ),
        driven(d, qid, now).outbox == d.outbox,
{
    lemma_ends(d, qid, now, k);
}

/// Whether the `c`-th connect is the one to a peer.
pub open spec fn is_connect_to(d: DhtView, target: NodeId, c: int) -> bool {
    &&& 0 <= c < d.connecting.len()
    &&& d.connecting[c].target == target
    &&& forall|j: int| 0 <= j < c ==> (#[trigger] d.connecting[j]).target != target
}

/// A connect that has found who holds the peer's record asks the first of them to pass
/// on our own addresses and firewall type, and waits for the answer from there.
pub proof fn law_connect_asks_the_coordinator(d: DhtView, qid: u64, now: u64, k: int, c: int)
    requires
        is_query(d, qid, k),
        d.queries[k].kind == QueryKind::Connect,
        is_over(d.queries[k].contacts),
        d.queries[k].coordinators.len() > 0,
        is_connect_to(d, d.queries[k].target, c),
        d.connecting[c].data_addrs.len() <= u64::MAX,
    ensures
        ({
            let q = d.queries[k];
            let to = q.coordinators[0].addr;
            let r = driven(d, qid, now);
            &&& r.outbox.drop_last() == d.outbox
            &&& r.outbox.len() == d.outbox.len() + 1
            &&& r.outbox.last().to == to
            &&& read_packet(r.outbox.last().data) matches Ok(p) && p.sender == d.id && (p.msg matches
                MessageView::Signal {
                target,
                initiator,
                data_addrs,
                firewall,
                is_reply,
                ..
            } && target == q.target && initiator == d.id && data_addrs == d.connecting[c].data_addrs
                && firewall == advertised(d) && !is_reply)
            &&& r.connecting == d.connecting.update(
                c,
                ConnectView { coordinator: Some(to), ..d.connecting[c] },
            )
            &&& r.events == d.events
        }),
{
    lemma_ends(d, qid, now, k);
    let q = d.queries[k];
    let to = q.coordinators[0].addr;
    assert forall|j: int| 0 <= j < c implies !to_target(q.target)(#[trigger] d.connecting[j]) by {}
    lemma_first_at(d.connecting, to_target(q.target), c);
    let r = driven(d, qid, now);
    assert(r.outbox.drop_last() =~= d.outbox);
    law_packet_roundtrip(
        PacketView {
            sender: d.id,
            rid: d.next_rid,
            msg: MessageView::Signal {
                target: q.target,
                initiator: d.id,
                initiator_addr: to,
                data_addrs: d.connecting[c].data_addrs,
                firewall: advertised(d),
                is_reply: false,
            },
        },
    );
}

/// A connect whose lookup finds nobody who holds the peer's record is over, and the
/// peer reported as not found.
pub proof fn law_connect_without_a_record_ends(d: DhtView, qid: u64, now: u64, k: int)
    requires
        is_query(d, qid, k),
        d.queries[k].kind == QueryKind::Connect,
        is_over(d.queries[k].contacts),
        d.queries[k].coordinators.len() == 0,
    ensures
        driven(d, qid, now).events == d.events.push(
            EventView::Connected {
                target: d.queries[k].target,
                outcome: ConnectOutcome::NotFound,
                peer_data_addrs: Seq::empty(),
                strategy: None,
            },
        ),
        driven(d, qid, now).outbox == d.outbox,
{
    lemma_ends(d, qid, now, k);
}

proof fn lemma_shortlisted_has(s: Seq<QueryContact>, c: QueryContact, target: NodeId, x: QueryContact)
    ensures
        shortlisted(s, c, target).contains(x) <==> s.contains(x) || x == c,
    decreases s.len(),
{
    if s.len() == 0 || dist(s.last().contact.id, target) <= dist(c.contact.id, target) {
        lemma_push_contains(s, c, x);
    } else {
        let rest = s.drop_last();
        lemma_shortlisted_has(rest, c, target, x);
        lemma_push_contains(shortlisted(rest, c, target), s.last(), x);
        lemma_push_contains(rest, s.last(), x);
        assert(s =~= rest.push(s.last()));
    }
}

/// Whether a shortlist lists a contact.
pub open spec fn lists(s: Seq<QueryContact>, id: NodeId) -> bool {
    exists|j: int| 0 <= j < s.len() && (#[trigger] s[j]).contact.id == id
}

proof fn lemma_added_lists(
    s: Seq<QueryContact>,
    new: Seq<Contact>,
    target: NodeId,
    me: Option<NodeId>,
)
    ensures
        ({
            let r = all_added(s, new, target, me);
            &&& forall|x: QueryContact| s.contains(x) ==> #[trigger] r.contains(x)
            &&& forall|i: int|
                0 <= i < new.len() && me != Some((#[trigger] new[i]).id) ==> lists(r, new[i].id)
        }),
    decreases new.len(),
{
    if new.len() > 0 {
        let rest = new.drop_last();
        let c = new.last();
        lemma_added_lists(s, rest, target, me);
        let before = all_added(s, rest, target, me);
        let r = all_added(s, new, target, me);
        lemma_first(before, listed(c.id));
        let fresh = QueryContact { contact: c, status: Status::Fresh };
        assert forall|x: QueryContact| before.contains(x) implies #[trigger] r.contains(x) by {
            lemma_shortlisted_has(before, fresh, target, x);
        }
        assert forall|i: int| 0 <= i < new.len() && me != Some((#[trigger] new[i]).id) implies lists(
            r,
            new[i].id,
        ) by {
            if i < rest.len() {
                assert(rest[i] == new[i]);
                assert(lists(before, new[i].id));
                let j = choose|j: int|
                    0 <= j < before.len() && (#[trigger] before[j]).contact.id == new[i].id;
                assert(before.contains(before[j]));
                assert(r.contains(before[j]));
                let m = r.index_of(before[j]);
                assert(r[m].contact.id == new[i].id);
            } else {
                match first(before, listed(c.id)) {
                    Some(m) => {
                        assert(r[m].contact.id == c.id);
                    },
                    None => {
                        lemma_shortlisted_has(before, fresh, target, fresh);
                        let m = r.index_of(fresh);
                        assert(r[m].contact.id == c.id);
                    },
                }
            }
        }
    }
}

/// Whether the `k`-th request that awaits an answer is the one with an id.
pub open spec fn is_request(d: DhtView, rid: u64, k: int) -> bool {
    &&& 0 <= k < d.pending.len()
    &&& d.pending[k].rid == rid
    &&& forall|j: int| 0 <= j < k ==> (#[trigger] d.pending[j]).rid != rid
}

/// Whether a query has taken in an answer: the contact that was asked has answered, all
/// the contacts named are on the list, beside those that were, all the announcers named
/// are gathered, and a node that named the target's own record can pass a connect on.
pub open spec fn has_taken_in(
    q: QueryView,
    r: QueryView,
    me: NodeId,
    asked: NodeId,
    responder: Contact,
    contacts: Seq<Contact>,
    peers: Seq<Contact>,
) -> bool {
    &&& r.qid == q.qid && r.target == q.target && r.kind == q.kind
    &&& lists(q.contacts, asked) ==> exists|j: int|
        0 <= j < r.contacts.len() && (#[trigger] r.contacts[j]).contact.id == asked
            && r.contacts[j].status == Status::Done
    &&& forall|i: int|
        0 <= i < q.contacts.len() ==> lists(r.contacts, (#[trigger] q.contacts[i]).contact.id)
    &&& forall|i: int|
        0 <= i < contacts.len() && (#[trigger] contacts[i]).id != me ==> lists(
            r.contacts,
            contacts[i].id,
        )
    &&& forall|i: int|
        0 <= i < peers.len() && (forall|j: int|
            i < j < peers.len() ==> (#[trigger] peers[j]).id != peers[i].id) ==> r.peers.contains(
            #[trigger] peers[i],
        )
    &&& (exists|i: int| 0 <= i < peers.len() && (#[trigger] peers[i]).id == q.target) ==> exists|
        j: int,
    |
        0 <= j < r.coordinators.len() && (#[trigger] r.coordinators[j]).id == responder.id
    &&& forall|j: int|
        0 <= j < r.coordinators.len() ==> q.coordinators.contains(#[trigger] r.coordinators[j]) || (
        r.coordinators[j] == responder && exists|i: int|
            0 <= i < peers.len() && (#[trigger] peers[i]).id == q.target)
}

/// An answer to a request is taken in by the query that made it, in full, and the query
/// moves on.
pub proof fn law_answer_is_taken_in(
    d: DhtView,
    from: SocketAddr,
    p: PacketView,
    now: u64,
    contacts: Seq<Contact>,
    peers: Seq<Contact>,
    k: int,
    n: int,
)
    requires
        p.msg == (MessageView::Nodes { contacts, peers }),
        countable(p.msg),
        is_request(d, p.rid, k),
        is_query(d, d.pending[k].query, n),
    ensures
        exists|q: QueryView, t: TableView|
            {
                &&& #[trigger] has_taken_in(
                    d.queries[n],
                    q,
                    d.id,
                    d.pending[k].contact,
                    Contact { id: p.sender, addr: from },
                    contacts,
                    peers,
                )
                &&& input(d, from, packet_bytes(p), now) == #[trigger] driven(
                    DhtView {
                        queries: d.queries.update(n, q),
                        pending: d.pending.remove(k),
                        table: t,
                        ..d
                    },
                    q.qid,
                    now,
                )
            },
{
    law_packet_roundtrip(p);
    let e = sighted(d, from, p);
    let responder = Contact { id: p.sender, addr: from };
    let q = d.queries[n];
    let a = d.pending[k];
    let r = enriched(q, d.id, a.contact, responder, contacts, peers);
    assert forall|j: int| 0 <= j < k implies !with_rid(p.rid)(#[trigger] e.pending[j]) by {}
    lemma_first_at(e.pending, with_rid(p.rid), k);
    assert forall|j: int| 0 <= j < n implies !with_qid(a.query)(#[trigger] e.queries[j]) by {}
    lemma_first_at(e.queries, with_qid(a.query), n);
    let m = marked(q.contacts, a.contact, Status::Done);
    lemma_first(q.contacts, listed(a.contact));
    lemma_added_lists(m, contacts, q.target, Some(d.id));
    lemma_first(peers, with_id(q.target));
    lemma_first(q.coordinators, with_id(responder.id));
    assert(has_taken_in(q, r, d.id, a.contact, responder, contacts, peers)) by {
        if lists(q.contacts, a.contact) {
            let i = choose|i: int|
                0 <= i < q.contacts.len() && (#[trigger] q.contacts[i]).contact.id == a.contact;
            assert(listed(a.contact)(q.contacts[i]));
            let f = first(q.contacts, listed(a.contact))->Some_0;
            assert(m.contains(m[f]));
            assert(r.contacts.contains(m[f]));
            let j = r.contacts.index_of(m[f]);
            assert(r.contacts[j].contact.id == a.contact && r.contacts[j].status == Status::Done);
        }
        assert forall|i: int| 0 <= i < q.contacts.len() implies lists(
            r.contacts,
            (#[trigger] q.contacts[i]).contact.id,
        ) by {
            assert(m.contains(m[i]));
            assert(r.contacts.contains(m[i]));
            let j = r.contacts.index_of(m[i]);
            assert(r.contacts[j].contact.id == q.contacts[i].contact.id);
        }
        assert forall|i: int|
            0 <= i < peers.len() && (forall|j: int|
                i < j < peers.len() ==> (#[trigger] peers[j]).id
                    != peers[i].id) implies r.peers.contains(#[trigger] peers[i]) by {
            law_reported_record_is_gathered(q.peers, peers, i);
        }
        if exists|i: int| 0 <= i < peers.len() && (#[trigger] peers[i]).id == q.target {
            let i = choose|i: int| 0 <= i < peers.len() && (#[trigger] peers[i]).id == q.target;
            assert(with_id(q.target)(peers[i]));
            match first(q.coordinators, with_id(responder.id)) {
                Some(f) => {
                    assert(r.coordinators[f].id == responder.id);
                },
                None => {
                    assert(r.coordinators[q.coordinators.len() as int] == responder);
                },
            }
        }
        assert forall|j: int| 0 <= j < r.coordinators.len() implies q.coordinators.contains(
            #[trigger] r.coordinators[j],
        ) || (r.coordinators[j] == responder && exists|i: int|
            0 <= i < peers.len() && (#[trigger] peers[i]).id == q.target) by {
            if j < q.coordinators.len() {
                assert(r.coordinators[j] == q.coordinators[j]);
            } else {
                let f = first(peers, with_id(q.target))->Some_0;
                assert(peers[f].id == q.target);
            }
        }
    }
    assert(input(d, from, packet_bytes(p), now) == driven(
        DhtView {
            queries: d.queries.update(n, r),
            pending: d.pending.remove(k),
            table: e.table,
            ..d
        },
        r.qid,
        now,
    ));
}

/// Whether a punch role is the one for our own firewall type towards a peer's: we dial
/// if either is open or both are predictable, we spray if we are the predictable side,
/// we open sockets if we are the other, and neither can if both are not predictable.
pub open spec fn is_role(own: Firewall, peer: Firewall, s: Strategy) -> bool {
    &&& s == Strategy::Direct <==> own == Firewall::Open || peer == Firewall::Open || (own
        == Firewall::Consistent && peer == Firewall::Consistent)
    &&& s == Strategy::SprayRandomPorts <==> own == Firewall::Consistent && peer == Firewall::Random
    &&& s == Strategy::OpenBirthdaySockets <==> own == Firewall::Random && peer
        == Firewall::Consistent
    &&& s == Strategy::Relay <==> own == Firewall::Random && peer == Firewall::Random
}

/// The initiator of a connect takes its own role from the answer, whatever the types of
/// the two firewalls, and learns where the peer is to be reached.
pub proof fn law_initiator_takes_its_own_role(
    d: DhtView,
    from: SocketAddr,
    p: PacketView,
    now: u64,
    c: int,
    s: SignalView,
)
    requires
        p.msg == signal(s, true),
        countable(p.msg),
        s.initiator == d.id,
        is_connect_to(d, s.target, c),
        d.connecting[c].coordinator == Some(from),
    ensures
        ({
            let r = input(d, from, packet_bytes(p), now);
            &&& r.events.drop_last() == d.events
            &&& r.events.len() == d.events.len() + 1
            &&& r.connecting == d.connecting.remove(c)
            &&& r.events.last() matches EventView::Connected {
                target,
                outcome,
                peer_data_addrs,
                strategy,
            } && target == s.target && peer_data_addrs == s.data_addrs && (strategy matches Some(
                role,
            ) && is_role(advertised(d), s.firewall, role) && (outcome == ConnectOutcome::Direct
                <==> role == Strategy::Direct) && (outcome == ConnectOutcome::Relayed <==> role
                == Strategy::Relay) && (outcome == ConnectOutcome::Punched <==> role
                == Strategy::SprayRandomPorts || role == Strategy::OpenBirthdaySockets))
        }),
{
    law_packet_roundtrip(p);
    assert forall|j: int| 0 <= j < c implies !to_target(s.target)(#[trigger] d.connecting[j]) by {}
    lemma_first_at(d.connecting, to_target(s.target), c);
    let r = input(d, from, packet_bytes(p), now);
    assert(r.events.drop_last() =~= d.events);
}

/// The target of a connect takes its own role from the request, whatever the types of
/// the two firewalls, learns where the initiator is to be reached, and keeps the request
/// until it is answered or too old, to answer it through whoever passed it on.
pub proof fn law_target_takes_its_own_role(
    d: DhtView,
    from: SocketAddr,
    p: PacketView,
    now: u64,
    s: SignalView,
)
    requires
        p.msg == signal(s, false),
        countable(p.msg),
        s.target == d.id,
        forall|j: int|
            0 <= j < d.incoming.len() ==> (#[trigger] d.incoming[j]).initiator != s.initiator,
        d.incoming.len() < MAX_PENDING_INCOMING,
        now + CONNECT_TIMEOUT_MS <= u64::MAX,
    ensures
        ({
            let r = input(d, from, packet_bytes(p), now);
            &&& r.events.drop_last() == d.events
            &&& r.events.len() == d.events.len() + 1
            &&& r.outbox == d.outbox
            &&& r.incoming == d.incoming.push(
                IncomingState {
                    initiator: s.initiator,
                    coordinator: from,
                    initiator_addr: s.initiator_addr,
                    deadline: (now + CONNECT_TIMEOUT_MS) as u64,
                },
            )
            &&& r.events.last() matches EventView::IncomingConnect {
                initiator,
                initiator_data_addrs,
                strategy,
            } && initiator == s.initiator && initiator_data_addrs == s.data_addrs && is_role(
                advertised(d),
                s.firewall,
                strategy,
            )
        }),
{
    law_packet_roundtrip(p);
    assert forall|j: int| 0 <= j < d.incoming.len() implies !from_initiator(s.initiator)(
        #[trigger] d.incoming[j],
    ) by {}
    lemma_first_none(d.incoming, from_initiator(s.initiator));
    let r = input(d, from, packet_bytes(p), now);
    assert(r.events.drop_last() =~= d.events);
}

/// Whether a node holds a peer's own record, and one only, at an address.
pub open spec fn has_own_record(d: DhtView, target: NodeId, addr: SocketAddr, a: int, b: int) -> bool {
    &&& 0 <= a < d.announces.len()
    &&& d.announces[a].topic == target
    &&& forall|j: int| 0 <= j < a ==> (#[trigger] d.announces[j]).topic != target
    &&& 0 <= b < d.announces[a].peers.len()
    &&& d.announces[a].peers[b] == (Contact { id: target, addr })
    &&& forall|j: int|
        0 <= j < d.announces[a].peers.len() && j != b ==> (#[trigger] d.announces[a].peers[j]).id
            != target
}

proof fn lemma_own_record(d: DhtView, target: NodeId, addr: SocketAddr, a: int, b: int)
    requires
        has_own_record(d, target, addr, a, b),
    ensures
        own_record(d, target) == Some(addr),
        records(d, target) == d.announces[a].peers,
{
    assert forall|j: int| 0 <= j < a implies !on_topic(target)(#[trigger] d.announces[j]) by {}
    lemma_first_at(d.announces, on_topic(target), a);
    assert forall|j: int| 0 <= j < b implies !with_id(target)(
        #[trigger] d.announces[a].peers[j],
    ) by {}
    lemma_first_at(d.announces[a].peers, with_id(target), b);
}

/// A node that holds the target's record passes a request on to it there, unchanged but
/// for the initiator's address, which it fills in as it sees it.
pub proof fn law_request_is_passed_on(
    d: DhtView,
    from: SocketAddr,
    p: PacketView,
    now: u64,
    s: SignalView,
    addr: SocketAddr,
    a: int,
    b: int,
)
    requires
        p.msg == signal(s, false),
        countable(p.msg),
        s.target != d.id,
        has_own_record(d, s.target, addr, a, b),
    ensures
        ({
            let r = input(d, from, packet_bytes(p), now);
            &&& r.outbox.drop_last() == d.outbox
            &&& r.outbox.len() == d.outbox.len() + 1
            &&& carries(
                r.outbox.last(),
                addr,
                d.id,
                MessageView::Signal {
                    target: s.target,
                    initiator: s.initiator,
                    initiator_addr: from,
                    data_addrs: s.data_addrs,
                    firewall: s.firewall,
                    is_reply: false,
                },
            )
            &&& r.initiators.contains((s.target, from))
            &&& r.announces == d.announces
            &&& r.id == d.id
        }),
{
    law_packet_roundtrip(p);
    let e = sighted(d, from, p);
    lemma_own_record(e, s.target, addr, a, b);
    let r = input(d, from, packet_bytes(p), now);
    assert(r.outbox.drop_last() =~= d.outbox);
    law_packet_roundtrip(
        PacketView {
            sender: d.id,
            rid: d.next_rid,
            msg: signal(SignalView { initiator_addr: from, ..s }, false),
        },
    );
    let key = (s.target, from);
    if !d.initiators.contains(key) {
        if d.initiators.len() >= MAX_SEEN_INITIATORS {
            lemma_push_contains(d.initiators.drop_first(), key, key);
        } else {
            lemma_push_contains(d.initiators, key, key);
        }
    }
}

/// An answer from where the target's record says it is goes back, unchanged, to the
/// address that asked for the target.
pub proof fn law_answer_is_passed_back(
    d: DhtView,
    from: SocketAddr,
    p: PacketView,
    now: u64,
    s: SignalView,
    a: int,
    b: int,
)
    requires
        p.msg == signal(s, true),
        countable(p.msg),
        s.initiator != d.id,
        has_own_record(d, s.target, from, a, b),
        d.initiators.contains((s.target, s.initiator_addr)),
    ensures
        ({
            let r = input(d, from, packet_bytes(p), now);
            &&& r.outbox.drop_last() == d.outbox
            &&& r.outbox.len() == d.outbox.len() + 1
            &&& carries(
                r.outbox.last(),
                s.initiator_addr,
                d.id,
                MessageView::Signal {
                    target: s.target,
                    initiator: s.initiator,
                    initiator_addr: s.initiator_addr,
                    data_addrs: s.data_addrs,
                    firewall: s.firewall,
                    is_reply: true,
                },
            )
        }),
{
    law_packet_roundtrip(p);
    let e = sighted(d, from, p);
    lemma_own_record(e, s.target, from, a, b);
    assert(records(e, s.target)[b].id == s.target && records(e, s.target)[b].addr == from);
    let r = input(d, from, packet_bytes(p), now);
    assert(r.outbox.drop_last() =~= d.outbox);
    law_packet_roundtrip(
        PacketView { sender: d.id, rid: d.next_rid, msg: signal(s, true) },
    );
}

/// A request that is accepted in time is answered, to whoever passed it on, with our own
/// addresses and firewall type, for the initiator where it was seen.
pub proof fn law_accepting_sends_the_answer(
    d: DhtView,
    initiator: NodeId,
    data_addrs: Seq<SocketAddr>,
    now: u64,
    k: int,
)
    requires
        0 <= k < d.incoming.len(),
        d.incoming[k].initiator == initiator,
        forall|j: int| 0 <= j < k ==> (#[trigger] d.incoming[j]).initiator != initiator,
        now < d.incoming[k].deadline,
        data_addrs.len() <= u64::MAX,
    ensures
        ({
            let r = accepted(d, initiator, data_addrs, now);
            &&& r.outbox.drop_last() == d.outbox
            &&& r.outbox.len() == d.outbox.len() + 1
            &&& carries(
                r.outbox.last(),
                d.incoming[k].coordinator,
                d.id,
                MessageView::Signal {
                    target: d.id,
                    initiator,
                    initiator_addr: d.incoming[k].initiator_addr,
                    data_addrs,
                    firewall: advertised(d),
                    is_reply: true,
                },
            )
            &&& r.incoming == d.incoming.remove(k)
            &&& r.events == d.events
        }),
{
    assert forall|j: int| 0 <= j < k implies !from_initiator(initiator)(
        #[trigger] d.incoming[j],
    ) by {}
    lemma_first_at(d.incoming, from_initiator(initiator), k);
    let r = accepted(d, initiator, data_addrs, now);
    assert(r.outbox.drop_last() =~= d.outbox);
    law_packet_roundtrip(
        PacketView {
            sender: d.id,
            rid: d.next_rid,
            msg: MessageView::Signal {
                target: d.id,
                initiator,
                initiator_addr: d.incoming[k].initiator_addr,
                data_addrs,
                firewall: advertised(d),
                is_reply: true,
            },
        },
    );
}

/// What passing a request on comes to.
proof fn lemma_passed_on(
    d: DhtView,
    from: SocketAddr,
    p: PacketView,
    now: u64,
    s: SignalView,
    addr: SocketAddr,
    a: int,
    b: int,
) -> (forwarded: PacketView)
    requires
        p.msg == signal(s, false),
        countable(p.msg),
        s.target != d.id,
        has_own_record(d, s.target, addr, a, b),
    ensures
        ({
            let r = after_input(d, from, packet_bytes(p), now);
            let s1 = SignalView { initiator_addr: from, ..s };
            &&& forwarded.sender == d.id
            &&& forwarded.msg == signal(s1, false)
            &&& countable(forwarded.msg)
            &&& r.outbox.last() == (TransmitView { to: addr, data: packet_bytes(forwarded) })
            &&& r.initiators.contains((s.target, from))
            &&& has_own_record(r, s.target, addr, a, b)
            &&& r.id == d.id
        }),
{
    reveal(after_input);
    law_packet_roundtrip(p);
    lemma_own_record(sighted(d, from, p), s.target, addr, a, b);
    law_request_is_passed_on(d, from, p, now, s, addr, a, b);
    PacketView {
        sender: d.id,
        rid: d.next_rid,
        msg: signal(SignalView { initiator_addr: from, ..s }, false),
    }
}

/// What accepting a request that was just taken in comes to.
proof fn lemma_told_and_agreed(
    d: DhtView,
    from: SocketAddr,
    p: PacketView,
    now: u64,
    s: SignalView,
    answer: Seq<SocketAddr>,
) -> (reply: PacketView)
    requires
        p.msg == signal(s, false),
        countable(p.msg),
        s.target == d.id,
        forall|j: int|
            0 <= j < d.incoming.len() ==> (#[trigger] d.incoming[j]).initiator != s.initiator,
        d.incoming.len() < MAX_PENDING_INCOMING,
        answer.len() <= u64::MAX,
        now + CONNECT_TIMEOUT_MS <= u64::MAX,
    ensures
        ({
            let told = after_input(d, from, packet_bytes(p), now);
            let agreed = after_accept(told, s.initiator, answer, now);
            let s2 = SignalView { data_addrs: answer, firewall: advertised(d), ..s };
            &&& reply.sender == d.id
            &&& reply.msg == signal(s2, true)
            &&& countable(reply.msg)
            &&& agreed.outbox.last() == (TransmitView { to: from, data: packet_bytes(reply) })
            &&& told.events.len() == d.events.len() + 1
            &&& told.events.last() matches EventView::IncomingConnect {
                initiator,
                initiator_data_addrs,
                strategy,
            } && initiator == s.initiator && initiator_data_addrs == s.data_addrs && is_role(
                advertised(d),
                s.firewall,
                strategy,
            )
        }),
{
    reveal(after_input);
    reveal(after_accept);
    law_packet_roundtrip(p);
    let told = input(d, from, packet_bytes(p), now);
    law_target_takes_its_own_role(d, from, p, now, s);
    assert forall|j: int| 0 <= j < d.incoming.len() implies !from_initiator(s.initiator)(
        #[trigger] told.incoming[j],
    ) by {
        assert(told.incoming[j] == d.incoming[j]);
    }
    lemma_first_at(told.incoming, from_initiator(s.initiator), d.incoming.len() as int);
    PacketView {
        sender: d.id,
        rid: told.next_rid,
        msg: signal(
            SignalView { data_addrs: answer, firewall: advertised(d), ..s },
            true,
        ),
    }
}

/// What passing an answer back comes to.
proof fn lemma_passed_back(
    d: DhtView,
    from: SocketAddr,
    p: PacketView,
    now: u64,
    s: SignalView,
    a: int,
    b: int,
) -> (forwarded: PacketView)
    requires
        p.msg == signal(s, true),
        countable(p.msg),
        s.initiator != d.id,
        has_own_record(d, s.target, from, a, b),
        d.initiators.contains((s.target, s.initiator_addr)),
    ensures
        forwarded.sender == d.id,
        forwarded.msg == p.msg,
        after_input(d, from, packet_bytes(p), now).outbox.last() == (TransmitView {
            to: s.initiator_addr,
            data: packet_bytes(forwarded),
        }),
{
    reveal(after_input);
    law_packet_roundtrip(p);
    let e = sighted(d, from, p);
    lemma_own_record(e, s.target, from, a, b);
    assert(records(e, s.target)[b].id == s.target && records(e, s.target)[b].addr == from);
    PacketView { sender: d.id, rid: d.next_rid, msg: signal(s, true) }
}

/// What an answer comes to for the initiator.
proof fn lemma_answered(
    d: DhtView,
    from: SocketAddr,
    p: PacketView,
    now: u64,
    c: int,
    s: SignalView,
)
    requires
        p.msg == signal(s, true),
        countable(p.msg),
        s.initiator == d.id,
        is_connect_to(d, s.target, c),
        d.connecting[c].coordinator == Some(from),
    ensures
        ({
            let r = after_input(d, from, packet_bytes(p), now);
            &&& r.events.len() == d.events.len() + 1
            &&& r.connecting == d.connecting.remove(c)
            &&& r.events.last() matches EventView::Connected {
                target,
                outcome,
                peer_data_addrs,
                strategy,
            } && target == s.target && peer_data_addrs == s.data_addrs && (strategy matches Some(
                role,
            ) && is_role(advertised(d), s.firewall, role) && (outcome == ConnectOutcome::Punched
                <==> role == Strategy::SprayRandomPorts || role == Strategy::OpenBirthdaySockets))
        }),
{
    reveal(after_input);
    law_initiator_takes_its_own_role(d, from, p, now, c, s);
}

/// A whole connect, passed through a node that holds the target's record: the target is
/// told of the initiator and its addresses, the initiator of the target's, and their two
/// roles fit: both dial, both give up, or one sprays exactly if the other opens sockets.
pub proof fn law_connect_ends_in_matching_roles(
    initiator: DhtView,
    coordinator: DhtView,
    target: DhtView,
    addr_i: SocketAddr,
    addr_c: SocketAddr,
    addr_t: SocketAddr,
    p: PacketView,
    s: SignalView,
    answer: Seq<SocketAddr>,
    now: u64,
    a: int,
    b: int,
    c: int,
)
    requires
        p.msg == signal(s, false),
        countable(p.msg),
        s.target == target.id,
        s.initiator == initiator.id,
        s.firewall == advertised(initiator),
        initiator.id != coordinator.id,
        target.id != coordinator.id,
        has_own_record(coordinator, target.id, addr_t, a, b),
        is_connect_to(initiator, target.id, c),
        initiator.connecting[c].coordinator == Some(addr_c),
        forall|j: int|
            0 <= j < target.incoming.len() ==> (#[trigger] target.incoming[j]).initiator
                != initiator.id,
        target.incoming.len() < MAX_PENDING_INCOMING,
        answer.len() <= u64::MAX,
        now + CONNECT_TIMEOUT_MS <= u64::MAX,
    ensures
        ({
            let passed = after_input(coordinator, addr_i, packet_bytes(p), now);
            let told = after_input(target, addr_c, passed.outbox.last().data, now);
            let agreed = after_accept(told, initiator.id, answer, now);
            let back = after_input(passed, addr_t, agreed.outbox.last().data, now);
            let done = after_input(initiator, addr_c, back.outbox.last().data, now);
            &&& passed.outbox.last().to == addr_t
            &&& agreed.outbox.last().to == addr_c
            &&& back.outbox.last().to == addr_i
            &&& told.events.len() == target.events.len() + 1
            &&& done.events.len() == initiator.events.len() + 1
            &&& done.connecting == initiator.connecting.remove(c)
            &&& told.events.last() matches EventView::IncomingConnect {
                initiator: who,
                initiator_data_addrs,
                strategy: theirs,
            } && who == initiator.id && initiator_data_addrs == s.data_addrs && (
            done.events.last() matches EventView::Connected {
                target: whom,
                outcome,
                peer_data_addrs,
                strategy,
            } && whom == target.id && peer_data_addrs == answer && (strategy matches Some(ours)
                && is_role(advertised(initiator), advertised(target), ours) && (ours
                == Strategy::SprayRandomPorts <==> theirs == Strategy::OpenBirthdaySockets) && (ours
                == Strategy::OpenBirthdaySockets <==> theirs == Strategy::SprayRandomPorts) && (ours
                == Strategy::Direct <==> theirs == Strategy::Direct) && (outcome
                == ConnectOutcome::Punched <==> theirs == Strategy::SprayRandomPorts || theirs
                == Strategy::OpenBirthdaySockets)))
        }),
{
    let passed = after_input(coordinator, addr_i, packet_bytes(p), now);
    let p1 = lemma_passed_on(coordinator, addr_i, p, now, s, addr_t, a, b);
    let s1 = SignalView { initiator_addr: addr_i, ..s };
    let p2 = lemma_told_and_agreed(target, addr_c, p1, now, s1, answer);
    let s2 = SignalView { data_addrs: answer, firewall: advertised(target), ..s1 };
    let p3 = lemma_passed_back(passed, addr_t, p2, now, s2, a, b);
    lemma_answered(initiator, addr_c, p3, now, c, s2);
}

/// A request for nodes is answered to whoever made it, under the request's own id, with
/// the nearest contacts known and the announcers on record.
pub proof fn law_nodes_are_given(
    d: DhtView,
    from: SocketAddr,
    p: PacketView,
    now: u64,
    target: NodeId,
)
    requires
        p.msg == (MessageView::FindNode { target }),
    ensures
        ({
            let r = input(d, from, packet_bytes(p), now);
            let contacts = nearest(r.table, target, K as nat);
            let peers = records(d, target);
            &&& r.outbox.drop_last() == d.outbox
            &&& r.outbox.len() == d.outbox.len() + 1
            &&& r.outbox.last().to == from
            &&& peers.len() <= u64::MAX ==> read_packet(r.outbox.last().data) == Ok::<
                PacketView,
                crate::msg::MsgError,
            >(
                PacketView {
                    sender: d.id,
                    rid: p.rid,
                    msg: MessageView::Nodes { contacts, peers },
                },
            )
        }),
{
    law_packet_roundtrip(p);
    let r = input(d, from, packet_bytes(p), now);
    assert(r.outbox.drop_last() =~= d.outbox);
    let contacts = nearest(r.table, target, K as nat);
    let peers = records(d, target);
    law_closest(r.table, target, K as nat);
    if peers.len() <= u64::MAX {
        law_packet_roundtrip(
            PacketView { sender: d.id, rid: p.rid, msg: MessageView::Nodes { contacts, peers } },
        );
    }
}

proof fn lemma_count_closer(s: Seq<Contact>, topic: NodeId, limit: nat)
    ensures
        count_closer(s, topic, limit) <= s.len(),
        (forall|i: int| 0 <= i < s.len() ==> dist((#[trigger] s[i]).id, topic) < limit)
            <==> count_closer(s, topic, limit) == s.len(),
    decreases s.len(),
{
    if s.len() > 0 {
        let rest = s.drop_last();
        lemma_count_closer(rest, topic, limit);
        assert(s.last() == s[s.len() - 1]);
        if forall|i: int| 0 <= i < s.len() ==> dist((#[trigger] s[i]).id, topic) < limit {
            assert forall|i: int| 0 <= i < rest.len() implies dist((#[trigger] rest[i]).id, topic)
                < limit by {
                assert(rest[i] == s[i]);
            }
        }
        if count_closer(s, topic, limit) == s.len() {
            assert forall|i: int| 0 <= i < s.len() implies dist((#[trigger] s[i]).id, topic)
                < limit by {
                if i < rest.len() {
                    assert(rest[i] == s[i]);
                }
            }
        }
    }
}

/// A node answers for a topic unless it knows a full set of contacts that are all
/// nearer to it.
pub proof fn law_responsible_unless_others_are_nearer(d: DhtView, topic: NodeId)
    ensures
        ({
            let s = nearest(d.table, topic, K as nat);
            responsible(d, topic) <==> s.len() < K || dist(d.id, topic) <= dist(
                s[K - 1].id,
                topic,
            )
        }),
{
    let s = nearest(d.table, topic, K as nat);
    let limit = dist(d.id, topic);
    law_closest(d.table, topic, K as nat);
    lemma_count_closer(s, topic, limit);
    if s.len() >= K && dist(s[K - 1].id, topic) < limit {
        assert forall|i: int| 0 <= i < s.len() implies dist((#[trigger] s[i]).id, topic)
            < limit by {
            if i < K - 1 {
                assert(dist(s[i].id, topic) <= dist(s[K - 1].id, topic));
            }
        }
    }
}

/// Whether there is room to record an announcer under a topic.
pub open spec fn has_room_for(d: DhtView, topic: NodeId, id: NodeId) -> bool {
    ||| exists|a: int|
        0 <= a < d.announces.len() && (#[trigger] d.announces[a]).topic == topic && (
        d.announces[a].peers.len() < K || exists|b: int|
            0 <= b < d.announces[a].peers.len() && (#[trigger] d.announces[a].peers[b]).id == id)
    ||| (forall|a: int| 0 <= a < d.announces.len() ==> (#[trigger] d.announces[a]).topic != topic)
        && d.announces.len() < MAX_ANNOUNCE_TOPICS
}

/// Whether no topic is recorded twice.
pub open spec fn topics_differ(d: DhtView) -> bool {
    forall|i: int, j: int|
        0 <= i < j < d.announces.len() ==> (#[trigger] d.announces[i]).topic != (
        #[trigger] d.announces[j]).topic
}

proof fn lemma_announcer_is_recorded(
    d: DhtView,
    from: SocketAddr,
    p: PacketView,
    topic: NodeId,
    now: u64,
)
    requires
        p.msg == (MessageView::Announce { topic }),
        responsible(sighted(d, from, p), topic),
        topics_differ(d),
        has_room_for(d, topic, p.sender),
        forall|a: int|
            0 <= a < d.announces.len() ==> (#[trigger] d.announces[a]).peers.len() <= K,
    ensures
        ({
            let told = input(d, from, packet_bytes(p), now);
            &&& records(told, topic).contains(Contact { id: p.sender, addr: from })
            &&& records(told, topic).len() <= K + 1
        }),
{
    law_packet_roundtrip(p);
    let e = sighted(d, from, p);
    let c = Contact { id: p.sender, addr: from };
    let told = input(d, from, packet_bytes(p), now);
    assert(told == stored(e, topic, c));
    lemma_first(e.announces, on_topic(topic));
    if exists|a: int| 0 <= a < d.announces.len() && (#[trigger] d.announces[a]).topic == topic {
        let a = choose|a: int|
            0 <= a < d.announces.len() && (#[trigger] d.announces[a]).topic == topic;
        assert(on_topic(topic)(e.announces[a]));
        let k = first(e.announces, on_topic(topic))->Some_0;
        if a < k {
            assert(d.announces[a].topic != d.announces[k].topic);
        } else if k < a {
            assert(d.announces[k].topic != d.announces[a].topic);
        }
        let peers = d.announces[k].peers;
        lemma_first(peers, with_id(c.id));
        if peers.len() >= K {
            let b = choose|b: int| 0 <= b < peers.len() && (#[trigger] peers[b]).id == p.sender;
            assert(with_id(c.id)(peers[b]));
        }
    } else {
        if let Some(k) = first(e.announces, on_topic(topic)) {
            assert(d.announces[k].topic == topic);
        }
    }
    law_announcement_is_found(e, topic, c);
    lemma_first(told.announces, on_topic(topic));
    assert(records(told, topic).len() <= K + 1) by {
        if let Some(k) = first(told.announces, on_topic(topic)) {
            if k < d.announces.len() {
                assert(d.announces[k].peers.len() <= K);
                lemma_first(d.announces[k].peers, with_id(c.id));
            }
        }
    }
}

/// Announcing is for being found: whoever announces a topic to a node that answers for
/// it is named, at the address it announced from, to everyone who then asks for the
/// topic.
pub proof fn law_announcer_is_named_to_those_who_ask(
    d: DhtView,
    from: SocketAddr,
    p: PacketView,
    asker: SocketAddr,
    ask: PacketView,
    topic: NodeId,
    now: u64,
)
    requires
        p.msg == (MessageView::Announce { topic }),
        ask.msg == (MessageView::FindNode { target: topic }),
        responsible(sighted(d, from, p), topic),
        topics_differ(d),
        has_room_for(d, topic, p.sender),
        forall|a: int|
            0 <= a < d.announces.len() ==> (#[trigger] d.announces[a]).peers.len() <= K,
    ensures
        ({
            let told = input(d, from, packet_bytes(p), now);
            let r = input(told, asker, packet_bytes(ask), now);
            &&& r.outbox.last().to == asker
            &&& read_packet(r.outbox.last().data) matches Ok(reply) && reply.rid == ask.rid && (
            reply.msg matches MessageView::Nodes { peers, .. } && peers.contains(
                Contact { id: p.sender, addr: from },
            ))
        }),
{
    lemma_announcer_is_recorded(d, from, p, topic, now);
    law_nodes_are_given(input(d, from, packet_bytes(p), now), asker, ask, now, topic);
}

/// Learning our own address: a peer that is probed tells, to the address the probe came
/// from and under the probe's id, what that address is, and it is counted as observed
/// exactly if the probe is still awaited.
pub proof fn law_probe_learns_our_address(
    peer: DhtView,
    d: DhtView,
    seen: SocketAddr,
    addr: SocketAddr,
    probe: PacketView,
    now: u64,
    k: int,
)
    requires
        probe.msg == MessageView::Ping,
        0 <= k < d.probes.len(),
        d.probes[k].rid == probe.rid,
        forall|j: int| 0 <= j < k ==> (#[trigger] d.probes[j]).rid != probe.rid,
    ensures
        ({
            let heard = input(peer, seen, packet_bytes(probe), now);
            let r = input(d, addr, heard.outbox.last().data, now);
            &&& heard.outbox.len() == peer.outbox.len() + 1
            &&& heard.outbox.last().to == seen
            &&& r.seen_at == d.seen_at.push(seen)
            &&& r.probes == d.probes.remove(k)
        }),
{
    law_packet_roundtrip(probe);
    let reply = PacketView {
        sender: peer.id,
        rid: probe.rid,
        msg: MessageView::Pong { observed: seen },
    };
    law_packet_roundtrip(reply);
    assert forall|j: int| 0 <= j < k implies !probe_rid(probe.rid)(#[trigger] d.probes[j]) by {}
    lemma_first_at(d.probes, probe_rid(probe.rid), k);
}

/// An answer to a probe that is not awaited counts for nothing.
pub proof fn law_unasked_observation_is_ignored(
    d: DhtView,
    from: SocketAddr,
    p: PacketView,
    observed: SocketAddr,
    now: u64,
)
    requires
        p.msg == (MessageView::Pong { observed }),
        forall|j: int| 0 <= j < d.probes.len() ==> (#[trigger] d.probes[j]).rid != p.rid,
    ensures
        input(d, from, packet_bytes(p), now).seen_at == d.seen_at,
        input(d, from, packet_bytes(p), now).outbox == d.outbox,
{
    law_packet_roundtrip(p);
    assert forall|j: int| 0 <= j < d.probes.len() implies !probe_rid(p.rid)(
        #[trigger] d.probes[j],
    ) by {}
    lemma_first_none(d.probes, probe_rid(p.rid));
}

/// Probing sends every peer a probe, and awaits an answer to each.
pub proof fn law_every_peer_is_probed(d: DhtView, peers: Seq<Contact>, now: u64)
    requires
        d.next_rid + peers.len() <= u64::MAX,
        now + REQUEST_TIMEOUT_MS <= u64::MAX,
    ensures
        ({
            let r = pinged(d, peers, now);
            let n = d.outbox.len() as int;
            let m = d.probes.len() as int;
            &&& r.outbox.len() == n + peers.len()
            &&& r.probes.len() == m + peers.len()
            &&& r.next_rid == d.next_rid + peers.len()
            &&& r.id == d.id
            &&& r.outbox.take(n) == d.outbox
            &&& forall|i: int|
                0 <= i < peers.len() ==> r.outbox[n + i].to == (#[trigger] peers[i]).addr
                    && read_packet(r.outbox[n + i].data) == Ok::<PacketView, crate::msg::MsgError>(
                    PacketView {
                        sender: d.id,
                        rid: r.probes[m + i].rid,
                        msg: MessageView::Ping,
                    },
                ) && r.probes[m + i].rid == d.next_rid + i && r.probes[m + i].deadline == now
                    + REQUEST_TIMEOUT_MS
        }),
    decreases peers.len(),
{
    let r = pinged(d, peers, now);
    let n = d.outbox.len() as int;
    let m = d.probes.len() as int;
    if peers.len() == 0 {
        assert(r.outbox.take(n) =~= d.outbox);
    } else {
        let rest = peers.drop_last();
        let before = pinged(d, rest, now);
        law_every_peer_is_probed(d, rest, now);
        law_packet_roundtrip(
            PacketView { sender: d.id, rid: before.next_rid, msg: MessageView::Ping },
        );
        assert(r.outbox.take(n) =~= before.outbox.take(n));
        assert forall|i: int| 0 <= i < peers.len() implies r.outbox[n + i].to == (
        #[trigger] peers[i]).addr && read_packet(r.outbox[n + i].data) == Ok::<
            PacketView,
            crate::msg::MsgError,
        >(
            PacketView { sender: d.id, rid: r.probes[m + i].rid, msg: MessageView::Ping },
        ) && r.probes[m + i].rid == d.next_rid + i && r.probes[m + i].deadline == now
            + REQUEST_TIMEOUT_MS by {
            if i < rest.len() {
                assert(rest[i] == peers[i]);
                assert(r.outbox[n + i] == before.outbox[n + i]);
                assert(r.probes[m + i] == before.probes[m + i]);
            }
        }
    }
}

/// The firewall type that is told to others is the one that was set until enough has
/// been observed, and from then on what was observed.
pub proof fn law_observed_firewall_is_told(d: DhtView, i: int, j: int, k: int)
    ensures
        d.seen_at.len() < 3 ==> advertised(d) == d.local_firewall,
        0 <= i < j < k < d.seen_at.len() && d.seen_at[i].port == d.seen_at[j].port
            && d.seen_at[j].port == d.seen_at[k].port ==> advertised(d) == if d.reachable {
            Firewall::Open
        } else {
            Firewall::Consistent
        },
{
    if 0 <= i < j < k < d.seen_at.len() && d.seen_at[i].port == d.seen_at[j].port
        && d.seen_at[j].port == d.seen_at[k].port {
        crate::firewall::law_repeated_port_is_stable(d.seen_at, d.reachable, i, j, k);
    }
}

/// The table after failures are held against contacts, one after the other.
pub open spec fn after_failures(t: TableView, s: Seq<Pending>) -> TableView
    decreases s.len(),
{
    if s.len() == 0 {
        t
    } else {
        failed(after_failures(t, s.drop_last()), s.last().contact).0
    }
}

/// Whoever sends us a packet, other than a reflexive probe or ourselves, is filed in the
/// routing table at the address it came from, whatever the packet says.
pub proof fn law_sender_is_filed(d: DhtView, from: SocketAddr, p: PacketView, now: u64)
    requires
        countable(p.msg),
    ensures
        !(p.msg is Nodes) ==> input(d, from, packet_bytes(p), now).table == if p.sender != d.id
            && !(p.msg is Reflect) {
            admitted(d.table, Contact { id: p.sender, addr: from }).0
        } else {
            d.table
        },
{
    law_packet_roundtrip(p);
}

proof fn lemma_driven_keeps(d: DhtView, qid: u64, now: u64)
    requires
        d.next_rid + K <= u64::MAX,
        forall|i: int| 0 <= i < d.queries.len() ==> lookup_ok(#[trigger] d.queries[i]),
    ensures
        driven(d, qid, now).table == d.table,
        forall|x: Pending|
            d.pending.contains(x) ==> #[trigger] driven(d, qid, now).pending.contains(x),
{
    lemma_first(d.queries, with_qid(qid));
    if let Some(k) = first(d.queries, with_qid(qid)) {
        let q = d.queries[k];
        assert(lookup_ok(q));
        let flying = in_flight(q.contacts);
        let (contacts, out) = launched(q.contacts, 0, flying);
        let r = QueryView { contacts, ..q };
        lemma_launched(q.contacts, 0, flying);
        if out.len() == 0 && flying == 0 {
            let e = DhtView { queries: d.queries.remove(k), ..d };
            lemma_registered(e, q.target, answered(contacts, near(contacts)));
        } else {
            let e = DhtView { queries: d.queries.update(k, r), ..d };
            lemma_requested(e, qid, q.target, now, out);
            law_each_asking_is_sent(e, qid, q.target, now, out);
            let p = driven(d, qid, now).pending;
            assert forall|x: Pending| d.pending.contains(x) implies #[trigger] p.contains(x) by {
                let i = d.pending.index_of(x);
                assert(p[i] == x);
            }
        }
    }
}

proof fn lemma_failures_held(d: DhtView, late: Seq<Pending>, now: u64)
    requires
        healthy(d),
        rids_ok(d),
        d.next_rid + K * late.len() <= u64::MAX,
        now + REQUEST_TIMEOUT_MS <= u64::MAX,
        forall|i: int| 0 <= i < late.len() ==> d.pending.contains(#[trigger] late[i]),
        forall|i: int, j: int|
            0 <= i < j < late.len() ==> (#[trigger] late[i]).rid != (#[trigger] late[j]).rid,
    ensures
        all_given_up(d, late, now).table == after_failures(d.table, late),
        forall|x: Pending|
            d.pending.contains(x) && (forall|i: int|
                0 <= i < late.len() ==> (#[trigger] late[i]).rid != x.rid)
                ==> #[trigger] all_given_up(d, late, now).pending.contains(x),
    decreases late.len(),
{
    if late.len() > 0 {
        let rest = late.drop_last();
        let p = late.last();
        assert(late[late.len() - 1] == p);
        assert forall|i: int| 0 <= i < rest.len() implies d.pending.contains(
            #[trigger] rest[i],
        ) && rest[i].rid != p.rid by {
            assert(rest[i] == late[i]);
        }
        assert forall|i: int, j: int| 0 <= i < j < rest.len() implies (#[trigger] rest[i]).rid != (
        #[trigger] rest[j]).rid by {
            assert(late[i].rid != late[j].rid);
        }
        lemma_failures_held(d, rest, now);
        lemma_all_given_up_pending(d, rest, now);
        lemma_all_given_up(d, rest, now);
        let e = all_given_up(d, rest, now);
        assert(e.pending.contains(p));
        let i = e.pending.index_of(p);
        lemma_first(e.pending, with_rid(p.rid));
        assert(with_rid(p.rid)(e.pending[i]));
        let k = first(e.pending, with_rid(p.rid))->Some_0;
        if k < i {
            assert(e.pending[k].rid != e.pending[i].rid);
        } else if i < k {
            assert(e.pending[i].rid != e.pending[k].rid);
        }
        assert(e.pending[k] == p);
        let d1 = DhtView {
            pending: e.pending.remove(k),
            table: failed(e.table, p.contact).0,
            ..e
        };
        lemma_first(d1.queries, with_qid(p.query));
        let d2 = match first(d1.queries, with_qid(p.query)) {
            Some(j) => {
                let q = d1.queries[j];
                assert(lookup_ok(q));
                lemma_marked(q.contacts, p.contact, Status::Failed, q.target);
                DhtView {
                    queries: d1.queries.update(
                        j,
                        QueryView { contacts: marked(q.contacts, p.contact, Status::Failed), ..q },
                    ),
                    ..d1
                }
            },
            None => d1,
        };
        assert(given_up(e, p.rid, now) == driven(d2, p.query, now));
        lemma_driven_keeps(d2, p.query, now);
        let r = all_given_up(d, late, now);
        assert forall|x: Pending|
            d.pending.contains(x) && (forall|m: int|
                0 <= m < late.len() ==> (#[trigger] late[m]).rid
                    != x.rid) implies #[trigger] r.pending.contains(x) by {
            assert forall|m: int| 0 <= m < rest.len() implies (#[trigger] rest[m]).rid
                != x.rid by {
                assert(rest[m] == late[m]);
            }
            assert(e.pending.contains(x));
            let m = e.pending.index_of(x);
            assert(m != k);
            let rem = e.pending.remove(k);
            assert(rem[if m < k {
                m
            } else {
                m - 1
            }] == x);
            assert(d2.pending.contains(x));
        }
    }
}

/// Every request that is due when the timers fire is held against the contact that did
/// not answer it, and nothing else is.
pub proof fn law_unanswered_requests_are_failures(d: DhtView, now: u64)
    requires
        healthy(d),
        rids_ok(d),
        d.next_rid + K * d.pending.len() <= u64::MAX,
        now + REQUEST_TIMEOUT_MS <= u64::MAX,
    ensures
        timers_fired(d, now).table == after_failures(d.table, kept(d.pending, due(now))),
        forall|x: Pending| #[trigger]
            kept(d.pending, due(now)).contains(x) <==> d.pending.contains(x) && x.deadline <= now,
{
    let late = kept(d.pending, due(now));
    lemma_kept(d.pending, due(now));
    lemma_kept_rids(d.pending, due(now));
    assert forall|i: int| 0 <= i < late.len() implies d.pending.contains(#[trigger] late[i]) by {
        assert(late.contains(late[i]));
    }
    lemma_failures_held(d, late, now);
    let d1 = all_given_up(d, late, now);
    let d2 = DhtView { probes: kept(d1.probes, live_probe(now)), ..d1 };
    lemma_timed_out_table(d2, kept(d2.connecting, stale(now)));
}

proof fn lemma_timed_out_table(d: DhtView, stale: Seq<ConnectView>)
    ensures
        all_timed_out(d, stale).table == d.table,
    decreases stale.len(),
{
    if stale.len() > 0 {
        lemma_timed_out_table(d, stale.drop_last());
    }
}

/// The contacts that asking takes in hand are all asked.
proof fn lemma_all_taken_are_asked(s: Seq<QueryContact>, i: nat, flying: nat)
    ensures
        ({
            let (after, out) = launched(s, i, flying);
            &&& after.len() == s.len()
            &&& forall|j: int|
                0 <= j < s.len() && (#[trigger] after[j]) != s[j] ==> out.contains(s[j].contact)
                    && after[j] == (QueryContact { status: Status::InFlight, ..s[j] })
        }),
    decreases K - i,
{
    if i >= s.len() || i >= K || flying >= ALPHA {
    } else if s[i as int].status == Status::Fresh {
        let next = s.update(
            i as int,
            QueryContact { status: Status::InFlight, ..s[i as int] },
        );
        lemma_all_taken_are_asked(next, i + 1, flying + 1);
        let (after, more) = launched(next, i + 1, flying + 1);
        let out = seq![s[i as int].contact] + more;
        assert forall|j: int| 0 <= j < s.len() && (#[trigger] after[j])
            != s[j] implies out.contains(s[j].contact) && after[j] == (QueryContact {
            status: Status::InFlight,
            ..s[j]
        }) by {
            if after[j] != next[j] {
                assert(more.contains(next[j].contact));
                let m = more.index_of(next[j].contact);
                assert(out[m + 1] == next[j].contact);
            } else {
                assert(j == i);
                assert(out[0] == s[j].contact);
            }
        }
    } else {
        lemma_all_taken_are_asked(s, i + 1, flying);
    }
}

/// Whether a packet sent since `n` asks an address for the nodes nearest to a target.
pub open spec fn asks_for(
    r: DhtView,
    n: nat,
    to: SocketAddr,
    me: NodeId,
    target: NodeId,
) -> bool {
    exists|j: int|
        n <= j < r.outbox.len() && carries(
            #[trigger] r.outbox[j],
            to,
            me,
            MessageView::FindNode { target },
        )
}

/// Whether an answer is awaited, since `n`, from a contact to a query, until a time.
pub open spec fn awaits(r: DhtView, n: nat, qid: u64, id: NodeId, deadline: int) -> bool {
    exists|j: int|
        n <= j < r.pending.len() && (#[trigger] r.pending[j]).query == qid && r.pending[j].contact
            == id && r.pending[j].deadline == deadline
}

/// A query that moves on asks whom it takes in hand for the nodes nearest to its own
/// target, and awaits the answer of each for as long as a request may take.
pub proof fn law_moving_on_asks(d: DhtView, qid: u64, now: u64, k: int)
    requires
        is_query(d, qid, k),
        !is_over(d.queries[k].contacts),
        lookup_ok(d.queries[k]),
        d.next_rid + K <= u64::MAX,
        now + REQUEST_TIMEOUT_MS <= u64::MAX,
    ensures
        ({
            let q = d.queries[k];
            let r = driven(d, qid, now);
            let s = r.queries[k].contacts;
            &&& r.queries.len() == d.queries.len()
            &&& s.len() == q.contacts.len()
            &&& r.queries[k].target == q.target && r.queries[k].qid == qid
            &&& r.events == d.events
            &&& forall|i: int|
                0 <= i < s.len() && (#[trigger] s[i]) != q.contacts[i] ==> {
                    &&& s[i] == (QueryContact { status: Status::InFlight, ..q.contacts[i] })
                    &&& asks_for(r, d.outbox.len(), s[i].contact.addr, d.id, q.target)
                    &&& awaits(
                        r,
                        d.pending.len(),
                        qid,
                        s[i].contact.id,
                        now + REQUEST_TIMEOUT_MS,
                    )
                }
        }),
{
    let q = d.queries[k];
    assert forall|j: int| 0 <= j < k implies !with_qid(qid)(#[trigger] d.queries[j]) by {}
    lemma_first_at(d.queries, with_qid(qid), k);
    let flying = in_flight(q.contacts);
    let (contacts, out) = launched(q.contacts, 0, flying);
    lemma_launched(q.contacts, 0, flying);
    lemma_all_taken_are_asked(q.contacts, 0, flying);
    let e = DhtView { queries: d.queries.update(k, QueryView { contacts, ..q }), ..d };
    let r = driven(d, qid, now);
    assert(!(out.len() == 0 && flying == 0)) by {
        if out.len() == 0 && flying == 0 {
            lemma_launches_none(q.contacts, 0, flying);
            assert(is_over(q.contacts)) by {
                assert forall|i: int| 0 <= i < q.contacts.len() implies (
                #[trigger] q.contacts[i]).status != Status::InFlight by {
                    if q.contacts[i].status == Status::InFlight {
                        lemma_one_flying(q.contacts, i);
                    }
                }
                assert forall|i: int| 0 <= i < q.contacts.len() && i < K implies (
                #[trigger] q.contacts[i]).status != Status::Fresh by {
                    assert(contacts[i].status != Status::Fresh);
                }
            }
        }
    }
    assert(r == requested(e, qid, q.target, now, out));
    lemma_requested(e, qid, q.target, now, out);
    law_each_asking_is_sent(e, qid, q.target, now, out);
    let n = d.outbox.len() as int;
    let m = d.pending.len() as int;
    assert forall|i: int| 0 <= i < contacts.len() && (#[trigger] contacts[i])
        != q.contacts[i] implies asks_for(
        r,
        d.outbox.len(),
        contacts[i].contact.addr,
        d.id,
        q.target,
    ) && awaits(
        r,
        d.pending.len(),
        qid,
        contacts[i].contact.id,
        now + REQUEST_TIMEOUT_MS,
    ) by {
        let c = q.contacts[i].contact;
        let a = out.index_of(c);
        assert(out[a] == c);
        let rid = (d.next_rid + a) as u64;
        law_packet_roundtrip(
            PacketView { sender: d.id, rid, msg: MessageView::FindNode { target: q.target } },
        );
        assert(carries(
            r.outbox[n + a],
            c.addr,
            d.id,
            MessageView::FindNode { target: q.target },
        ));
        assert(r.pending[m + a].query == qid && r.pending[m + a].contact == c.id);
    }
}

proof fn lemma_one_flying(s: Seq<QueryContact>, i: int)
    requires
        0 <= i < s.len(),
        s[i].status == Status::InFlight,
    ensures
        in_flight(s) >= 1,
    decreases s.len(),
{
    if i < s.len() - 1 {
        assert(s.drop_last()[i] == s[i]);
        lemma_one_flying(s.drop_last(), i);
    } else {
        assert(s.last() == s[i]);
    }
}

proof fn lemma_sorted_list(s: Seq<Contact>, target: NodeId)
    requires
        forall|i: int, j: int|
            0 <= i < j < s.len() ==> dist((#[trigger] s[i]).id, target) <= dist(
                (#[trigger] s[j]).id,
                target,
            ) && s[i].id != s[j].id,
    ensures
        ({
            let r = all_added(Seq::empty(), s, target, None);
            &&& r.len() == s.len()
            &&& forall|i: int|
                0 <= i < s.len() ==> (#[trigger] r[i]) == (QueryContact {
                    contact: s[i],
                    status: Status::Fresh,
                })
        }),
    decreases s.len(),
{
    if s.len() > 0 {
        let rest = s.drop_last();
        assert forall|i: int, j: int| 0 <= i < j < rest.len() implies dist(
            (#[trigger] rest[i]).id,
            target,
        ) <= dist((#[trigger] rest[j]).id, target) && rest[i].id != rest[j].id by {
            assert(rest[i] == s[i] && rest[j] == s[j]);
        }
        lemma_sorted_list(rest, target);
        let before = all_added(Seq::<QueryContact>::empty(), rest, target, None);
        let c = s.last();
        assert(c == s[s.len() - 1]);
        assert forall|i: int| 0 <= i < before.len() implies !listed(c.id)(
            #[trigger] before[i],
        ) by {
            assert(before[i].contact == rest[i]);
            assert(rest[i] == s[i]);
            assert(s[i].id != s[s.len() - 1].id);
        }
        lemma_first_none(before, listed(c.id));
        if before.len() > 0 {
            assert(before.last().contact == s[s.len() - 2]);
            assert(dist(s[s.len() - 2].id, target) <= dist(s[s.len() - 1].id, target));
        }
        let r = all_added(Seq::<QueryContact>::empty(), s, target, None);
        assert(r == before.push(QueryContact { contact: c, status: Status::Fresh }));
        assert forall|i: int| 0 <= i < s.len() implies (#[trigger] r[i]) == (QueryContact {
            contact: s[i],
            status: Status::Fresh,
        }) by {
            if i < rest.len() {
                assert(r[i] == before[i]);
                assert(rest[i] == s[i]);
            }
        }
    }
}

proof fn lemma_first_are_taken(s: Seq<QueryContact>, i: nat)
    requires
        i <= ALPHA,
        forall|j: int| i <= j < s.len() ==> (#[trigger] s[j]).status == Status::Fresh,
    ensures
        forall|j: int|
            i <= j < s.len() && j < ALPHA ==> (#[trigger] launched(s, i, i).0[j]).status
                == Status::InFlight,
        forall|j: int| 0 <= j < i && j < s.len() ==> launched(s, i, i).0[j] == #[trigger] s[j],
        launched(s, i, i).0.len() == s.len(),
    decreases K - i,
{
    if i < s.len() && i < K && i < ALPHA {
        let next = s.update(
            i as int,
            QueryContact { status: Status::InFlight, ..s[i as int] },
        );
        assert forall|j: int| i + 1 <= j < next.len() implies (#[trigger] next[j]).status
            == Status::Fresh by {
            assert(next[j] == s[j]);
        }
        lemma_first_are_taken(next, i + 1);
        let r = launched(next, i + 1, i + 1).0;
        assert(r[i as int] == next[i as int]);
        assert forall|j: int| 0 <= j < i && j < s.len() implies r[j] == #[trigger] s[j] by {
            assert(r[j] == next[j]);
        }
    }
}

/// A query begins with the nearest contacts known: as many of them as may be asked at
/// once are asked, the nearest first, for the nodes nearest to the target.
pub proof fn law_query_begins_with_the_nearest(
    d: DhtView,
    target: NodeId,
    kind: QueryKind,
    now: u64,
    i: int,
)
    requires
        d.next_rid + K <= u64::MAX,
        now + REQUEST_TIMEOUT_MS <= u64::MAX,
        forall|j: int| 0 <= j < d.queries.len() ==> (#[trigger] d.queries[j]).qid != d.next_qid,
        forall|a: int, b: int|
            0 <= a < b < nearest(d.table, target, K as nat).len() ==> (#[trigger] nearest(
                d.table,
                target,
                K as nat,
            )[a]).id != (#[trigger] nearest(d.table, target, K as nat)[b]).id,
        0 <= i < nearest(d.table, target, K as nat).len(),
        i < ALPHA,
    ensures
        asks_for(
            started(d, target, kind, now),
            d.outbox.len(),
            nearest(d.table, target, K as nat)[i].addr,
            d.id,
            target,
        ),
{
    let s = nearest(d.table, target, K as nat);
    law_closest(d.table, target, K as nat);
    lemma_sorted_list(s, target);
    let contacts = all_added(Seq::<QueryContact>::empty(), s, target, None);
    let q = QueryView {
        qid: d.next_qid,
        target,
        kind,
        contacts,
        coordinators: Seq::empty(),
        peers: Seq::empty(),
    };
    let e = DhtView {
        queries: d.queries.push(q),
        next_qid: d.next_qid.wrapping_add(1),
        ..d
    };
    let k = d.queries.len() as int;
    assert(is_query(e, d.next_qid, k)) by {
        assert forall|j: int| 0 <= j < k implies (#[trigger] e.queries[j]).qid != d.next_qid by {
            assert(e.queries[j] == d.queries[j]);
        }
    }
    assert forall|j: int| 0 <= j < contacts.len() implies (#[trigger] contacts[j]).status
        != Status::InFlight by {}
    lemma_none_flying(contacts);
    assert(!is_over(contacts)) by {
        assert(contacts[0].status == Status::Fresh);
    }
    lemma_all_added(Seq::<QueryContact>::empty(), s, target, None);
    assert(lookup_ok(q));
    law_moving_on_asks(e, d.next_qid, now, k);
    lemma_first_are_taken(contacts, 0);
    let r = driven(e, d.next_qid, now);
    assert forall|j: int| 0 <= j < k implies !with_qid(d.next_qid)(#[trigger] e.queries[j]) by {
        assert(e.queries[j] == d.queries[j]);
    }
    lemma_first_at(e.queries, with_qid(d.next_qid), k);
    let (after, out) = launched(contacts, 0, 0);
    assert(after[i].status == Status::InFlight);
    lemma_all_taken_are_asked(contacts, 0, 0);
    assert(after[i] != contacts[i]);
    assert(out.contains(contacts[i].contact));
    let f = DhtView { queries: e.queries.update(k, QueryView { contacts: after, ..q }), ..e };
    lemma_requested(f, d.next_qid, target, now, out);
    assert(r.queries[k].contacts == after);
}

/// An announcement costs nobody its record: whoever is on record for any topic still is,
/// but for the announcer's own address. A node that does not answer for the topic records
/// nothing.
pub proof fn law_other_announcers_stay_on_record(
    d: DhtView,
    from: SocketAddr,
    p: PacketView,
    topic: NodeId,
    now: u64,
    other: NodeId,
    x: Contact,
)
    requires
        p.msg == (MessageView::Announce { topic }),
        records(d, other).contains(x),
        other != topic || x.id != p.sender,
    ensures
        records(input(d, from, packet_bytes(p), now), other).contains(x),
        !responsible(sighted(d, from, p), topic) ==> input(
            d,
            from,
            packet_bytes(p),
            now,
        ).announces == d.announces,
{
    law_packet_roundtrip(p);
    let e = sighted(d, from, p);
    let c = Contact { id: p.sender, addr: from };
    let r = stored(e, topic, c);
    lemma_first(d.announces, on_topic(topic));
    lemma_first(d.announces, on_topic(other));
    let m = first(d.announces, on_topic(other))->Some_0;
    match first(d.announces, on_topic(topic)) {
        Some(k) => {
            let peers = d.announces[k].peers;
            if r.announces != d.announces {
                assert(r.announces[m].topic == other);
                assert forall|j: int| 0 <= j < m implies !on_topic(other)(
                    #[trigger] r.announces[j],
                ) by {
                    if j == k {
                        assert(on_topic(topic)(d.announces[k]));
                        assert(!on_topic(other)(d.announces[j]));
                    } else {
                        assert(r.announces[j] == d.announces[j]);
                    }
                }
                lemma_first_at(r.announces, on_topic(other), m);
                if other == topic {
                    lemma_first(peers, with_id(c.id));
                    let i = peers.index_of(x);
                    assert(peers[i] == x);
                    assert(refreshed(peers, c)[i] == x);
                } else {
                    assert(m != k);
                    assert(r.announces[m] == d.announces[m]);
                }
            }
        },
        None => {
            if r.announces != d.announces {
                assert(r.announces[m] == d.announces[m]);
                assert forall|j: int| 0 <= j < m implies !on_topic(other)(
                    #[trigger] r.announces[j],
                ) by {
                    assert(r.announces[j] == d.announces[j]);
                }
                lemma_first_at(r.announces, on_topic(other), m);
            }
        },
    }
}

/// A request to connect for which there is no room is turned away, and nothing is kept or
/// told of it.
pub proof fn law_request_without_room_is_turned_away(
    d: DhtView,
    from: SocketAddr,
    p: PacketView,
    now: u64,
    s: SignalView,
)
    requires
        p.msg == signal(s, false),
        countable(p.msg),
        s.target == d.id,
        forall|j: int|
            0 <= j < d.incoming.len() ==> (#[trigger] d.incoming[j]).initiator != s.initiator,
        d.incoming.len() >= MAX_PENDING_INCOMING,
    ensures
        ({
            let r = input(d, from, packet_bytes(p), now);
            &&& r.events == d.events
            &&& r.outbox == d.outbox
            &&& r.incoming == d.incoming
        }),
{
    law_packet_roundtrip(p);
    assert forall|j: int| 0 <= j < d.incoming.len() implies !from_initiator(s.initiator)(
        #[trigger] d.incoming[j],
    ) by {}
    lemma_first_none(d.incoming, from_initiator(s.initiator));
}

/// Accepting a request that nobody made, or that is too old, sends nothing.
pub proof fn law_late_acceptance_sends_nothing(
    d: DhtView,
    initiator: NodeId,
    data_addrs: Seq<SocketAddr>,
    now: u64,
)
    requires
        forall|j: int|
            0 <= j < d.incoming.len() && (#[trigger] d.incoming[j]).initiator == initiator
                ==> d.incoming[j].deadline <= now,
    ensures
        accepted(d, initiator, data_addrs, now).outbox == d.outbox,
        accepted(d, initiator, data_addrs, now).events == d.events,
        (forall|j: int|
            0 <= j < d.incoming.len() ==> (#[trigger] d.incoming[j]).initiator != initiator)
            ==> accepted(d, initiator, data_addrs, now) == d,
{
    lemma_first(d.incoming, from_initiator(initiator));
    if let Some(k) = first(d.incoming, from_initiator(initiator)) {
        assert(d.incoming[k].initiator == initiator);
    }
}

proof fn lemma_driven_frame(d: DhtView, qid: u64, now: u64)
    ensures
        ({
            let r = driven(d, qid, now);
            &&& r.id == d.id
            &&& r.probes == d.probes
            &&& r.incoming == d.incoming
            &&& r.announces == d.announces
            &&& r.seen_at == d.seen_at
            &&& r.initiators == d.initiators
        }),
{
    if let Some(k) = first(d.queries, with_qid(qid)) {
        let q = d.queries[k];
        let flying = in_flight(q.contacts);
        let (contacts, out) = launched(q.contacts, 0, flying);
        let r = QueryView { contacts, ..q };
        if out.len() == 0 && flying == 0 {
            lemma_registered(
                DhtView { queries: d.queries.remove(k), ..d },
                q.target,
                answered(contacts, near(contacts)),
            );
        } else {
            lemma_requested(
                DhtView { queries: d.queries.update(k, r), ..d },
                qid,
                q.target,
                now,
                out,
            );
        }
    }
}

proof fn lemma_all_given_up_frame(d: DhtView, due: Seq<Pending>, now: u64)
    ensures
        ({
            let r = all_given_up(d, due, now);
            &&& r.id == d.id
            &&& r.probes == d.probes
            &&& r.incoming == d.incoming
            &&& r.announces == d.announces
            &&& r.seen_at == d.seen_at
            &&& r.initiators == d.initiators
        }),
    decreases due.len(),
{
    if due.len() > 0 {
        let e = all_given_up(d, due.drop_last(), now);
        lemma_all_given_up_frame(d, due.drop_last(), now);
        if let Some(k) = first(e.pending, with_rid(due.last().rid)) {
            let p = e.pending[k];
            let e1 = DhtView {
                pending: e.pending.remove(k),
                table: failed(e.table, p.contact).0,
                ..e
            };
            let e2 = match first(e1.queries, with_qid(p.query)) {
                Some(j) => DhtView {
                    queries: e1.queries.update(
                        j,
                        QueryView {
                            contacts: marked(e1.queries[j].contacts, p.contact, Status::Failed),
                            ..e1.queries[j]
                        },
                    ),
                    ..e1
                },
                None => e1,
            };
            lemma_driven_frame(e2, p.query, now);
        }
    }
}

proof fn lemma_all_timed_out_frame(d: DhtView, stale: Seq<ConnectView>)
    ensures
        ({
            let r = all_timed_out(d, stale);
            &&& r.id == d.id
            &&& r.probes == d.probes
            &&& r.incoming == d.incoming
            &&& r.announces == d.announces
            &&& r.seen_at == d.seen_at
            &&& r.initiators == d.initiators
        }),
    decreases stale.len(),
{
    if stale.len() > 0 {
        lemma_all_timed_out_frame(d, stale.drop_last());
    }
}

/// When the timers fire, what is not yet due goes on waiting: exactly the probes and the
/// requests to connect that are too old are forgotten, and what the node holds for others
/// is not touched.
pub proof fn law_what_is_not_due_goes_on_waiting(d: DhtView, now: u64)
    ensures
        ({
            let r = timers_fired(d, now);
            &&& forall|x: Probe| #[trigger]
                r.probes.contains(x) <==> d.probes.contains(x) && x.deadline > now
            &&& forall|x: IncomingState| #[trigger]
                r.incoming.contains(x) <==> d.incoming.contains(x) && x.deadline > now
            &&& r.announces == d.announces
            &&& r.seen_at == d.seen_at
            &&& r.initiators == d.initiators
            &&& r.id == d.id
        }),
{
    let late = kept(d.pending, due(now));
    lemma_all_given_up_frame(d, late, now);
    let d1 = all_given_up(d, late, now);
    let d2 = DhtView { probes: kept(d1.probes, live_probe(now)), ..d1 };
    lemma_all_timed_out_frame(d2, kept(d2.connecting, stale(now)));
    let d3 = all_timed_out(d2, kept(d2.connecting, stale(now)));
    lemma_kept(d1.probes, live_probe(now));
    lemma_kept(d3.incoming, live_incoming(now));
}

/// Where no request is due, the connects that are not due go on, and those that are do not.
pub proof fn law_connect_in_time_goes_on(d: DhtView, now: u64, x: ConnectView)
    requires
        healthy(d),
        forall|j: int| 0 <= j < d.pending.len() ==> (#[trigger] d.pending[j]).deadline > now,
    ensures
        timers_fired(d, now).connecting.contains(x) <==> d.connecting.contains(x) && x.deadline
            > now,
{
    let late = kept(d.pending, due(now));
    lemma_kept(d.pending, due(now));
    if late.len() > 0 {
        assert(late.contains(late[0]));
        let j = d.pending.index_of(late[0]);
        assert(d.pending[j].deadline > now);
    }
    let d2 = DhtView { probes: kept(d.probes, live_probe(now)), ..d };
    let gone = kept(d2.connecting, stale(now));
    lemma_kept(d.connecting, stale(now));
    assert(healthy(d2)) by {
        lemma_kept(d.probes, live_probe(now));
    }
    lemma_all_timed_out(d2, gone);
    let d3 = all_timed_out(d2, gone);
    if d.connecting.contains(x) {
        let i = d.connecting.index_of(x);
        if x.deadline > now {
            assert forall|j: int| 0 <= j < gone.len() implies x.target != (
            #[trigger] gone[j]).target by {
                assert(gone.contains(gone[j]));
                let m = d.connecting.index_of(gone[j]);
                assert(d.connecting[m] == gone[j]);
                assert(d.connecting[i] == x);
                if m != i && x.target == gone[j].target {
                    if m < i {
                        assert(d.connecting[m].target != d.connecting[i].target);
                    } else {
                        assert(d.connecting[i].target != d.connecting[m].target);
                    }
                }
            }
        } else {
            assert(gone.contains(x));
            let j = gone.index_of(x);
            assert(gone[j].target == x.target);
        }
    }
}

/// The next timer is the earliest that is set: nothing awaited is due before it, and
/// something is due then. There is none only where nothing is awaited.
pub proof fn law_next_timer_is_the_earliest(d: DhtView, i: int)
    ensures
        next_timer(d) matches Some(t) ==> timer_at(d, t) && (0 <= i < d.pending.len() ==> t
            <= d.pending[i].deadline) && (0 <= i < d.probes.len() ==> t <= d.probes[i].deadline)
            && (0 <= i < d.connecting.len() ==> t <= d.connecting[i].deadline) && (0 <= i
            < d.incoming.len() ==> t <= d.incoming[i].deadline),
        next_timer(d) is None ==> d.pending.len() == 0 && d.probes.len() == 0 && d.connecting.len()
            == 0 && d.incoming.len() == 0,
{
    if 0 <= i < d.pending.len() {
        assert(timer_at(d, d.pending[i].deadline));
    }
    if 0 <= i < d.probes.len() {
        assert(timer_at(d, d.probes[i].deadline));
    }
    if 0 <= i < d.connecting.len() {
        assert(timer_at(d, d.connecting[i].deadline));
    }
    if 0 <= i < d.incoming.len() {
        assert(timer_at(d, d.incoming[i].deadline));
    }
    if next_timer(d) is None {
        if d.pending.len() > 0 {
            assert(timer_at(d, d.pending[0].deadline));
            lemma_earliest(d, d.pending[0].deadline);
        }
        if d.probes.len() > 0 {
            assert(timer_at(d, d.probes[0].deadline));
            lemma_earliest(d, d.probes[0].deadline);
        }
        if d.connecting.len() > 0 {
            assert(timer_at(d, d.connecting[0].deadline));
            lemma_earliest(d, d.connecting[0].deadline);
        }
        if d.incoming.len() > 0 {
            assert(timer_at(d, d.incoming[0].deadline));
            lemma_earliest(d, d.incoming[0].deadline);
        }
    }
}

proof fn lemma_earliest(d: DhtView, t: u64)
    requires
        timer_at(d, t),
    ensures
        exists|u: u64| is_next_timer(d, u),
    decreases t,
{
    if !is_next_timer(d, t) {
        let u = choose|u: u64| #[trigger] timer_at(d, u) && u < t;
        lemma_earliest(d, u);
    }
}

/// A connect that has somebody to ask is under way: it is awaited, with our own addresses,
/// until it is too old, in place of an earlier one to the same peer, and nothing is told
/// of it yet.
pub proof fn law_connect_is_under_way(
    d: DhtView,
    target: NodeId,
    data_addrs: Seq<SocketAddr>,
    now: u64,
    x: ConnectView,
)
    requires
        d.next_rid + K <= u64::MAX,
        now + CONNECT_TIMEOUT_MS <= u64::MAX,
        now + REQUEST_TIMEOUT_MS <= u64::MAX,
        forall|j: int| 0 <= j < d.queries.len() ==> (#[trigger] d.queries[j]).qid != d.next_qid,
        forall|a: int, b: int|
            0 <= a < b < nearest(d.table, target, K as nat).len() ==> (#[trigger] nearest(
                d.table,
                target,
                K as nat,
            )[a]).id != (#[trigger] nearest(d.table, target, K as nat)[b]).id,
        nearest(d.table, target, K as nat).len() > 0,
    ensures
        ({
            let r = connect_begun(d, target, data_addrs, now);
            &&& r.events == d.events
            &&& r.connecting.contains(
                ConnectView {
                    target,
                    deadline: (now + CONNECT_TIMEOUT_MS) as u64,
                    coordinator: None,
                    data_addrs,
                },
            )
            &&& d.connecting.contains(x) && x.target != target ==> r.connecting.contains(x)
            &&& asks_for(
                r,
                d.outbox.len(),
                nearest(d.table, target, K as nat)[0].addr,
                d.id,
                target,
            )
        }),
{
    let c = ConnectView {
        target,
        deadline: (now + CONNECT_TIMEOUT_MS) as u64,
        coordinator: None,
        data_addrs,
    };
    let connecting = match first(d.connecting, to_target(target)) {
        Some(k) => d.connecting.update(k, c),
        None => d.connecting.push(c),
    };
    lemma_first(d.connecting, to_target(target));
    let e = DhtView { connecting, ..d };
    law_query_begins_with_the_nearest(e, target, QueryKind::Connect, now, 0);
    let r = started(e, target, QueryKind::Connect, now);
    lemma_started_connects(e, target, now);
    match first(d.connecting, to_target(target)) {
        Some(k) => {
            assert(connecting[k] == c);
        },
        None => {
            assert(connecting[d.connecting.len() as int] == c);
        },
    }
    if d.connecting.contains(x) && x.target != target {
        let i = d.connecting.index_of(x);
        assert(connecting[i] == x);
    }
}

proof fn lemma_started_connects(d: DhtView, target: NodeId, now: u64)
    requires
        forall|j: int| 0 <= j < d.queries.len() ==> (#[trigger] d.queries[j]).qid != d.next_qid,
    ensures
        ({
            let r = started(d, target, QueryKind::Connect, now);
            r.outbox.len() > d.outbox.len() ==> r.connecting == d.connecting && r.events
                == d.events
        }),
{
    let contacts = all_added(
        Seq::<QueryContact>::empty(),
        nearest(d.table, target, K as nat),
        target,
        None,
    );
    let q = QueryView {
        qid: d.next_qid,
        target,
        kind: QueryKind::Connect,
        contacts,
        coordinators: Seq::empty(),
        peers: Seq::empty(),
    };
    let e = DhtView {
        queries: d.queries.push(q),
        next_qid: d.next_qid.wrapping_add(1),
        ..d
    };
    let k = d.queries.len() as int;
    assert forall|j: int| 0 <= j < k implies !with_qid(d.next_qid)(#[trigger] e.queries[j]) by {
        assert(e.queries[j] == d.queries[j]);
    }
    assert(e.queries[k] == q);
    lemma_first_at(e.queries, with_qid(d.next_qid), k);
    let flying = in_flight(contacts);
    let (after, out) = launched(contacts, 0, flying);
    let r = QueryView { contacts: after, ..q };
    if !(out.len() == 0 && flying == 0) {
        lemma_requested(
            DhtView { queries: e.queries.update(k, r), ..e },
            d.next_qid,
            target,
            now,
            out,
        );
    }
}

/// A request given up is held against the contact, which counts as failed in its query and
/// nowhere else; and the query goes on without it.
pub proof fn law_query_goes_on_without_the_silent(d: DhtView, now: u64, k: int, n: int)
    requires
        0 <= k < d.pending.len(),
        is_request(d, d.pending[k].rid, k),
        is_query(d, d.pending[k].query, n),
    ensures
        exists|q: QueryView|
            {
                &&& q.contacts.len() == d.queries[n].contacts.len()
                &&& q.target == d.queries[n].target && q.kind == d.queries[n].kind && q.qid
                    == d.queries[n].qid && q.peers == d.queries[n].peers
                &&& forall|i: int|
                    0 <= i < q.contacts.len() ==> (#[trigger] q.contacts[i]).contact
                        == d.queries[n].contacts[i].contact && (q.contacts[i]
                        != d.queries[n].contacts[i] ==> q.contacts[i].contact.id
                        == d.pending[k].contact && q.contacts[i].status == Status::Failed)
                &&& lists(d.queries[n].contacts, d.pending[k].contact) ==> exists|i: int|
                    0 <= i < q.contacts.len() && (#[trigger] q.contacts[i]).contact.id
                        == d.pending[k].contact && q.contacts[i].status == Status::Failed
                &&& given_up(d, d.pending[k].rid, now) == #[trigger] driven(
                    DhtView {
                        queries: d.queries.update(n, q),
                        pending: d.pending.remove(k),
                        table: failed(d.table, d.pending[k].contact).0,
                        ..d
                    },
                    q.qid,
                    now,
                )
            },
{
    let p = d.pending[k];
    assert forall|j: int| 0 <= j < k implies !with_rid(p.rid)(#[trigger] d.pending[j]) by {}
    lemma_first_at(d.pending, with_rid(p.rid), k);
    assert forall|j: int| 0 <= j < n implies !with_qid(p.query)(#[trigger] d.queries[j]) by {}
    lemma_first_at(d.queries, with_qid(p.query), n);
    let s = d.queries[n].contacts;
    lemma_first(s, listed(p.contact));
    let q = QueryView { contacts: marked(s, p.contact, Status::Failed), ..d.queries[n] };
    if lists(s, p.contact) {
        let j = choose|j: int| 0 <= j < s.len() && (#[trigger] s[j]).contact.id == p.contact;
        assert(listed(p.contact)(s[j]));
        let i = first(s, listed(p.contact))->Some_0;
        assert(q.contacts[i].status == Status::Failed);
    }
    assert(given_up(d, p.rid, now) == driven(
        DhtView {
            queries: d.queries.update(n, q),
            pending: d.pending.remove(k),
            table: failed(d.table, p.contact).0,
            ..d
        },
        q.qid,
        now,
    ));
}

/// A request passed on makes the node forget nobody who asked before, but for the one who
/// asked longest ago where there are as many as it remembers.
pub proof fn law_those_who_asked_are_remembered(
    d: DhtView,
    from: SocketAddr,
    p: PacketView,
    now: u64,
    s: SignalView,
    addr: SocketAddr,
    a: int,
    b: int,
    i: int,
)
    requires
        p.msg == signal(s, false),
        countable(p.msg),
        s.target != d.id,
        has_own_record(d, s.target, addr, a, b),
        0 <= i < d.initiators.len(),
        i > 0 || d.initiators.len() < MAX_SEEN_INITIATORS || d.initiators.contains(
            (s.target, from),
        ),
    ensures
        input(d, from, packet_bytes(p), now).initiators.contains(d.initiators[i]),
        input(d, from, packet_bytes(p), now).initiators.len() <= if d.initiators.len()
            < MAX_SEEN_INITIATORS {
            MAX_SEEN_INITIATORS as nat
        } else {
            d.initiators.len()
        },
{
    law_packet_roundtrip(p);
    law_request_is_passed_on(d, from, p, now, s, addr, a, b);
    let key = (s.target, from);
    let e = sighted(d, from, p);
    lemma_own_record(e, s.target, addr, a, b);
    let r = input(d, from, packet_bytes(p), now).initiators;
    assert(r == remembered(d.initiators, key));
    if d.initiators.contains(key) {
        assert(r[i] == d.initiators[i]);
    } else if d.initiators.len() >= MAX_SEEN_INITIATORS {
        assert(r[i - 1] == d.initiators[i]);
    } else {
        assert(r[i] == d.initiators[i]);
    }
}

proof fn lemma_others_outlive_a_timeout(d: DhtView, stale: Seq<ConnectView>, x: Pending, q: QueryView)
    requires
        d.pending.contains(x),
        forall|i: int|
            0 <= i < stale.len() ==> !is_connect(d.queries, x.query, (#[trigger] stale[i]).target),
        d.queries.contains(q),
        q.kind != QueryKind::Connect || forall|i: int|
            0 <= i < stale.len() ==> (#[trigger] stale[i]).target != q.target,
    ensures
        all_timed_out(d, stale).pending.contains(x),
        all_timed_out(d, stale).queries.contains(q),
        forall|y: QueryView| #[trigger]
            all_timed_out(d, stale).queries.contains(y) ==> d.queries.contains(y),
    decreases stale.len(),
{
    if stale.len() > 0 {
        let rest = stale.drop_last();
        assert forall|i: int| 0 <= i < rest.len() implies !is_connect(
            d.queries,
            x.query,
            (#[trigger] rest[i]).target,
        ) by {
            assert(rest[i] == stale[i]);
        }
        if q.kind == QueryKind::Connect {
            assert forall|i: int| 0 <= i < rest.len() implies (#[trigger] rest[i]).target
                != q.target by {
                assert(rest[i] == stale[i]);
            }
        }
        lemma_others_outlive_a_timeout(d, rest, x, q);
        let e = all_timed_out(d, rest);
        let t = stale.last().target;
        assert(stale[stale.len() - 1].target == t);
        if is_connect(e.queries, x.query, t) {
            let i = choose|i: int|
                0 <= i < e.queries.len() && #[trigger] e.queries[i].qid == x.query
                    && e.queries[i].kind == QueryKind::Connect && e.queries[i].target == t;
            assert(e.queries.contains(e.queries[i]));
            let j = d.queries.index_of(e.queries[i]);
            assert(d.queries[j].qid == x.query);
        }
        lemma_kept(e.pending, not_of_connect(e.queries, t));
        lemma_kept(e.queries, not_connecting(t));
    }
}

/// A connect that times out takes no other query with it: where no request is due, every
/// query but those for the connects that are, and every request made for another query,
/// goes on.
pub proof fn law_other_queries_outlive_a_timeout(
    d: DhtView,
    now: u64,
    x: Pending,
    q: QueryView,
)
    requires
        forall|j: int| 0 <= j < d.pending.len() ==> (#[trigger] d.pending[j]).deadline > now,
        d.pending.contains(x),
        forall|c: int, i: int|
            0 <= c < d.connecting.len() && d.connecting[c].deadline <= now && 0 <= i
                < d.queries.len() && (#[trigger] d.queries[i]).qid == x.query && d.queries[i].kind
                == QueryKind::Connect ==> d.queries[i].target != (#[trigger] d.connecting[c]).target,
        d.queries.contains(q),
        q.kind != QueryKind::Connect || forall|c: int|
            0 <= c < d.connecting.len() && d.connecting[c].deadline <= now ==> (
            #[trigger] d.connecting[c]).target != q.target,
    ensures
        timers_fired(d, now).pending.contains(x),
        timers_fired(d, now).queries.contains(q),
{
    let late = kept(d.pending, due(now));
    lemma_kept(d.pending, due(now));
    if late.len() > 0 {
        assert(late.contains(late[0]));
        let j = d.pending.index_of(late[0]);
        assert(d.pending[j].deadline > now);
    }
    let d2 = DhtView { probes: kept(d.probes, live_probe(now)), ..d };
    let gone = kept(d.connecting, stale(now));
    lemma_kept(d.connecting, stale(now));
    assert forall|k: int| 0 <= k < gone.len() implies exists|c: int|
        0 <= c < d.connecting.len() && d.connecting[c].deadline <= now && (
        #[trigger] d.connecting[c]) == #[trigger] gone[k] by {
        assert(gone.contains(gone[k]));
        let c = d.connecting.index_of(gone[k]);
        assert(d.connecting[c] == gone[k]);
    }
    assert forall|k: int| 0 <= k < gone.len() implies !is_connect(
        d2.queries,
        x.query,
        (#[trigger] gone[k]).target,
    ) by {
        let c = choose|c: int|
            0 <= c < d.connecting.len() && d.connecting[c].deadline <= now && (
            #[trigger] d.connecting[c]) == gone[k];
        if is_connect(d2.queries, x.query, gone[k].target) {
            let i = choose|i: int|
                0 <= i < d2.queries.len() && #[trigger] d2.queries[i].qid == x.query
                    && d2.queries[i].kind == QueryKind::Connect && d2.queries[i].target
                    == gone[k].target;
            assert(d.queries[i].target != d.connecting[c].target);
        }
    }
    if q.kind == QueryKind::Connect {
        assert forall|k: int| 0 <= k < gone.len() implies (#[trigger] gone[k]).target
            != q.target by {
            let c = choose|c: int|
                0 <= c < d.connecting.len() && d.connecting[c].deadline <= now && (
                #[trigger] d.connecting[c]) == gone[k];
            assert(d.connecting[c].target != q.target);
        }
    }
    lemma_others_outlive_a_timeout(d2, gone, x, q);
}

/// A request for a peer that is not on record, and an answer that nobody awaits, come to
/// nothing.
pub proof fn law_what_concerns_nobody_comes_to_nothing(
    d: DhtView,
    from: SocketAddr,
    p: PacketView,
    now: u64,
)
    requires
        countable(p.msg),
        match p.msg {
            MessageView::Signal { target, is_reply, .. } => !is_reply && target != d.id && forall|
                a: int,
                b: int,
            |
                0 <= a < d.announces.len() && 0 <= b < d.announces[a].peers.len() ==> (
                #[trigger] d.announces[a].peers[b]).id != target,
            MessageView::Nodes { .. } => forall|j: int|
                0 <= j < d.pending.len() ==> (#[trigger] d.pending[j]).rid != p.rid,
            MessageView::Reflected { .. } => true,
            _ => false,
        },
    ensures
        input(d, from, packet_bytes(p), now) == (DhtView {
            table: input(d, from, packet_bytes(p), now).table,
            ..d
        }),
{
    law_packet_roundtrip(p);
    let e = sighted(d, from, p);
    match p.msg {
        MessageView::Signal { target, .. } => {
            lemma_first(e.announces, on_topic(target));
            if let Some(a) = first(e.announces, on_topic(target)) {
                let peers = e.announces[a].peers;
                assert forall|j: int| 0 <= j < peers.len() implies !with_id(target)(
                    #[trigger] peers[j],
                ) by {
                    assert(d.announces[a].peers[j].id != target);
                }
                lemma_first_none(peers, with_id(target));
            } else {
                lemma_first_none(Seq::<Contact>::empty(), with_id(target));
            }
        },
        MessageView::Nodes { .. } => {
            assert forall|j: int| 0 <= j < d.pending.len() implies !with_rid(p.rid)(
                #[trigger] d.pending[j],
            ) by {}
            lemma_first_none(d.pending, with_rid(p.rid));
        },
        _ => {},
    }
}

proof fn lemma_started_alone(d: DhtView, target: NodeId, kind: QueryKind, now: u64)
    requires
        nearest(d.table, target, K as nat).len() == 0,
        forall|j: int| 0 <= j < d.queries.len() ==> (#[trigger] d.queries[j]).qid != d.next_qid,
    ensures
        ({
            let q = QueryView {
                qid: d.next_qid,
                target,
                kind,
                contacts: Seq::empty(),
                coordinators: Seq::empty(),
                peers: Seq::empty(),
            };
            started(d, target, kind, now) == finished(
                DhtView { next_qid: d.next_qid.wrapping_add(1), ..d },
                q,
                Seq::empty(),
            )
        }),
{
    let s = nearest(d.table, target, K as nat);
    assert(s =~= Seq::<Contact>::empty());
    let contacts = all_added(Seq::<QueryContact>::empty(), s, target, None);
    assert(contacts =~= Seq::<QueryContact>::empty());
    let q = QueryView {
        qid: d.next_qid,
        target,
        kind,
        contacts,
        coordinators: Seq::empty(),
        peers: Seq::empty(),
    };
    let e = DhtView {
        queries: d.queries.push(q),
        next_qid: d.next_qid.wrapping_add(1),
        ..d
    };
    let k = d.queries.len() as int;
    assert forall|j: int| 0 <= j < k implies !with_qid(d.next_qid)(#[trigger] e.queries[j]) by {
        assert(e.queries[j] == d.queries[j]);
    }
    assert(e.queries[k] == q);
    lemma_first_at(e.queries, with_qid(d.next_qid), k);
    assert(e.queries.remove(k) =~= d.queries);
    assert(answered(contacts, near(contacts)) =~= Seq::<Contact>::empty());
}

/// A node that knows nobody is done with whatever it is asked for at once, and reports it
/// as what it was asked for.
pub proof fn law_lonely_node_is_done_at_once(
    d: &mut Dht,
    announcing: &mut Dht,
    finding: &mut Dht,
    joining: &mut Dht,
    topic: NodeId,
    now: u64,
    looked: u64,
    announced: u64,
    found: u64,
    joined: u64,
)
    requires
        call_ensures(Dht::lookup, (d, topic, now), looked),
        call_ensures(Dht::announce, (announcing, topic, now), announced),
        call_ensures(Dht::find_node, (finding, topic, now), found),
        call_ensures(Dht::bootstrap, (joining, now), joined),
        forall|j: int|
            0 <= j < old(d)@.queries.len() ==> (#[trigger] old(d)@.queries[j]).qid != old(
                d,
            )@.next_qid,
        old(announcing)@ == old(d)@,
        old(finding)@ == old(d)@,
        old(joining)@ == old(d)@,
        nearest(old(d)@.table, topic, K as nat).len() == 0,
        nearest(old(d)@.table, old(d)@.id, K as nat).len() == 0,
    ensures
        final(d)@.events == old(d)@.events.push(
            EventView::LookupFinished { topic, peers: Seq::empty() },
        ),
        final(announcing)@.events == old(d)@.events.push(EventView::AnnounceFinished { topic }),
        final(finding)@.events == old(d)@.events.push(
            EventView::QueryFinished { query: found, target: topic, closest: Seq::empty() },
        ),
        final(joining)@.events == old(d)@.events.push(
            EventView::QueryFinished { query: joined, target: old(d)@.id, closest: Seq::empty() },
        ),
{
    let v = old(d)@;
    lemma_started_alone(v, topic, QueryKind::Lookup, now);
    lemma_started_alone(v, topic, QueryKind::Announce, now);
    lemma_started_alone(v, topic, QueryKind::FindNode, now);
    lemma_started_alone(v, v.id, QueryKind::FindNode, now);
}

/// A connect from a node that knows nobody finds nobody, and says so.
pub proof fn law_lonely_connect_finds_nobody(
    d: &mut Dht,
    target: NodeId,
    data_addrs: Vec<SocketAddr>,
    now: u64,
    r: u64,
)
    requires
        call_ensures(Dht::connect, (d, target, data_addrs, now), r),
        forall|j: int|
            0 <= j < old(d)@.queries.len() ==> (#[trigger] old(d)@.queries[j]).qid != old(
                d,
            )@.next_qid,
        nearest(old(d)@.table, target, K as nat).len() == 0,
    ensures
        final(d)@.events == old(d)@.events.push(
            EventView::Connected {
                target,
                outcome: ConnectOutcome::NotFound,
                peer_data_addrs: Seq::empty(),
                strategy: None,
            },
        ),
        final(d)@.outbox == old(d)@.outbox,
{
    let v = old(d)@;
    let c = ConnectView {
        target,
        deadline: (now + CONNECT_TIMEOUT_MS) as u64,
        coordinator: None,
        data_addrs: data_addrs@,
    };
    let connecting = match first(v.connecting, to_target(target)) {
        Some(k) => v.connecting.update(k, c),
        None => v.connecting.push(c),
    };
    lemma_started_alone(DhtView { connecting, ..v }, target, QueryKind::Connect, now);
}

/// Whatever a node is asked for, it begins by asking the contact it knows nearest to it.
pub proof fn law_whatever_is_asked_begins_with_the_nearest(
    d: &mut Dht,
    announcing: &mut Dht,
    finding: &mut Dht,
    topic: NodeId,
    now: u64,
    looked: u64,
    announced: u64,
    found: u64,
)
    requires
        call_ensures(Dht::lookup, (d, topic, now), looked),
        call_ensures(Dht::announce, (announcing, topic, now), announced),
        call_ensures(Dht::find_node, (finding, topic, now), found),
        forall|j: int|
            0 <= j < old(d)@.queries.len() ==> (#[trigger] old(d)@.queries[j]).qid != old(
                d,
            )@.next_qid,
        old(announcing)@ == old(d)@,
        old(finding)@ == old(d)@,
        old(d)@.next_rid + K <= u64::MAX,
        now + REQUEST_TIMEOUT_MS <= u64::MAX,
        nearest(old(d)@.table, topic, K as nat).len() > 0,
        forall|a: int, b: int|
            0 <= a < b < nearest(old(d)@.table, topic, K as nat).len() ==> (#[trigger] nearest(
                old(d)@.table,
                topic,
                K as nat,
            )[a]).id != (#[trigger] nearest(old(d)@.table, topic, K as nat)[b]).id,
    ensures
        ({
            let v = old(d)@;
            let n = v.outbox.len();
            let to = nearest(v.table, topic, K as nat)[0].addr;
            &&& asks_for(final(d)@, n, to, v.id, topic)
            &&& asks_for(final(announcing)@, n, to, v.id, topic)
            &&& asks_for(final(finding)@, n, to, v.id, topic)
        }),
{
    law_query_begins_with_the_nearest(old(d)@, topic, QueryKind::Lookup, now, 0);
    law_query_begins_with_the_nearest(old(d)@, topic, QueryKind::Announce, now, 0);
    law_query_begins_with_the_nearest(old(d)@, topic, QueryKind::FindNode, now, 0);
}

/// The firewall type that is set is the one told to others until enough has been observed;
/// a node found reachable tells that it is open once its port proves stable.
pub proof fn law_firewall_that_is_set_is_told(
    d: &mut Dht,
    e: &mut Dht,
    fw: Firewall,
    reachable: bool,
    i: int,
    j: int,
    k: int,
)
    requires
        call_ensures(Dht::set_firewall, (d, fw), ()),
        call_ensures(Dht::note_reachable, (e, reachable), ()),
        0 <= i < j < k < old(e)@.seen_at.len(),
        old(e)@.seen_at[i].port == old(e)@.seen_at[j].port,
        old(e)@.seen_at[j].port == old(e)@.seen_at[k].port,
    ensures
        old(d)@.seen_at.len() < 3 ==> advertised(final(d)@) == fw,
        advertised(final(e)@) == (if reachable {
            Firewall::Open
        } else {
            Firewall::Consistent
        }),
        final(d)@.outbox == old(d)@.outbox,
        final(e)@.outbox == old(e)@.outbox,
{
    law_observed_firewall_is_told(final(d)@, 0, 0, 0);
    law_observed_firewall_is_told(final(e)@, i, j, k);
}

/// Sampling one's own address probes the contacts known, as many as asked for at most and
/// those nearest to oneself.
pub proof fn law_sampling_probes_the_nearest(d: &mut Dht, now: u64, count: usize, i: int)
    requires
        call_ensures(Dht::sample_nat, (d, now, count), ()),
        old(d)@.next_rid + nearest(old(d)@.table, old(d)@.id, count as nat).len() <= u64::MAX,
        now + REQUEST_TIMEOUT_MS <= u64::MAX,
    ensures
        ({
            let v = old(d)@;
            let peers = nearest(v.table, v.id, count as nat);
            &&& final(d)@.outbox.len() == v.outbox.len() + peers.len()
            &&& final(d)@.probes.len() == v.probes.len() + peers.len()
            &&& 0 <= i < peers.len() ==> final(d)@.outbox[v.outbox.len() + i].to == peers[i].addr
            &&& peers.len() <= count
        }),
{
    let v = old(d)@;
    law_every_peer_is_probed(v, nearest(v.table, v.id, count as nat), now);
}

/// What a node has to send, and what it has to tell, comes out in the order in which it
/// came up, each once.
pub proof fn law_first_come_first_out(
    d: &mut Dht,
    e: &mut Dht,
    sent: Option<Transmit>,
    told: Option<Event>,
)
    requires
        call_ensures(Dht::poll_transmit, (d,), sent),
        call_ensures(Dht::poll_event, (e,), told),
    ensures
        sent is None <==> old(d)@.outbox.len() == 0,
        sent matches Some(t) ==> seq![t@] + final(d)@.outbox == old(d)@.outbox,
        final(d)@.events == old(d)@.events,
        told is None <==> old(e)@.events.len() == 0,
        told matches Some(t) ==> seq![t@] + final(e)@.events == old(e)@.events,
        final(e)@.outbox == old(e)@.outbox,
{
    if let Some(t) = sent {
        assert(seq![t@] + old(d)@.outbox.skip(1) =~= old(d)@.outbox);
    }
    if let Some(t) = told {
        assert(seq![t@] + old(e)@.events.skip(1) =~= old(e)@.events);
    }
}

proof fn lemma_timed_out_are_dropped(d: DhtView, stale: Seq<ConnectView>, t: NodeId, x: Pending)
    ensures
        ({
            let r = all_timed_out(d, stale);
            let is_stale = exists|i: int| 0 <= i < stale.len() && (#[trigger] stale[i]).target == t;
            &&& forall|q: QueryView| #[trigger]
                r.queries.contains(q) ==> d.queries.contains(q) && !(is_stale && q.kind
                    == QueryKind::Connect && q.target == t)
            &&& forall|q: QueryView|
                d.queries.contains(q) && q.kind == QueryKind::Connect && q.target == t && !is_stale
                    ==> #[trigger] r.queries.contains(q)
            &&& r.pending.contains(x) ==> d.pending.contains(x) && !(is_stale && is_connect(
                d.queries,
                x.query,
                t,
            ))
        }),
    decreases stale.len(),
{
    if stale.len() > 0 {
        let rest = stale.drop_last();
        let n = stale.len() - 1;
        let s = stale.last().target;
        lemma_timed_out_are_dropped(d, rest, t, x);
        let e = all_timed_out(d, rest);
        let r = all_timed_out(d, stale);
        let was = exists|i: int| 0 <= i < rest.len() && (#[trigger] rest[i]).target == t;
        assert(stale[n].target == s);
        if was {
            let i = choose|i: int| 0 <= i < rest.len() && (#[trigger] rest[i]).target == t;
            assert(stale[i].target == t);
        }
        assert forall|i: int| 0 <= i < n && (#[trigger] stale[i]).target == t implies was by {
            assert(rest[i] == stale[i]);
        }
        lemma_kept(e.queries, not_connecting(s));
        lemma_kept(e.pending, not_of_connect(e.queries, s));
        if r.pending.contains(x) && s == t && !was && is_connect(d.queries, x.query, t) {
            let i = choose|i: int|
                0 <= i < d.queries.len() && #[trigger] d.queries[i].qid == x.query
                    && d.queries[i].kind == QueryKind::Connect && d.queries[i].target == t;
            assert(d.queries.contains(d.queries[i]));
            assert(e.queries.contains(d.queries[i]));
            let j = e.queries.index_of(d.queries[i]);
            assert(e.queries[j].qid == x.query);
            assert(is_connect(e.queries, x.query, t));
        }
    }
}

/// A connect that times out is given up altogether: where no request is due, none of its
/// queries goes on, and no answer to one of its requests is awaited.
pub proof fn law_timed_out_connect_is_given_up(
    d: DhtView,
    now: u64,
    c: int,
    q: QueryView,
    x: Pending,
)
    requires
        forall|j: int| 0 <= j < d.pending.len() ==> (#[trigger] d.pending[j]).deadline > now,
        0 <= c < d.connecting.len(),
        d.connecting[c].deadline <= now,
    ensures
        timers_fired(d, now).queries.contains(q) ==> !(q.kind == QueryKind::Connect && q.target
            == d.connecting[c].target),
        timers_fired(d, now).pending.contains(x) ==> forall|i: int|
            0 <= i < d.queries.len() && (#[trigger] d.queries[i]).qid == x.query
                && d.queries[i].kind == QueryKind::Connect ==> d.queries[i].target
                != d.connecting[c].target,
{
    let late = kept(d.pending, due(now));
    lemma_kept(d.pending, due(now));
    if late.len() > 0 {
        assert(late.contains(late[0]));
        let j = d.pending.index_of(late[0]);
        assert(d.pending[j].deadline > now);
    }
    let d2 = DhtView { probes: kept(d.probes, live_probe(now)), ..d };
    let gone = kept(d.connecting, stale(now));
    lemma_kept(d.connecting, stale(now));
    assert(stale(now)(d.connecting[c]));
    assert(gone.contains(d.connecting[c]));
    let k = gone.index_of(d.connecting[c]);
    assert(gone[k].target == d.connecting[c].target);
    lemma_timed_out_are_dropped(d2, gone, d.connecting[c].target, x);
    if timers_fired(d, now).pending.contains(x) {
        assert forall|i: int|
            0 <= i < d.queries.len() && (#[trigger] d.queries[i]).qid == x.query
                && d.queries[i].kind == QueryKind::Connect implies d.queries[i].target
            != d.connecting[c].target by {
            if d.queries[i].target == d.connecting[c].target {
                assert(is_connect(d2.queries, x.query, d.connecting[c].target));
            }
        }
    }
}

} // verus!
