//! What holds of every node, whatever it is sent, and what its exchanges
//! promise.
use crate::addr::SocketAddr;
use crate::dht::{
    accepted, all_added, all_given_up, all_refreshed, all_timed_out, answered, connect_begun,
    disconnected, driven, due, enriched, finished, fresh_node, from_coordinator, from_initiator,
    given_up, in_flight, input, is_next_timer, is_own_record, launched, listed, live_incoming,
    live_probe, marked, near, next_timer, nodes_received, not_connecting, not_of_connect, on_topic,
    own_record, pinged, records, refreshed, registered, requested, sent, shortlisted, sighted,
    signal, signaled, stale, started, stored, timer_at, timers_fired, to_target, with_id, with_qid,
    with_rid, AnnouncedView, ConnectOutcome, ConnectView, DhtView, EventView, Pending, QueryContact,
    QueryKind, QueryView, SignalView, Status, TransmitView, ALPHA, MAX_ANNOUNCE_TOPICS,
    MAX_PENDING_INCOMING, MAX_SEEN_INITIATORS, REQUEST_TIMEOUT_MS,
};
use crate::id::{dist, law_closest_is_unique, law_distance_symmetric, NodeId};
use crate::lists::{first, kept, lemma_first, lemma_first_at, lemma_kept, lemma_push_contains};
use crate::msg::{packet_bytes, read_packet, MessageView, PacketView};
use crate::routing::{nearest, Contact, K};
use vstd::prelude::*;

verus! {

/// A shortlist stands nearest first, and so lists no contact twice.
pub open spec fn nearest_first(s: Seq<QueryContact>, target: NodeId) -> bool {
    forall|i: int, j: int|
        0 <= i < j < s.len() ==> dist((#[trigger] s[i]).contact.id, target) < dist(
            (#[trigger] s[j]).contact.id,
            target,
        )
}

/// Contacts stand nearest first, and so each is there once.
pub open spec fn sorted_to(s: Seq<Contact>, target: NodeId) -> bool {
    forall|i: int, j: int|
        0 <= i < j < s.len() ==> dist((#[trigger] s[i]).id, target) < dist(
            (#[trigger] s[j]).id,
            target,
        )
}

/// No peer is being connected to twice.
pub open spec fn one_each(s: Seq<ConnectView>) -> bool {
    forall|i: int, j: int|
        0 <= i < j < s.len() ==> (#[trigger] s[i]).target != (#[trigger] s[j]).target
}

/// The announce records of every topic are within their cap.
pub open spec fn few_each(s: Seq<AnnouncedView>) -> bool {
    forall|i: int| 0 <= i < s.len() ==> (#[trigger] s[i]).peers.len() <= K
}

/// A lookup's shortlist stands nearest first, and few of its requests are in flight.
pub open spec fn lookup_ok(q: QueryView) -> bool {
    nearest_first(q.contacts, q.target) && in_flight(q.contacts) <= ALPHA
}

/// Every lookup is in order.
pub open spec fn lookups_ok(s: Seq<QueryView>) -> bool {
    forall|i: int| 0 <= i < s.len() ==> lookup_ok(#[trigger] s[i])
}

/// The contacts that a lookup reported stand nearest first, each once, and are no
/// more than a bucket's.
pub open spec fn report_ok(e: EventView) -> bool {
    e matches EventView::QueryFinished { target, closest, .. } ==> closest.len() <= K && sorted_to(
        closest,
        target,
    )
}

/// Everything that was reported is in order.
pub open spec fn reports_ok(s: Seq<EventView>) -> bool {
    forall|i: int| 0 <= i < s.len() ==> report_ok(#[trigger] s[i])
}

/// What holds of every node: its lookups search outward from the target, list no
/// contact twice and have at most [`ALPHA`] requests in flight, what they report is
/// sorted, it connects to no peer twice at once, and what others can make it store
/// is bounded.
pub open spec fn healthy(d: DhtView) -> bool {
    &&& lookups_ok(d.queries)
    &&& reports_ok(d.events)
    &&& one_each(d.connecting)
    &&& d.announces.len() <= MAX_ANNOUNCE_TOPICS
    &&& few_each(d.announces)
    &&& d.initiators.len() <= MAX_SEEN_INITIATORS
    &&& d.incoming.len() <= MAX_PENDING_INCOMING
}

/// A new node is healthy.
pub proof fn law_new_node_is_healthy(id: NodeId)
    ensures
        healthy(fresh_node(id)),
{
}

/// No two contacts are equally far from a target.
proof fn lemma_dist_tells_apart(a: NodeId, b: NodeId, target: NodeId)
    requires
        dist(a, target) == dist(b, target),
    ensures
        a == b,
{
    law_distance_symmetric(a, target);
    law_distance_symmetric(b, target);
    law_closest_is_unique(target, a, b);
}

/// Putting a contact in its place keeps a shortlist sorted.
proof fn lemma_shortlisted(s: Seq<QueryContact>, c: QueryContact, target: NodeId)
    requires
        nearest_first(s, target),
        c.status != Status::InFlight,
        forall|i: int| 0 <= i < s.len() ==> (#[trigger] s[i]).contact.id != c.contact.id,
    ensures
        nearest_first(shortlisted(s, c, target), target),
        in_flight(shortlisted(s, c, target)) == in_flight(s),
        forall|x: QueryContact|
            #[trigger] shortlisted(s, c, target).contains(x) <==> s.contains(x) || x == c,
    decreases s.len(),
{
    let r = shortlisted(s, c, target);
    if s.len() > 0 {
        assert(s.last() == s[s.len() - 1]);
        if dist(s.last().contact.id, target) == dist(c.contact.id, target) {
            lemma_dist_tells_apart(s.last().contact.id, c.contact.id, target);
        }
    }
    if s.len() == 0 || dist(s.last().contact.id, target) <= dist(c.contact.id, target) {
        assert forall|i: int, j: int| 0 <= i < j < r.len() implies dist(
            (#[trigger] r[i]).contact.id,
            target,
        ) < dist((#[trigger] r[j]).contact.id, target) by {
            assert(r[i] == s[i]);
            assert(s.last() == s[s.len() - 1]);
            if j < s.len() {
                assert(r[j] == s[j]);
            } else if i < s.len() - 1 {
                assert(dist(s[i].contact.id, target) < dist(s[s.len() - 1].contact.id, target));
            }
        }
        assert forall|x: QueryContact| #[trigger] r.contains(x) <==> s.contains(x) || x == c by {
            lemma_push_contains(s, c, x);
        }
        assert(r.drop_last() =~= s);
    } else {
        let rest = s.drop_last();
        assert forall|i: int| 0 <= i < rest.len() implies (#[trigger] rest[i]).contact.id
            != c.contact.id by {
            assert(rest[i] == s[i]);
        }
        assert forall|i: int, j: int| 0 <= i < j < rest.len() implies dist(
            (#[trigger] rest[i]).contact.id,
            target,
        ) < dist((#[trigger] rest[j]).contact.id, target) by {
            assert(rest[i] == s[i] && rest[j] == s[j]);
        }
        lemma_shortlisted(rest, c, target);
        let p = shortlisted(rest, c, target);
        assert(s =~= rest.push(s.last()));
        assert(r.drop_last() =~= p);
        assert forall|i: int, j: int| 0 <= i < j < r.len() implies dist(
            (#[trigger] r[i]).contact.id,
            target,
        ) < dist((#[trigger] r[j]).contact.id, target) by {
            assert(r[i] == p[i]);
            if j < p.len() {
                assert(r[j] == p[j]);
            } else {
                assert(p.contains(p[i]));
                if p[i] != c {
                    let k = rest.index_of(p[i]);
                    assert(s[k] == p[i]);
                    assert(dist(s[k].contact.id, target) < dist(
                        s[s.len() - 1].contact.id,
                        target,
                    ));
                }
            }
        }
        assert forall|x: QueryContact| #[trigger] r.contains(x) <==> s.contains(x) || x == c by {
            lemma_push_contains(p, s.last(), x);
            lemma_push_contains(rest, s.last(), x);
            assert(p.contains(x) <==> rest.contains(x) || x == c);
        }
    }
}

/// Adding contacts keeps a shortlist sorted.
pub proof fn lemma_all_added(
    s: Seq<QueryContact>,
    new: Seq<Contact>,
    target: NodeId,
    me: Option<NodeId>,
)
    requires
        nearest_first(s, target),
    ensures
        nearest_first(all_added(s, new, target, me), target),
        in_flight(all_added(s, new, target, me)) == in_flight(s),
        forall|x: QueryContact|
            s.contains(x) ==> #[trigger] all_added(s, new, target, me).contains(x),
        forall|x: QueryContact| #[trigger]
            all_added(s, new, target, me).contains(x) && !s.contains(x) ==> x.status
                == Status::Fresh,
    decreases new.len(),
{
    if new.len() > 0 {
        lemma_all_added(s, new.drop_last(), target, me);
        let before = all_added(s, new.drop_last(), target, me);
        lemma_first(before, listed(new.last().id));
        if first(before, listed(new.last().id)) is None {
            assert forall|i: int| 0 <= i < before.len() implies (#[trigger] before[i]).contact.id
                != new.last().id by {
                assert(!listed(new.last().id)(before[i]));
            }
            lemma_shortlisted(
                before,
                QueryContact { contact: new.last(), status: Status::Fresh },
                target,
            );
        }
    }
}

proof fn lemma_in_flight_less(s: Seq<QueryContact>, i: int, status: Status)
    requires
        0 <= i < s.len(),
        status != Status::InFlight,
    ensures
        in_flight(s.update(i, QueryContact { status, ..s[i] })) <= in_flight(s),
    decreases s.len(),
{
    let r = s.update(i, QueryContact { status, ..s[i] });
    if i == s.len() - 1 {
        assert(r.drop_last() =~= s.drop_last());
    } else {
        lemma_in_flight_less(s.drop_last(), i, status);
        assert(r.drop_last() =~= s.drop_last().update(i, QueryContact { status, ..s[i] }));
    }
}

/// Changing a status moves nothing.
pub proof fn lemma_marked(s: Seq<QueryContact>, id: NodeId, status: Status, target: NodeId)
    requires
        nearest_first(s, target),
        status != Status::InFlight,
    ensures
        nearest_first(marked(s, id, status), target),
        in_flight(marked(s, id, status)) <= in_flight(s),
{
    lemma_first(s, listed(id));
    if let Some(k) = first(s, listed(id)) {
        lemma_in_flight_less(s, k, status);
    }
    let r = marked(s, id, status);
    assert forall|i: int| 0 <= i < r.len() implies (#[trigger] r[i]).contact == s[i].contact by {}
    assert forall|i: int, j: int| 0 <= i < j < r.len() implies dist(
        (#[trigger] r[i]).contact.id,
        target,
    ) < dist((#[trigger] r[j]).contact.id, target) by {
        assert(dist(s[i].contact.id, target) < dist(s[j].contact.id, target));
    }
}

/// Asking contacts moves nothing.
proof fn lemma_launched_order(s: Seq<QueryContact>, i: nat, flying: nat)
    ensures
        launched(s, i, flying).0.len() == s.len(),
        forall|j: int|
            0 <= j < s.len() ==> (#[trigger] launched(s, i, flying).0[j]).contact == s[j].contact,
    decreases K - i,
{
    if i >= s.len() || i >= K || flying >= ALPHA {
    } else if s[i as int].status == Status::Fresh {
        let next = s.update(
            i as int,
            QueryContact { status: Status::InFlight, ..s[i as int] },
        );
        lemma_launched_order(next, i + 1, flying + 1);
        assert forall|j: int| 0 <= j < s.len() implies (
        #[trigger] launched(s, i, flying).0[j]).contact == s[j].contact by {
            assert(next[j].contact == s[j].contact);
        }
    } else {
        lemma_launched_order(s, i + 1, flying);
    }
}

/// A change of one status changes the count by at most one.
proof fn lemma_in_flight_update(s: Seq<QueryContact>, i: int)
    requires
        0 <= i < s.len(),
        s[i].status == Status::Fresh,
    ensures
        in_flight(s.update(i, QueryContact { status: Status::InFlight, ..s[i] })) == in_flight(s)
            + 1,
    decreases s.len(),
{
    let r = s.update(i, QueryContact { status: Status::InFlight, ..s[i] });
    if i == s.len() - 1 {
        assert(r.drop_last() =~= s.drop_last());
    } else {
        lemma_in_flight_update(s.drop_last(), i);
        assert(r.drop_last() =~= s.drop_last().update(
            i,
            QueryContact { status: Status::InFlight, ..s[i] },
        ));
    }
}

/// What asking contacts comes to, from the `i`-th on.
pub proof fn lemma_launched(s: Seq<QueryContact>, i: nat, flying: nat)
    requires
        flying == in_flight(s),
    ensures
        in_flight(launched(s, i, flying).0) == flying + launched(s, i, flying).1.len(),
        flying <= ALPHA ==> in_flight(launched(s, i, flying).0) <= ALPHA,
        in_flight(launched(s, i, flying).0) < ALPHA ==> forall|j: int|
            i <= j < near(s) ==> (#[trigger] launched(s, i, flying).0[j]).status != Status::Fresh,
        forall|j: int|
            0 <= j < i && j < s.len() ==> #[trigger] launched(s, i, flying).0[j] == s[j],
    decreases K - i,
{
    lemma_launched_order(s, i, flying);
    if i >= s.len() || i >= K || flying >= ALPHA {
    } else if s[i as int].status == Status::Fresh {
        let next = s.update(
            i as int,
            QueryContact { status: Status::InFlight, ..s[i as int] },
        );
        lemma_in_flight_update(s, i as int);
        lemma_launched(next, i + 1, flying + 1);
        let r = launched(next, i + 1, flying + 1).0;
        assert(r[i as int] == next[i as int]);
        assert forall|j: int| 0 <= j < i && j < s.len() implies #[trigger] r[j] == s[j] by {
            assert(r[j] == next[j]);
        }
    } else {
        lemma_launched(s, i + 1, flying);
        assert(launched(s, i + 1, flying).0[i as int] == s[i as int]);
    }
}

/// A lookup never has more than [`ALPHA`] requests in flight, and while it has
/// fewer it has left none of the `K` nearest contacts unasked. So a lookup that
/// ends, with nothing in flight, has asked them all.
pub proof fn law_lookup_asks_the_nearest(s: Seq<QueryContact>)
    requires
        in_flight(s) <= ALPHA,
    ensures
        ({
            let after = launched(s, 0, in_flight(s)).0;
            &&& in_flight(after) <= ALPHA
            &&& in_flight(after) < ALPHA ==> forall|j: int|
                0 <= j < near(s) ==> (#[trigger] after[j]).status != Status::Fresh
        }),
{
    lemma_launched(s, 0, in_flight(s));
}

/// The contacts a lookup reports are the nearest it has, nearest first, and each
/// of them answered.
pub proof fn law_reported_nearest_first(s: Seq<QueryContact>, target: NodeId, n: nat)
    requires
        nearest_first(s, target),
        n <= s.len(),
    ensures
        answered(s, n).len() <= n,
        sorted_to(answered(s, n), target),
        forall|c: Contact| #[trigger] answered(s, n).contains(c) <==> exists|i: int|
            0 <= i < n && #[trigger] s[i] == (QueryContact { contact: c, status: Status::Done }),
    decreases n,
{
    let r = answered(s, n);
    if n > 0 {
        law_reported_nearest_first(s, target, (n - 1) as nat);
        let p = answered(s, (n - 1) as nat);
        if s[n - 1].status == Status::Done {
            assert forall|i: int, j: int| 0 <= i < j < r.len() implies dist(
                (#[trigger] r[i]).id,
                target,
            ) < dist((#[trigger] r[j]).id, target) by {
                assert(r[i] == p[i]);
                if j < p.len() {
                    assert(r[j] == p[j]);
                } else {
                    assert(p.contains(p[i]));
                    let k = choose|k: int|
                        0 <= k < n - 1 && #[trigger] s[k] == (QueryContact {
                            contact: p[i],
                            status: Status::Done,
                        });
                    assert(dist(s[k].contact.id, target) < dist(s[n - 1].contact.id, target));
                }
            }
        }
        assert forall|c: Contact| #[trigger] r.contains(c) <==> exists|i: int|
            0 <= i < n && #[trigger] s[i] == (QueryContact {
                contact: c,
                status: Status::Done,
            }) by {
            let q = QueryContact { contact: c, status: Status::Done };
            lemma_push_contains(p, s[n - 1].contact, c);
            assert(p.contains(c) <==> exists|i: int| 0 <= i < n - 1 && #[trigger] s[i] == q);
            if r.contains(c) {
                if p.contains(c) {
                    let k = choose|k: int| 0 <= k < n - 1 && #[trigger] s[k] == q;
                    assert(0 <= k < n && s[k] == q);
                } else {
                    assert(s[n - 1] == q);
                }
            }
            if exists|i: int| 0 <= i < n && #[trigger] s[i] == q {
                let k = choose|k: int| 0 <= k < n && #[trigger] s[k] == q;
                if k < n - 1 {
                    assert(p.contains(c));
                } else {
                    assert(s[n - 1] == q);
                }
            }
        }
    }
}

/// Whether a lookup has asked a contact, whatever came of it.
pub open spec fn was_asked(s: Seq<QueryContact>, id: NodeId) -> bool {
    exists|i: int| 0 <= i < s.len() && (#[trigger] s[i]).contact.id == id && s[i].status
        != Status::Fresh
}

/// Whether the contact that was fresh at a place of a shortlist is in flight after.
pub open spec fn asks(
    s: Seq<QueryContact>,
    after: Seq<QueryContact>,
    from: int,
    c: Contact,
    j: int,
) -> bool {
    &&& from <= j < s.len()
    &&& s[j] == (QueryContact { contact: c, status: Status::Fresh })
    &&& after[j] == (QueryContact { contact: c, status: Status::InFlight })
}

/// Whether a contact is asked, from a place on.
pub open spec fn is_asked(
    s: Seq<QueryContact>,
    after: Seq<QueryContact>,
    from: int,
    c: Contact,
) -> bool {
    exists|j: int| asks(s, after, from, c, j)
}

/// What asking contacts leaves, and whom it asks.
pub proof fn lemma_launched_asks(s: Seq<QueryContact>, i: nat, flying: nat, target: NodeId)
    requires
        nearest_first(s, target),
    ensures
        ({
            let (after, out) = launched(s, i, flying);
            &&& forall|j: int|
                0 <= j < s.len() && (#[trigger] s[j]).status != Status::Fresh ==> after[j] == s[j]
            &&& forall|m: int|
                0 <= m < out.len() ==> is_asked(s, after, i as int, #[trigger] out[m])
            &&& sorted_to(out, target)
        }),
    decreases K - i,
{
    if i >= s.len() || i >= K || flying >= ALPHA {
    } else if s[i as int].status == Status::Fresh {
        let next = s.update(
            i as int,
            QueryContact { status: Status::InFlight, ..s[i as int] },
        );
        assert forall|a: int, b: int| 0 <= a < b < next.len() implies dist(
            (#[trigger] next[a]).contact.id,
            target,
        ) < dist((#[trigger] next[b]).contact.id, target) by {
            assert(dist(s[a].contact.id, target) < dist(s[b].contact.id, target));
        }
        lemma_launched_asks(next, i + 1, flying + 1, target);
        lemma_launched_order(next, i + 1, flying + 1);
        let (after, more) = launched(next, i + 1, flying + 1);
        let from = (i + 1) as int;
        let out = seq![s[i as int].contact] + more;
        assert forall|j: int| 0 <= j < s.len() && (#[trigger] s[j]).status
            != Status::Fresh implies after[j] == s[j] by {
            assert(next[j] == s[j]);
        }
        assert(after[i as int] == next[i as int]);
        assert forall|m: int| 0 <= m < out.len() implies is_asked(
            s,
            after,
            i as int,
            #[trigger] out[m],
        ) by {
            if m == 0 {
                assert(asks(s, after, i as int, out[m], i as int));
            } else {
                assert(out[m] == more[m - 1]);
                let c = more[m - 1];
                assert(is_asked(next, after, from, c));
                let j = choose|j: int| asks(next, after, from, c, j);
                assert(asks(s, after, i as int, out[m], j));
            }
        }
        assert forall|a: int, b: int| 0 <= a < b < out.len() implies dist(
            (#[trigger] out[a]).id,
            target,
        ) < dist((#[trigger] out[b]).id, target) by {
            assert(out[b] == more[b - 1]);
            if a == 0 {
                let c = more[b - 1];
                assert(is_asked(next, after, from, c));
                let j = choose|j: int| asks(next, after, from, c, j);
                assert(dist(s[i as int].contact.id, target) < dist(s[j].contact.id, target));
            } else {
                assert(out[a] == more[a - 1]);
            }
        }
    } else {
        lemma_launched_asks(s, i + 1, flying, target);
        let (after, out) = launched(s, i + 1, flying);
        let from = (i + 1) as int;
        assert forall|m: int| 0 <= m < out.len() implies is_asked(
            s,
            after,
            i as int,
            #[trigger] out[m],
        ) by {
            let c = out[m];
            assert(is_asked(s, after, from, c));
            let j = choose|j: int| asks(s, after, from, c, j);
            assert(asks(s, after, i as int, out[m], j));
        }
    }
}

/// No contact is asked twice by one lookup: it asks only contacts that it has not
/// asked, each once, and whatever a lookup goes through, a contact that it has
/// asked stays so.
pub proof fn law_no_contact_is_asked_twice(
    q: QueryView,
    me: NodeId,
    other: NodeId,
    responder: Contact,
    contacts: Seq<Contact>,
    peers: Seq<Contact>,
    id: NodeId,
)
    requires
        lookup_ok(q),
    ensures
        ({
            let (after, out) = launched(q.contacts, 0, in_flight(q.contacts));
            &&& sorted_to(out, q.target)
            &&& forall|m: int|
                0 <= m < out.len() ==> !was_asked(q.contacts, (#[trigger] out[m]).id) && was_asked(
                    after,
                    out[m].id,
                )
            &&& was_asked(q.contacts, id) ==> was_asked(after, id)
        }),
        was_asked(q.contacts, id) ==> was_asked(
            enriched(q, me, other, responder, contacts, peers).contacts,
            id,
        ),
        was_asked(q.contacts, id) ==> was_asked(marked(q.contacts, other, Status::Failed), id),
{
    let s = q.contacts;
    let (after, out) = launched(s, 0, in_flight(s));
    lemma_launched_asks(s, 0, in_flight(s), q.target);
    lemma_launched_order(s, 0, in_flight(s));
    assert forall|m: int| 0 <= m < out.len() implies !was_asked(s, (#[trigger] out[m]).id)
        && was_asked(after, out[m].id) by {
        let c = out[m];
        assert(is_asked(s, after, 0, c));
        let j = choose|j: int| asks(s, after, 0, c, j);
        assert(after[j].contact.id == out[m].id);
        if was_asked(s, out[m].id) {
            let i = choose|i: int|
                0 <= i < s.len() && (#[trigger] s[i]).contact.id == out[m].id && s[i].status
                    != Status::Fresh;
            assert(s[i].contact.id == s[j].contact.id);
            if i < j {
                assert(dist(s[i].contact.id, q.target) < dist(s[j].contact.id, q.target));
            } else if j < i {
                assert(dist(s[j].contact.id, q.target) < dist(s[i].contact.id, q.target));
            }
        }
    }
    if was_asked(s, id) {
        let i = choose|i: int|
            0 <= i < s.len() && (#[trigger] s[i]).contact.id == id && s[i].status != Status::Fresh;
        assert(after[i] == s[i]);
        lemma_first(s, listed(other));
        let done = marked(s, other, Status::Done);
        let gone = marked(s, other, Status::Failed);
        assert(gone[i].contact.id == id && gone[i].status != Status::Fresh);
        assert(done[i].contact.id == id && done[i].status != Status::Fresh);
        lemma_marked(s, other, Status::Done, q.target);
        lemma_all_added(done, contacts, q.target, Some(me));
        let r = enriched(q, me, other, responder, contacts, peers).contacts;
        assert(done.contains(done[i]));
        assert(r.contains(done[i]));
        let k = r.index_of(done[i]);
        assert(r[k] == done[i]);
    }
}

/// What a lookup for nodes reports when it ends: at most a bucket's contacts,
/// nearest first and each once, which are exactly those of the nearest on its list
/// that answered, and none of the nearest is left unasked.
pub proof fn law_lookup_reports_the_nearest(d: DhtView, qid: u64, now: u64, k: int)
    requires
        healthy(d),
        first(d.queries, with_qid(qid)) == Some(k),
        d.queries[k].kind == QueryKind::FindNode,
        in_flight(d.queries[k].contacts) == 0,
        launched(d.queries[k].contacts, 0, 0).1.len() == 0,
    ensures
        ({
            let q = d.queries[k];
            let s = q.contacts;
            let closest = answered(s, near(s));
            &&& driven(d, qid, now).events == d.events.push(
                EventView::QueryFinished { query: q.qid, target: q.target, closest },
            )
            &&& driven(d, qid, now).queries == d.queries.remove(k)
            &&& closest.len() <= K
            &&& sorted_to(closest, q.target)
            &&& forall|c: Contact| #[trigger]
                closest.contains(c) <==> exists|i: int|
                    0 <= i < near(s) && #[trigger] s[i] == (QueryContact {
                        contact: c,
                        status: Status::Done,
                    })
            &&& forall|i: int| 0 <= i < near(s) ==> (#[trigger] s[i]).status != Status::Fresh
        }),
{
    lemma_first(d.queries, with_qid(qid));
    let q = d.queries[k];
    let s = q.contacts;
    assert(lookup_ok(q));
    lemma_launched(s, 0, 0);
    lemma_launched_order(s, 0, 0);
    lemma_launches_none(s, 0, 0);
    law_reported_nearest_first(s, q.target, near(s));
}

/// Where nobody is asked, nothing changes.
pub proof fn lemma_launches_none(s: Seq<QueryContact>, i: nat, flying: nat)
    requires
        launched(s, i, flying).1.len() == 0,
    ensures
        launched(s, i, flying).0 == s,
    decreases K - i,
{
    if i >= s.len() || i >= K || flying >= ALPHA {
    } else if s[i as int].status == Status::Fresh {
    } else {
        lemma_launches_none(s, i + 1, flying);
    }
}

/// Asking for nodes changes only what awaits an answer and what is sent.
pub proof fn lemma_requested(d: DhtView, qid: u64, target: NodeId, now: u64, out: Seq<Contact>)
    ensures
        ({
            let r = requested(d, qid, target, now, out);
            r == DhtView { pending: r.pending, outbox: r.outbox, next_rid: r.next_rid, ..d }
        }),
    decreases out.len(),
{
    if out.len() > 0 {
        lemma_requested(d, qid, target, now, out.drop_last());
    }
}

/// Registering changes only what is sent.
pub proof fn lemma_registered(d: DhtView, topic: NodeId, out: Seq<Contact>)
    ensures
        ({
            let r = registered(d, topic, out);
            r == DhtView { outbox: r.outbox, next_rid: r.next_rid, ..d }
        }),
    decreases out.len(),
{
    if out.len() > 0 {
        lemma_registered(d, topic, out.drop_last());
    }
}

/// Asking for our own address changes only the probes and what is sent.
pub proof fn lemma_pinged(d: DhtView, peers: Seq<Contact>, now: u64)
    ensures
        ({
            let r = pinged(d, peers, now);
            r == DhtView { probes: r.probes, outbox: r.outbox, next_rid: r.next_rid, ..d }
        }),
    decreases peers.len(),
{
    if peers.len() > 0 {
        lemma_pinged(d, peers.drop_last(), now);
    }
}

/// Ending a connect leaves the others.
pub proof fn lemma_disconnected(s: Seq<ConnectView>, target: NodeId)
    requires
        one_each(s),
    ensures
        one_each(disconnected(s, target)),
        forall|x: ConnectView|
            #[trigger] disconnected(s, target).contains(x) <==> s.contains(x) && x.target
                != target,
{
    lemma_first(s, to_target(target));
    let r = disconnected(s, target);
    match first(s, to_target(target)) {
        Some(k) => {
            assert forall|x: ConnectView| #[trigger]
                r.contains(x) <==> s.contains(x) && x.target != target by {
                if r.contains(x) {
                    let i = r.index_of(x);
                    let j = if i < k {
                        i
                    } else {
                        i + 1
                    };
                    assert(s[j] == x);
                    if j < k {
                        assert(s[j].target != s[k].target);
                    } else {
                        assert(s[k].target != s[j].target);
                    }
                }
                if s.contains(x) && x.target != target {
                    let j = s.index_of(x);
                    if j < k {
                        assert(r[j] == x);
                    } else {
                        assert(j != k);
                        assert(r[j - 1] == x);
                    }
                }
            }
            assert forall|i: int, j: int| 0 <= i < j < r.len() implies (#[trigger] r[i]).target
                != (#[trigger] r[j]).target by {
                let i2 = if i < k {
                    i
                } else {
                    i + 1
                };
                let j2 = if j < k {
                    j
                } else {
                    j + 1
                };
                assert(r[i] == s[i2] && r[j] == s[j2]);
                assert(s[i2].target != s[j2].target);
            }
        },
        None => {
            assert forall|x: ConnectView| #[trigger]
                r.contains(x) <==> s.contains(x) && x.target != target by {
                if s.contains(x) {
                    assert(!to_target(target)(s[s.index_of(x)]));
                }
            }
        },
    }
}

/// Replacing a connect by one to the same peer keeps them apart.
proof fn lemma_connect_update(s: Seq<ConnectView>, k: int, c: ConnectView)
    requires
        one_each(s),
        0 <= k < s.len(),
        c.target == s[k].target,
    ensures
        one_each(s.update(k, c)),
{
    let r = s.update(k, c);
    assert forall|i: int| 0 <= i < r.len() implies (#[trigger] r[i]).target == s[i].target by {}
    assert forall|i: int, j: int| 0 <= i < j < r.len() implies (#[trigger] r[i]).target != (
    #[trigger] r[j]).target by {
        assert(s[i].target != s[j].target);
    }
}

/// What the end of a query leaves alone.
proof fn lemma_finished(d: DhtView, q: QueryView, closest: Seq<Contact>)
    requires
        one_each(d.connecting),
        reports_ok(d.events),
        closest.len() <= K && sorted_to(closest, q.target),
    ensures
        ({
            let r = finished(d, q, closest);
            &&& r == DhtView {
                connecting: r.connecting,
                outbox: r.outbox,
                events: r.events,
                next_rid: r.next_rid,
                ..d
            }
            &&& one_each(r.connecting)
            &&& reports_ok(r.events)
        }),
{
    lemma_registered(d, q.target, closest);
    lemma_disconnected(d.connecting, q.target);
    lemma_first(d.connecting, to_target(q.target));
    if let Some(k) = first(d.connecting, to_target(q.target)) {
        lemma_connect_update(
            d.connecting,
            k,
            ConnectView { coordinator: Some(q.coordinators[0].addr), ..d.connecting[k] },
        );
    }
}

/// What moving a query on leaves alone.
proof fn lemma_driven(d: DhtView, qid: u64, now: u64)
    requires
        one_each(d.connecting),
        lookups_ok(d.queries),
        reports_ok(d.events),
    ensures
        ({
            let r = driven(d, qid, now);
            &&& r == DhtView {
                queries: r.queries,
                pending: r.pending,
                connecting: r.connecting,
                outbox: r.outbox,
                events: r.events,
                next_rid: r.next_rid,
                ..d
            }
            &&& one_each(r.connecting)
            &&& lookups_ok(r.queries)
            &&& reports_ok(r.events)
        }),
{
    lemma_first(d.queries, with_qid(qid));
    if let Some(k) = first(d.queries, with_qid(qid)) {
        let q = d.queries[k];
        let flying = in_flight(q.contacts);
        let (contacts, out) = launched(q.contacts, 0, flying);
        let r = QueryView { contacts, ..q };
        lemma_launched_order(q.contacts, 0, flying);
        lemma_launched(q.contacts, 0, flying);
        assert(lookup_ok(q));
        assert(nearest_first(contacts, q.target)) by {
            assert forall|i: int, j: int| 0 <= i < j < contacts.len() implies dist(
                (#[trigger] contacts[i]).contact.id,
                q.target,
            ) < dist((#[trigger] contacts[j]).contact.id, q.target) by {
                assert(dist(q.contacts[i].contact.id, q.target) < dist(
                    q.contacts[j].contact.id,
                    q.target,
                ));
            }
        }
        if out.len() == 0 && flying == 0 {
            let rest = d.queries.remove(k);
            assert forall|i: int| 0 <= i < rest.len() implies lookup_ok(#[trigger] rest[i]) by {
                let j = if i < k {
                    i
                } else {
                    i + 1
                };
                assert(rest[i] == d.queries[j]);
            }
            law_reported_nearest_first(contacts, q.target, near(contacts));
            lemma_finished(
                DhtView { queries: rest, ..d },
                r,
                answered(contacts, near(contacts)),
            );
        } else {
            let next = d.queries.update(k, r);
            assert(lookup_ok(r));
            assert(lookups_ok(next));
            lemma_requested(DhtView { queries: next, ..d }, qid, q.target, now, out);
        }
    }
}

/// Starting a query keeps a node healthy.
pub proof fn law_start_keeps_health(d: DhtView, target: NodeId, kind: QueryKind, now: u64)
    requires
        healthy(d),
    ensures
        healthy(started(d, target, kind, now)),
{
    let none = Seq::<QueryContact>::empty();
    let contacts = all_added(none, nearest(d.table, target, K as nat), target, None);
    lemma_all_added(none, nearest(d.table, target, K as nat), target, None);
    let q = QueryView {
        qid: d.next_qid,
        target,
        kind,
        contacts,
        coordinators: Seq::empty(),
        peers: Seq::empty(),
    };
    assert(lookups_ok(d.queries.push(q)));
    lemma_driven(
        DhtView { queries: d.queries.push(q), next_qid: d.next_qid.wrapping_add(1), ..d },
        d.next_qid,
        now,
    );
}

/// Connecting keeps a node healthy.
pub proof fn law_connect_keeps_health(
    d: DhtView,
    target: NodeId,
    data_addrs: Seq<SocketAddr>,
    now: u64,
)
    requires
        healthy(d),
    ensures
        healthy(connect_begun(d, target, data_addrs, now)),
{
    lemma_first(d.connecting, to_target(target));
    let c = ConnectView {
        target,
        deadline: (now + crate::dht::CONNECT_TIMEOUT_MS) as u64,
        coordinator: None,
        data_addrs,
    };
    match first(d.connecting, to_target(target)) {
        Some(k) => {
            lemma_connect_update(d.connecting, k, c);
            law_start_keeps_health(
                DhtView { connecting: d.connecting.update(k, c), ..d },
                target,
                QueryKind::Connect,
                now,
            );
        },
        None => {
            let s = d.connecting.push(c);
            assert forall|i: int, j: int| 0 <= i < j < s.len() implies (#[trigger] s[i]).target
                != (#[trigger] s[j]).target by {
                assert(s[i] == d.connecting[i]);
                if j < d.connecting.len() {
                    assert(s[j] == d.connecting[j]);
                }
            }
            law_start_keeps_health(
                DhtView { connecting: s, ..d },
                target,
                QueryKind::Connect,
                now,
            );
        },
    }
}

/// Taking in any datagram keeps a node healthy: in particular, no flood of
/// announcements or connect requests grows what it stores past the caps.
pub proof fn law_input_keeps_health(d: DhtView, from: SocketAddr, data: Seq<u8>, now: u64)
    requires
        healthy(d),
    ensures
        healthy(input(d, from, data, now)),
{
    if let Ok(p) = read_packet(data) {
        let e = sighted(d, from, p);
        assert(healthy(e));
        match p.msg {
            MessageView::Nodes { contacts, peers } => {
                lemma_nodes_received(
                    e,
                    p.rid,
                    Contact { id: p.sender, addr: from },
                    contacts,
                    peers,
                    now,
                );
            },
            MessageView::Announce { topic } => {
                lemma_stored(e, topic, Contact { id: p.sender, addr: from });
            },
            MessageView::Signal {
                target,
                initiator,
                initiator_addr,
                data_addrs,
                firewall,
                is_reply,
            } => {
                lemma_signaled(
                    e,
                    from,
                    SignalView { target, initiator, initiator_addr, data_addrs, firewall },
                    is_reply,
                    now,
                );
            },
            _ => {},
        }
    }
}

proof fn lemma_nodes_received(
    d: DhtView,
    rid: u64,
    responder: Contact,
    contacts: Seq<Contact>,
    peers: Seq<Contact>,
    now: u64,
)
    requires
        healthy(d),
    ensures
        healthy(nodes_received(d, rid, responder, contacts, peers, now)),
{
    if let Some(k) = first(d.pending, with_rid(rid)) {
        let p = d.pending[k];
        let d1 = DhtView { pending: d.pending.remove(k), ..d };
        lemma_first(d1.queries, with_qid(p.query));
        if let Some(j) = first(d1.queries, with_qid(p.query)) {
            let q = d1.queries[j];
            lemma_marked(q.contacts, p.contact, Status::Done, q.target);
            lemma_all_added(
                marked(q.contacts, p.contact, Status::Done),
                contacts,
                q.target,
                Some(d.id),
            );
            let e = enriched(q, d.id, p.contact, responder, contacts, peers);
            assert(lookups_ok(d1.queries.update(j, e)));
            lemma_driven(
                DhtView { queries: d1.queries.update(j, e), ..d1 },
                p.query,
                now,
            );
        }
    }
}

proof fn lemma_stored(d: DhtView, topic: NodeId, c: Contact)
    requires
        healthy(d),
    ensures
        healthy(stored(d, topic, c)),
{
    lemma_first(d.announces, on_topic(topic));
    if let Some(k) = first(d.announces, on_topic(topic)) {
        lemma_first(d.announces[k].peers, with_id(c.id));
    }
    let r = stored(d, topic, c).announces;
    assert forall|i: int| 0 <= i < r.len() implies (#[trigger] r[i]).peers.len() <= K by {
        if i < d.announces.len() {
            assert(d.announces[i].peers.len() <= K);
        }
    }
}

proof fn lemma_signaled(d: DhtView, from: SocketAddr, s: SignalView, is_reply: bool, now: u64)
    requires
        healthy(d),
    ensures
        healthy(signaled(d, from, s, is_reply, now)),
{
    lemma_disconnected(d.connecting, s.target);
    lemma_first(d.incoming, from_initiator(s.initiator));
}

/// Giving up a request keeps a node healthy.
proof fn lemma_given_up(d: DhtView, rid: u64, now: u64)
    requires
        healthy(d),
    ensures
        healthy(given_up(d, rid, now)),
{
    if let Some(k) = first(d.pending, with_rid(rid)) {
        let p = d.pending[k];
        let d1 = DhtView {
            pending: d.pending.remove(k),
            table: crate::routing::failed(d.table, p.contact).0,
            ..d
        };
        lemma_first(d1.queries, with_qid(p.query));
        match first(d1.queries, with_qid(p.query)) {
            Some(j) => {
                let q = d1.queries[j];
                lemma_marked(q.contacts, p.contact, Status::Failed, q.target);
                let r = QueryView {
                    contacts: marked(q.contacts, p.contact, Status::Failed),
                    ..q
                };
                assert(lookups_ok(d1.queries.update(j, r)));
                lemma_driven(DhtView { queries: d1.queries.update(j, r), ..d1 }, p.query, now);
            },
            None => {
                lemma_driven(d1, p.query, now);
            },
        }
    }
}

/// Giving up requests keeps a node healthy.
pub proof fn lemma_all_given_up(d: DhtView, due: Seq<Pending>, now: u64)
    requires
        healthy(d),
    ensures
        healthy(all_given_up(d, due, now)),
    decreases due.len(),
{
    if due.len() > 0 {
        lemma_all_given_up(d, due.drop_last(), now);
        lemma_given_up(all_given_up(d, due.drop_last(), now), due.last().rid, now);
    }
}

/// The elements kept stand in their order.
proof fn lemma_kept_queries(s: Seq<QueryView>, p: spec_fn(QueryView) -> bool)
    requires
        lookups_ok(s),
    ensures
        lookups_ok(kept(s, p)),
{
    lemma_kept(s, p);
    let r = kept(s, p);
    assert forall|i: int| 0 <= i < r.len() implies lookup_ok(#[trigger] r[i]) by {
        assert(r.contains(r[i]));
        let j = s.index_of(r[i]);
        assert(s[j] == r[i]);
    }
}

/// Connects that time out are gone, and the others stay.
pub proof fn lemma_all_timed_out(d: DhtView, stale: Seq<ConnectView>)
    requires
        healthy(d),
    ensures
        ({
            let r = all_timed_out(d, stale);
            &&& healthy(r)
            &&& r.incoming == d.incoming
            &&& r.probes == d.probes
            &&& forall|x: ConnectView|
                #[trigger] r.connecting.contains(x) <==> d.connecting.contains(x) && forall|
                    i: int,
                |
                    0 <= i < stale.len() ==> x.target != (#[trigger] stale[i]).target
            &&& r.events.len() == d.events.len() + stale.len()
        }),
    decreases stale.len(),
{
    let r = all_timed_out(d, stale);
    if stale.len() > 0 {
        let rest = stale.drop_last();
        lemma_all_timed_out(d, rest);
        let e = all_timed_out(d, rest);
        let t = stale.last().target;
        lemma_disconnected(e.connecting, t);
        lemma_kept_queries(e.queries, not_connecting(t));
        assert forall|x: ConnectView| #[trigger]
            r.connecting.contains(x) <==> d.connecting.contains(x) && forall|i: int|
            0 <= i < stale.len() ==> x.target != (#[trigger] stale[i]).target by {
            assert(e.connecting.contains(x) <==> d.connecting.contains(x) && forall|i: int|
                0 <= i < rest.len() ==> x.target != (#[trigger] rest[i]).target);
            assert(forall|i: int| 0 <= i < rest.len() ==> rest[i] == #[trigger] stale[i]);
            if forall|i: int| 0 <= i < stale.len() ==> x.target != (#[trigger] stale[i]).target {
                assert forall|i: int| 0 <= i < rest.len() implies x.target != (
                #[trigger] rest[i]).target by {
                    assert(rest[i] == stale[i]);
                }
                assert(stale[stale.len() - 1] == stale.last());
            }
            if e.connecting.contains(x) && x.target != t {
                assert forall|i: int| 0 <= i < stale.len() implies x.target != (
                #[trigger] stale[i]).target by {
                    if i < rest.len() {
                        assert(rest[i] == stale[i]);
                    }
                }
            }
        }
    }
}

/// Firing the timers keeps a node healthy, and leaves nothing hanging: no
/// connect, no incoming request and no probe whose deadline has passed is left.
pub proof fn law_timers_leave_nothing_hanging(d: DhtView, now: u64)
    requires
        healthy(d),
    ensures
        ({
            let r = timers_fired(d, now);
            &&& healthy(r)
            &&& forall|i: int|
                0 <= i < r.connecting.len() ==> (#[trigger] r.connecting[i]).deadline > now
            &&& forall|i: int|
                0 <= i < r.incoming.len() ==> (#[trigger] r.incoming[i]).deadline > now
            &&& forall|i: int| 0 <= i < r.probes.len() ==> (#[trigger] r.probes[i]).deadline > now
        }),
{
    let r = timers_fired(d, now);
    lemma_all_given_up(d, kept(d.pending, due(now)), now);
    let d1 = all_given_up(d, kept(d.pending, due(now)), now);
    let d2 = DhtView { probes: kept(d1.probes, live_probe(now)), ..d1 };
    let gone = kept(d2.connecting, stale(now));
    lemma_all_timed_out(d2, gone);
    let d3 = all_timed_out(d2, gone);
    lemma_kept(d2.connecting, stale(now));
    lemma_kept(d1.probes, live_probe(now));
    lemma_kept(d3.incoming, live_incoming(now));
    assert forall|i: int| 0 <= i < r.connecting.len() implies (
    #[trigger] r.connecting[i]).deadline > now by {
        let x = r.connecting[i];
        assert(d3.connecting.contains(x));
        if x.deadline <= now {
            assert(stale(now)(x));
            assert(gone.contains(x));
            let j = gone.index_of(x);
            assert(x.target != gone[j].target);
        }
    }
    assert forall|i: int| 0 <= i < r.incoming.len() implies (#[trigger] r.incoming[i]).deadline
        > now by {
        assert(r.incoming.contains(r.incoming[i]));
    }
    assert forall|i: int| 0 <= i < r.probes.len() implies (#[trigger] r.probes[i]).deadline
        > now by {
        assert(r.probes.contains(r.probes[i]));
    }
}

/// The requests that await an answer have different ids, none of which is given
/// out again while ids last.
pub open spec fn rids_ok(d: DhtView) -> bool {
    &&& forall|i: int, j: int|
        0 <= i < j < d.pending.len() ==> (#[trigger] d.pending[i]).rid != (
        #[trigger] d.pending[j]).rid
    &&& forall|i: int| 0 <= i < d.pending.len() ==> (#[trigger] d.pending[i]).rid < d.next_rid
}

/// Whether every request that awaits an answer is one of `old` or due later.
pub open spec fn old_or_later(s: Seq<Pending>, old: Seq<Pending>, now: u64) -> bool {
    forall|i: int|
        0 <= i < s.len() ==> old.contains(#[trigger] s[i]) || s[i].deadline > now
}

proof fn lemma_requested_pending(d: DhtView, qid: u64, target: NodeId, now: u64, out: Seq<Contact>)
    requires
        rids_ok(d),
        d.next_rid + out.len() <= u64::MAX,
        now + REQUEST_TIMEOUT_MS <= u64::MAX,
    ensures
        ({
            let r = requested(d, qid, target, now, out);
            &&& rids_ok(r)
            &&& r.next_rid == d.next_rid + out.len()
            &&& old_or_later(r.pending, d.pending, now)
        }),
    decreases out.len(),
{
    if out.len() == 0 {
        assert forall|i: int| 0 <= i < d.pending.len() implies d.pending.contains(
            #[trigger] d.pending[i],
        ) by {}
    } else {
        lemma_requested_pending(d, qid, target, now, out.drop_last());
        let before = requested(d, qid, target, now, out.drop_last());
        let r = requested(d, qid, target, now, out);
        assert(r.next_rid == before.next_rid + 1);
        assert forall|i: int| 0 <= i < before.pending.len() implies (#[trigger] r.pending[i])
            == before.pending[i] by {}
        assert forall|i: int| 0 <= i < r.pending.len() implies d.pending.contains(
            #[trigger] r.pending[i],
        ) || r.pending[i].deadline > now by {
            if i < before.pending.len() {
                assert(r.pending[i] == before.pending[i]);
            }
        }
        assert(rids_ok(r)) by {
            assert forall|i: int, j: int| 0 <= i < j < r.pending.len() implies (
            #[trigger] r.pending[i]).rid != (#[trigger] r.pending[j]).rid by {
                assert(r.pending[i] == before.pending[i]);
                if j < before.pending.len() {
                    assert(r.pending[j] == before.pending[j]);
                }
            }
            assert forall|i: int| 0 <= i < r.pending.len() implies (#[trigger] r.pending[i]).rid
                < r.next_rid by {
                if i < before.pending.len() {
                    assert(r.pending[i] == before.pending[i]);
                }
            }
        }
    }
}

proof fn lemma_registered_rids(d: DhtView, topic: NodeId, out: Seq<Contact>)
    requires
        d.next_rid + out.len() <= u64::MAX,
    ensures
        registered(d, topic, out).next_rid == d.next_rid + out.len(),
    decreases out.len(),
{
    if out.len() > 0 {
        lemma_registered_rids(d, topic, out.drop_last());
    }
}

proof fn lemma_driven_pending(d: DhtView, qid: u64, now: u64)
    requires
        healthy(d),
        rids_ok(d),
        d.next_rid + K <= u64::MAX,
        now + REQUEST_TIMEOUT_MS <= u64::MAX,
    ensures
        ({
            let r = driven(d, qid, now);
            &&& rids_ok(r)
            &&& d.next_rid <= r.next_rid <= d.next_rid + K
            &&& old_or_later(r.pending, d.pending, now)
        }),
{
    lemma_first(d.queries, with_qid(qid));
    assert forall|i: int| 0 <= i < d.pending.len() implies d.pending.contains(
        #[trigger] d.pending[i],
    ) by {}
    if let Some(k) = first(d.queries, with_qid(qid)) {
        let q = d.queries[k];
        assert(lookup_ok(q));
        let flying = in_flight(q.contacts);
        let (contacts, out) = launched(q.contacts, 0, flying);
        lemma_launched(q.contacts, 0, flying);
        lemma_launched_order(q.contacts, 0, flying);
        let r = QueryView { contacts, ..q };
        if out.len() == 0 && flying == 0 {
            lemma_launches_none(q.contacts, 0, flying);
            let closest = answered(contacts, near(contacts));
            law_reported_nearest_first(contacts, q.target, near(contacts));
            let e = DhtView { queries: d.queries.remove(k), ..d };
            lemma_finished(e, r, closest);
            lemma_registered_rids(e, q.target, closest);
        } else {
            lemma_requested_pending(
                DhtView { queries: d.queries.update(k, r), ..d },
                qid,
                q.target,
                now,
                out,
            );
        }
    }
}

proof fn lemma_given_up_pending(d: DhtView, rid: u64, now: u64)
    requires
        healthy(d),
        rids_ok(d),
        d.next_rid + K <= u64::MAX,
        now + REQUEST_TIMEOUT_MS <= u64::MAX,
    ensures
        ({
            let r = given_up(d, rid, now);
            &&& rids_ok(r)
            &&& d.next_rid <= r.next_rid <= d.next_rid + K
            &&& old_or_later(r.pending, d.pending, now)
            &&& forall|i: int|
                0 <= i < r.pending.len() ==> (#[trigger] r.pending[i]).deadline > now
                    || r.pending[i].rid != rid
        }),
{
    lemma_first(d.pending, with_rid(rid));
    match first(d.pending, with_rid(rid)) {
        Some(k) => {
            let p = d.pending[k];
            let rest = d.pending.remove(k);
            assert forall|i: int| 0 <= i < rest.len() implies (#[trigger] rest[i])
                == d.pending[if i < k {
                i
            } else {
                i + 1
            }] by {}
            let d1 = DhtView {
                pending: rest,
                table: crate::routing::failed(d.table, p.contact).0,
                ..d
            };
            assert(rids_ok(d1)) by {
                assert forall|i: int, j: int| 0 <= i < j < rest.len() implies (#[trigger] rest[i]).rid
                    != (#[trigger] rest[j]).rid by {
                    let i2 = if i < k {
                        i
                    } else {
                        i + 1
                    };
                    let j2 = if j < k {
                        j
                    } else {
                        j + 1
                    };
                    assert(d.pending[i2].rid != d.pending[j2].rid);
                }
            }
            assert forall|x: Pending| #[trigger] rest.contains(x) implies d.pending.contains(x)
                && x.rid != rid by {
                let i = rest.index_of(x);
                let i2 = if i < k {
                    i
                } else {
                    i + 1
                };
                assert(d.pending[i2] == x);
                if i2 < k {
                    assert(d.pending[i2].rid != d.pending[k].rid);
                } else {
                    assert(d.pending[k].rid != d.pending[i2].rid);
                }
            }
            lemma_first(d1.queries, with_qid(p.query));
            let e = match first(d1.queries, with_qid(p.query)) {
                Some(j) => {
                    let q = d1.queries[j];
                    assert(lookup_ok(q));
                    lemma_marked(q.contacts, p.contact, Status::Failed, q.target);
                    let m = QueryView {
                        contacts: marked(q.contacts, p.contact, Status::Failed),
                        ..q
                    };
                    assert(lookups_ok(d1.queries.update(j, m)));
                    DhtView { queries: d1.queries.update(j, m), ..d1 }
                },
                None => d1,
            };
            lemma_driven_pending(e, p.query, now);
            let r = driven(e, p.query, now);
            assert forall|i: int| 0 <= i < r.pending.len() implies (d.pending.contains(
                #[trigger] r.pending[i],
            ) || r.pending[i].deadline > now) && (r.pending[i].deadline > now || r.pending[i].rid
                != rid) by {
                assert(rest.contains(r.pending[i]) || r.pending[i].deadline > now);
            }
        },
        None => {
            assert forall|i: int| 0 <= i < d.pending.len() implies d.pending.contains(
                #[trigger] d.pending[i],
            ) && d.pending[i].rid != rid by {
                assert(!with_rid(rid)(d.pending[i]));
            }
        },
    }
}

/// Of the requests that are given up none is left.
pub proof fn lemma_all_given_up_pending(d: DhtView, due: Seq<Pending>, now: u64)
    requires
        healthy(d),
        rids_ok(d),
        d.next_rid + K * due.len() <= u64::MAX,
        now + REQUEST_TIMEOUT_MS <= u64::MAX,
    ensures
        ({
            let r = all_given_up(d, due, now);
            &&& rids_ok(r)
            &&& d.next_rid <= r.next_rid <= d.next_rid + K * due.len()
            &&& old_or_later(r.pending, d.pending, now)
            &&& forall|i: int, j: int|
                0 <= i < r.pending.len() && 0 <= j < due.len() ==> (
                #[trigger] r.pending[i]).deadline > now || r.pending[i].rid != (
                #[trigger] due[j]).rid
        }),
    decreases due.len(),
{
    if due.len() == 0 {
        assert forall|i: int| 0 <= i < d.pending.len() implies d.pending.contains(
            #[trigger] d.pending[i],
        ) by {}
    } else {
        let rest = due.drop_last();
        lemma_all_given_up_pending(d, rest, now);
        lemma_all_given_up(d, rest, now);
        let e = all_given_up(d, rest, now);
        lemma_given_up_pending(e, due.last().rid, now);
        let r = all_given_up(d, due, now);
        assert forall|i: int| 0 <= i < r.pending.len() implies d.pending.contains(
            #[trigger] r.pending[i],
        ) || r.pending[i].deadline > now by {
            if r.pending[i].deadline <= now {
                assert(e.pending.contains(r.pending[i]));
                let m = e.pending.index_of(r.pending[i]);
                assert(e.pending[m] == r.pending[i]);
            }
        }
        assert forall|i: int, j: int| 0 <= i < r.pending.len() && 0 <= j < due.len() implies (
        #[trigger] r.pending[i]).deadline > now || r.pending[i].rid != (#[trigger] due[j]).rid by {
            if r.pending[i].deadline <= now {
                assert(e.pending.contains(r.pending[i]));
                let m = e.pending.index_of(r.pending[i]);
                assert(e.pending[m] == r.pending[i]);
                if j < rest.len() {
                    assert(rest[j] == due[j]);
                } else {
                    assert(due[j] == due.last());
                }
            }
        }
    }
}

proof fn lemma_timed_out_pending(d: DhtView, stale: Seq<ConnectView>)
    ensures
        forall|x: Pending| #[trigger]
            all_timed_out(d, stale).pending.contains(x) ==> d.pending.contains(x),
    decreases stale.len(),
{
    if stale.len() > 0 {
        lemma_timed_out_pending(d, stale.drop_last());
        let e = all_timed_out(d, stale.drop_last());
        lemma_kept(e.pending, not_of_connect(e.queries, stale.last().target));
    }
}

/// After the timers have fired, nothing is left that was due: the next timer, if
/// there is one, is still to come.
pub proof fn law_no_timer_is_left_behind(d: DhtView, now: u64)
    requires
        healthy(d),
        rids_ok(d),
        d.next_rid + K * d.pending.len() <= u64::MAX,
        now + REQUEST_TIMEOUT_MS <= u64::MAX,
    ensures
        ({
            let r = timers_fired(d, now);
            &&& forall|i: int| 0 <= i < r.pending.len() ==> (#[trigger] r.pending[i]).deadline > now
            &&& forall|t: u64| #[trigger] timer_at(r, t) ==> t > now
            &&& next_timer(r) matches Some(t) ==> t > now
        }),
{
    let r = timers_fired(d, now);
    let late = kept(d.pending, due(now));
    lemma_kept(d.pending, due(now));
    lemma_all_given_up_pending(d, late, now);
    let d1 = all_given_up(d, late, now);
    assert forall|x: Pending| #[trigger] d1.pending.contains(x) implies x.deadline > now by {
        let i = d1.pending.index_of(x);
        assert(d1.pending[i] == x);
        if x.deadline <= now {
            assert(d.pending.contains(x));
            assert(due(now)(x));
            assert(late.contains(x));
            let j = late.index_of(x);
            assert(late[j].rid == x.rid);
        }
    }
    let d2 = DhtView { probes: kept(d1.probes, live_probe(now)), ..d1 };
    lemma_timed_out_pending(d2, kept(d2.connecting, stale(now)));
    assert forall|i: int| 0 <= i < r.pending.len() implies (#[trigger] r.pending[i]).deadline
        > now by {
        assert(r.pending.contains(r.pending[i]));
        assert(d2.pending.contains(r.pending[i]));
        assert(d1.pending.contains(r.pending[i]));
    }
    law_timers_leave_nothing_hanging(d, now);
    assert forall|t: u64| #[trigger] timer_at(r, t) implies t > now by {}
    if let Some(t) = next_timer(r) {
        assert(is_next_timer(r, t));
    }
}

proof fn lemma_fewer_rids(d: DhtView, s: Seq<Pending>, next: u64)
    requires
        rids_ok(d),
        d.next_rid <= next,
        forall|i: int| 0 <= i < s.len() ==> d.pending.contains(#[trigger] s[i]),
        forall|i: int, j: int| 0 <= i < j < s.len() ==> (#[trigger] s[i]).rid != (
        #[trigger] s[j]).rid,
    ensures
        rids_ok(DhtView { pending: s, next_rid: next, ..d }),
{
    assert forall|i: int| 0 <= i < s.len() implies (#[trigger] s[i]).rid < next by {
        let j = d.pending.index_of(s[i]);
        assert(d.pending[j] == s[i]);
    }
}

/// The requests kept have different ids.
pub proof fn lemma_kept_rids(s: Seq<Pending>, p: spec_fn(Pending) -> bool)
    requires
        forall|i: int, j: int| 0 <= i < j < s.len() ==> (#[trigger] s[i]).rid != (
        #[trigger] s[j]).rid,
    ensures
        forall|i: int, j: int|
            0 <= i < j < kept(s, p).len() ==> (#[trigger] kept(s, p)[i]).rid != (
            #[trigger] kept(s, p)[j]).rid,
    decreases s.len(),
{
    if s.len() > 0 {
        let rest = s.drop_last();
        assert forall|i: int, j: int| 0 <= i < j < rest.len() implies (#[trigger] rest[i]).rid != (
        #[trigger] rest[j]).rid by {
            assert(s[i].rid != s[j].rid);
        }
        lemma_kept_rids(rest, p);
        lemma_kept(rest, p);
        let r = kept(s, p);
        let w = kept(rest, p);
        assert forall|i: int, j: int| 0 <= i < j < r.len() implies (#[trigger] r[i]).rid != (
        #[trigger] r[j]).rid by {
            assert(r[i] == w[i]);
            if j < w.len() {
                assert(r[j] == w[j]);
            } else {
                assert(w.contains(w[i]));
                let m = rest.index_of(w[i]);
                assert(s[m] == w[i]);
                assert(s[m].rid != s[s.len() - 1].rid);
            }
        }
    }
}

proof fn lemma_removed_rids(d: DhtView, k: int)
    requires
        rids_ok(d),
        0 <= k < d.pending.len(),
    ensures
        rids_ok(DhtView { pending: d.pending.remove(k), ..d }),
{
    let rest = d.pending.remove(k);
    assert forall|i: int| 0 <= i < rest.len() implies d.pending.contains(#[trigger] rest[i]) by {
        let i2 = if i < k {
            i
        } else {
            i + 1
        };
        assert(rest[i] == d.pending[i2]);
    }
    assert forall|i: int, j: int| 0 <= i < j < rest.len() implies (#[trigger] rest[i]).rid != (
    #[trigger] rest[j]).rid by {
        let i2 = if i < k {
            i
        } else {
            i + 1
        };
        let j2 = if j < k {
            j
        } else {
            j + 1
        };
        assert(d.pending[i2].rid != d.pending[j2].rid);
    }
    lemma_fewer_rids(d, rest, d.next_rid);
}

proof fn lemma_timed_out_rids(d: DhtView, stale: Seq<ConnectView>)
    requires
        rids_ok(d),
    ensures
        rids_ok(all_timed_out(d, stale)),
        all_timed_out(d, stale).next_rid == d.next_rid,
    decreases stale.len(),
{
    if stale.len() > 0 {
        lemma_timed_out_rids(d, stale.drop_last());
        let e = all_timed_out(d, stale.drop_last());
        let p = not_of_connect(e.queries, stale.last().target);
        lemma_kept(e.pending, p);
        lemma_kept_rids(e.pending, p);
        let s = kept(e.pending, p);
        assert forall|i: int| 0 <= i < s.len() implies e.pending.contains(#[trigger] s[i]) by {
            assert(s.contains(s[i]));
        }
        lemma_fewer_rids(e, s, e.next_rid);
    }
}

proof fn lemma_pinged_rids(d: DhtView, peers: Seq<Contact>, now: u64)
    requires
        d.next_rid + peers.len() <= u64::MAX,
    ensures
        pinged(d, peers, now).next_rid == d.next_rid + peers.len(),
        pinged(d, peers, now).pending == d.pending,
    decreases peers.len(),
{
    if peers.len() > 0 {
        lemma_pinged_rids(d, peers.drop_last(), now);
    }
}

/// Starting a query and connecting give no request an id that another one awaits
/// an answer under, while ids last.
pub proof fn law_starting_keeps_ids_apart(
    d: DhtView,
    target: NodeId,
    kind: QueryKind,
    data_addrs: Seq<SocketAddr>,
    now: u64,
)
    requires
        healthy(d),
        rids_ok(d),
        d.next_rid + K <= u64::MAX,
        now + REQUEST_TIMEOUT_MS <= u64::MAX,
    ensures
        rids_ok(started(d, target, kind, now)),
        rids_ok(connect_begun(d, target, data_addrs, now)),
{
    lemma_started_rids(d, target, kind, now);
    let c = ConnectView {
        target,
        deadline: (now + crate::dht::CONNECT_TIMEOUT_MS) as u64,
        coordinator: None,
        data_addrs,
    };
    lemma_first(d.connecting, to_target(target));
    match first(d.connecting, to_target(target)) {
        Some(k) => {
            lemma_connect_update(d.connecting, k, c);
            lemma_started_rids(
                DhtView { connecting: d.connecting.update(k, c), ..d },
                target,
                QueryKind::Connect,
                now,
            );
        },
        None => {
            let s = d.connecting.push(c);
            assert forall|i: int, j: int| 0 <= i < j < s.len() implies (#[trigger] s[i]).target != (
            #[trigger] s[j]).target by {
                assert(s[i] == d.connecting[i]);
                if j < d.connecting.len() {
                    assert(s[j] == d.connecting[j]);
                }
            }
            lemma_started_rids(DhtView { connecting: s, ..d }, target, QueryKind::Connect, now);
        },
    }
}

proof fn lemma_started_rids(d: DhtView, target: NodeId, kind: QueryKind, now: u64)
    requires
        healthy(d),
        rids_ok(d),
        d.next_rid + K <= u64::MAX,
        now + REQUEST_TIMEOUT_MS <= u64::MAX,
    ensures
        rids_ok(started(d, target, kind, now)),
{
    let none = Seq::<QueryContact>::empty();
    let contacts = all_added(none, nearest(d.table, target, K as nat), target, None);
    lemma_all_added(none, nearest(d.table, target, K as nat), target, None);
    let q = QueryView {
        qid: d.next_qid,
        target,
        kind,
        contacts,
        coordinators: Seq::empty(),
        peers: Seq::empty(),
    };
    assert(lookups_ok(d.queries.push(q)));
    lemma_driven_pending(
        DhtView { queries: d.queries.push(q), next_qid: d.next_qid.wrapping_add(1), ..d },
        d.next_qid,
        now,
    );
}

/// Taking in any datagram gives no request an id that another one awaits an answer
/// under, while ids last.
pub proof fn law_input_keeps_ids_apart(d: DhtView, from: SocketAddr, data: Seq<u8>, now: u64)
    requires
        healthy(d),
        rids_ok(d),
        d.next_rid + K <= u64::MAX,
        now + REQUEST_TIMEOUT_MS <= u64::MAX,
    ensures
        rids_ok(input(d, from, data, now)),
{
    if let Ok(p) = read_packet(data) {
        let e = sighted(d, from, p);
        if let MessageView::Nodes { contacts, peers } = p.msg {
            let responder = Contact { id: p.sender, addr: from };
            lemma_first(e.pending, with_rid(p.rid));
            if let Some(k) = first(e.pending, with_rid(p.rid)) {
                let a = e.pending[k];
                let d1 = DhtView { pending: e.pending.remove(k), ..e };
                lemma_removed_rids(e, k);
                lemma_first(d1.queries, with_qid(a.query));
                if let Some(j) = first(d1.queries, with_qid(a.query)) {
                    let q = d1.queries[j];
                    assert(lookup_ok(q));
                    lemma_marked(q.contacts, a.contact, Status::Done, q.target);
                    lemma_all_added(
                        marked(q.contacts, a.contact, Status::Done),
                        contacts,
                        q.target,
                        Some(e.id),
                    );
                    let m = enriched(q, e.id, a.contact, responder, contacts, peers);
                    assert(lookups_ok(d1.queries.update(j, m)));
                    lemma_driven_pending(
                        DhtView { queries: d1.queries.update(j, m), ..d1 },
                        a.query,
                        now,
                    );
                }
            }
        } else {
            let r = input(d, from, data, now);
            assert(r.pending == d.pending);
            assert(d.next_rid <= r.next_rid);
        }
    }
}

/// A new node awaits no answer, and firing the timers, accepting a request and
/// probing for our own address give no request an id that another one awaits an
/// answer under, while ids last.
pub proof fn law_timers_keep_ids_apart(
    d: DhtView,
    initiator: NodeId,
    data_addrs: Seq<SocketAddr>,
    peers: Seq<Contact>,
    now: u64,
)
    requires
        healthy(d),
        rids_ok(d),
        d.next_rid + K * d.pending.len() <= u64::MAX,
        d.next_rid + peers.len() <= u64::MAX,
        d.next_rid < u64::MAX,
        now + REQUEST_TIMEOUT_MS <= u64::MAX,
    ensures
        rids_ok(fresh_node(d.id)),
        rids_ok(timers_fired(d, now)),
        rids_ok(accepted(d, initiator, data_addrs, now)),
        rids_ok(pinged(d, peers, now)),
{
    let late = kept(d.pending, due(now));
    lemma_kept(d.pending, due(now));
    lemma_all_given_up_pending(d, late, now);
    let d1 = all_given_up(d, late, now);
    let d2 = DhtView { probes: kept(d1.probes, live_probe(now)), ..d1 };
    lemma_timed_out_rids(d2, kept(d2.connecting, stale(now)));
    lemma_pinged_rids(d, peers, now);
}

/// A connect to a peer that ended.
pub open spec fn ends(target: NodeId) -> spec_fn(EventView) -> bool {
    |e: EventView| e is Connected && e->Connected_target == target
}

/// The ends of connects to a peer that were reported.
pub open spec fn endings(events: Seq<EventView>, target: NodeId) -> Seq<EventView> {
    kept(events, ends(target))
}

/// The end of a connect that failed.
pub open spec fn ended(target: NodeId, outcome: ConnectOutcome) -> EventView {
    EventView::Connected { target, outcome, peer_data_addrs: Seq::empty(), strategy: None }
}

/// Whether a query looks for a peer to connect to.
pub open spec fn connects(q: QueryView, target: NodeId) -> bool {
    q.kind == QueryKind::Connect && q.target == target
}

/// Whether some query looks for a peer to connect to.
pub open spec fn is_looked_for(queries: Seq<QueryView>, target: NodeId) -> bool {
    exists|i: int| 0 <= i < queries.len() && connects(#[trigger] queries[i], target)
}

/// Whether no two queries look for a peer to connect to.
pub open spec fn looked_for_once(queries: Seq<QueryView>, target: NodeId) -> bool {
    forall|i: int, j: int|
        0 <= i < j < queries.len() ==> !(connects(#[trigger] queries[i], target) && connects(
            #[trigger] queries[j],
            target,
        ))
}

/// Whether a connect to a peer is unresolved.
pub open spec fn is_awaited(s: Seq<ConnectView>, target: NodeId) -> bool {
    exists|i: int| 0 <= i < s.len() && (#[trigger] s[i]).target == target
}

/// Whether a connect to a peer is due.
pub open spec fn is_overdue(s: Seq<ConnectView>, target: NodeId, now: u64) -> bool {
    exists|i: int| 0 <= i < s.len() && (#[trigger] s[i]).target == target && s[i].deadline <= now
}

/// Where a connect that is overdue stands: it still waits, or its lookup found
/// nobody and that was reported.
spec fn ends_once(d0: DhtView, d: DhtView, target: NodeId, now: u64) -> bool {
    &&& looked_for_once(d.queries, target)
    &&& is_looked_for(d.queries, target) ==> is_looked_for(d0.queries, target)
    &&& ({
        ||| is_overdue(d.connecting, target, now) && endings(d.events, target) == endings(
            d0.events,
            target,
        )
        ||| {
            &&& !is_awaited(d.connecting, target)
            &&& !is_looked_for(d.queries, target)
            &&& is_looked_for(d0.queries, target)
            &&& endings(d.events, target) == endings(d0.events, target).push(
                ended(target, ConnectOutcome::NotFound),
            )
        }
    })
}

/// What an event adds to the ends that were reported.
pub proof fn lemma_endings_push(s: Seq<EventView>, e: EventView, target: NodeId)
    ensures
        endings(s.push(e), target) == if ends(target)(e) {
            endings(s, target).push(e)
        } else {
            endings(s, target)
        },
{
    assert(s.push(e).drop_last() =~= s);
}

/// Replacing a query by one for the same peer changes nobody who is looked for.
pub proof fn lemma_lookups_update(s: Seq<QueryView>, k: int, q: QueryView, target: NodeId)
    requires
        0 <= k < s.len(),
        q.kind == s[k].kind,
        q.target == s[k].target,
    ensures
        is_looked_for(s.update(k, q), target) == is_looked_for(s, target),
        looked_for_once(s, target) ==> looked_for_once(s.update(k, q), target),
{
    let r = s.update(k, q);
    assert forall|i: int| 0 <= i < s.len() implies connects(#[trigger] r[i], target) == connects(
        s[i],
        target,
    ) by {}
    if is_looked_for(s, target) {
        let i = choose|i: int| 0 <= i < s.len() && connects(#[trigger] s[i], target);
        assert(connects(r[i], target));
    }
    if is_looked_for(r, target) {
        let i = choose|i: int| 0 <= i < r.len() && connects(#[trigger] r[i], target);
        assert(connects(s[i], target));
    }
    if looked_for_once(s, target) {
        assert forall|i: int, j: int| 0 <= i < j < r.len() implies !(connects(
            #[trigger] r[i],
            target,
        ) && connects(#[trigger] r[j], target)) by {
            assert(!(connects(s[i], target) && connects(s[j], target)));
        }
    }
}

/// Removing a query leaves who else is looked for.
pub proof fn lemma_lookups_remove(s: Seq<QueryView>, k: int, target: NodeId)
    requires
        0 <= k < s.len(),
        looked_for_once(s, target),
    ensures
        is_looked_for(s.remove(k), target) ==> is_looked_for(s, target),
        looked_for_once(s.remove(k), target),
        connects(s[k], target) ==> !is_looked_for(s.remove(k), target),
{
    let r = s.remove(k);
    assert forall|i: int| 0 <= i < r.len() implies (#[trigger] r[i]) == s[if i < k {
        i
    } else {
        i + 1
    }] by {}
    if is_looked_for(r, target) {
        let i = choose|i: int| 0 <= i < r.len() && connects(#[trigger] r[i], target);
        let i2 = if i < k {
            i
        } else {
            i + 1
        };
        assert(connects(s[i2], target));
        if i2 < k {
            assert(!(connects(s[i2], target) && connects(s[k], target)));
        } else {
            assert(!(connects(s[k], target) && connects(s[i2], target)));
        }
    }
    assert forall|i: int, j: int| 0 <= i < j < r.len() implies !(connects(#[trigger] r[i], target)
        && connects(#[trigger] r[j], target)) by {
        let i2 = if i < k {
            i
        } else {
            i + 1
        };
        let j2 = if j < k {
            j
        } else {
            j + 1
        };
        assert(!(connects(s[i2], target) && connects(s[j2], target)));
    }
}

/// What the end of a query does to a connect.
pub proof fn lemma_finished_ends(d: DhtView, q: QueryView, closest: Seq<Contact>, t: NodeId, now: u64)
    requires
        one_each(d.connecting),
    ensures
        ({
            let r = finished(d, q, closest);
            if connects(q, t) && q.coordinators.len() == 0 {
                &&& endings(r.events, t) == endings(d.events, t).push(
                    ended(t, ConnectOutcome::NotFound),
                )
                &&& !is_awaited(r.connecting, t)
            } else {
                &&& endings(r.events, t) == endings(d.events, t)
                &&& is_awaited(r.connecting, t) ==> is_awaited(d.connecting, t)
                &&& is_overdue(d.connecting, t, now) ==> is_overdue(r.connecting, t, now)
            }
        }),
{
    let r = finished(d, q, closest);
    lemma_registered(d, q.target, closest);
    match q.kind {
        QueryKind::FindNode => {
            lemma_endings_push(
                d.events,
                EventView::QueryFinished { query: q.qid, target: q.target, closest },
                t,
            );
        },
        QueryKind::Lookup => {
            lemma_endings_push(
                d.events,
                EventView::LookupFinished { topic: q.target, peers: q.peers },
                t,
            );
        },
        QueryKind::Announce => {
            lemma_endings_push(d.events, EventView::AnnounceFinished { topic: q.target }, t);
        },
        QueryKind::Connect => {
            if q.coordinators.len() > 0 {
                lemma_first(d.connecting, to_target(q.target));
                if let Some(k) = first(d.connecting, to_target(q.target)) {
                    assert forall|i: int| 0 <= i < r.connecting.len() implies (
                    #[trigger] r.connecting[i]).target == d.connecting[i].target
                        && r.connecting[i].deadline == d.connecting[i].deadline by {}
                    if is_awaited(r.connecting, t) {
                        let i = choose|i: int|
                            0 <= i < r.connecting.len() && (#[trigger] r.connecting[i]).target == t;
                        assert(d.connecting[i].target == t);
                    }
                    if is_overdue(d.connecting, t, now) {
                        let i = choose|i: int|
                            0 <= i < d.connecting.len() && (#[trigger] d.connecting[i]).target == t
                                && d.connecting[i].deadline <= now;
                        assert(r.connecting[i].target == t);
                    }
                }
            } else {
                lemma_endings_push(d.events, ended(q.target, ConnectOutcome::NotFound), t);
                lemma_disconnected(d.connecting, q.target);
                if is_awaited(r.connecting, t) {
                    let i = choose|i: int|
                        0 <= i < r.connecting.len() && (#[trigger] r.connecting[i]).target == t;
                    let x = r.connecting[i];
                    assert(r.connecting.contains(x));
                    let j = d.connecting.index_of(x);
                    assert(d.connecting[j] == x);
                }
                if is_overdue(d.connecting, t, now) && t != q.target {
                    let i = choose|i: int|
                        0 <= i < d.connecting.len() && (#[trigger] d.connecting[i]).target == t
                            && d.connecting[i].deadline <= now;
                    let x = d.connecting[i];
                    assert(d.connecting.contains(x));
                    assert(r.connecting.contains(x));
                    let j = r.connecting.index_of(x);
                    assert(r.connecting[j] == x);
                }
            }
        },
    }
}

proof fn lemma_driven_ends(d0: DhtView, d: DhtView, qid: u64, t: NodeId, now: u64)
    requires
        one_each(d.connecting),
        ends_once(d0, d, t, now),
    ensures
        ends_once(d0, driven(d, qid, now), t, now),
{
    lemma_first(d.queries, with_qid(qid));
    if let Some(k) = first(d.queries, with_qid(qid)) {
        let q = d.queries[k];
        let flying = in_flight(q.contacts);
        let (contacts, out) = launched(q.contacts, 0, flying);
        let r = QueryView { contacts, ..q };
        if out.len() == 0 && flying == 0 {
            let e = DhtView { queries: d.queries.remove(k), ..d };
            let closest = answered(contacts, near(contacts));
            lemma_lookups_remove(d.queries, k, t);
            lemma_finished_ends(e, r, closest, t, now);
            if connects(q, t) {
                assert(connects(d.queries[k], t));
                assert(is_looked_for(d.queries, t));
            }
            lemma_finished_queries(e, r, closest);
        } else {
            lemma_lookups_update(d.queries, k, r, t);
            lemma_requested(
                DhtView { queries: d.queries.update(k, r), ..d },
                qid,
                q.target,
                now,
                out,
            );
        }
    }
}

/// The end of a query leaves the other queries.
pub proof fn lemma_finished_queries(d: DhtView, q: QueryView, closest: Seq<Contact>)
    ensures
        finished(d, q, closest).queries == d.queries,
{
    lemma_registered(d, q.target, closest);
}

proof fn lemma_all_given_up_ends(d: DhtView, due: Seq<Pending>, t: NodeId, now: u64)
    requires
        healthy(d),
        ends_once(d, d, t, now),
    ensures
        ends_once(d, all_given_up(d, due, now), t, now),
    decreases due.len(),
{
    if due.len() > 0 {
        let rest = due.drop_last();
        lemma_all_given_up_ends(d, rest, t, now);
        lemma_all_given_up(d, rest, now);
        let e = all_given_up(d, rest, now);
        let rid = due.last().rid;
        if let Some(k) = first(e.pending, with_rid(rid)) {
            let p = e.pending[k];
            let d1 = DhtView {
                pending: e.pending.remove(k),
                table: crate::routing::failed(e.table, p.contact).0,
                ..e
            };
            lemma_first(d1.queries, with_qid(p.query));
            match first(d1.queries, with_qid(p.query)) {
                Some(j) => {
                    let q = d1.queries[j];
                    let m = QueryView {
                        contacts: marked(q.contacts, p.contact, Status::Failed),
                        ..q
                    };
                    lemma_lookups_update(d1.queries, j, m, t);
                    lemma_driven_ends(
                        d,
                        DhtView { queries: d1.queries.update(j, m), ..d1 },
                        p.query,
                        t,
                        now,
                    );
                },
                None => {
                    lemma_driven_ends(d, d1, p.query, t, now);
                },
            }
        }
    }
}

/// The connects kept are to different peers.
pub proof fn lemma_kept_one_each(s: Seq<ConnectView>, p: spec_fn(ConnectView) -> bool)
    requires
        one_each(s),
    ensures
        one_each(kept(s, p)),
    decreases s.len(),
{
    if s.len() > 0 {
        let rest = s.drop_last();
        assert forall|i: int, j: int| 0 <= i < j < rest.len() implies (#[trigger] rest[i]).target
            != (#[trigger] rest[j]).target by {
            assert(s[i].target != s[j].target);
        }
        lemma_kept_one_each(rest, p);
        lemma_kept(rest, p);
        let r = kept(s, p);
        let w = kept(rest, p);
        assert forall|i: int, j: int| 0 <= i < j < r.len() implies (#[trigger] r[i]).target != (
        #[trigger] r[j]).target by {
            assert(r[i] == w[i]);
            if j < w.len() {
                assert(r[j] == w[j]);
            } else {
                assert(w.contains(w[i]));
                let m = rest.index_of(w[i]);
                assert(s[m] == w[i]);
                assert(s[m].target != s[s.len() - 1].target);
            }
        }
    }
}

/// Each connect that times out is reported once.
pub proof fn lemma_all_timed_out_ends(d: DhtView, stale: Seq<ConnectView>, t: NodeId)
    requires
        one_each(stale),
    ensures
        endings(all_timed_out(d, stale).events, t) == if is_awaited(stale, t) {
            endings(d.events, t).push(ended(t, ConnectOutcome::TimedOut))
        } else {
            endings(d.events, t)
        },
    decreases stale.len(),
{
    if stale.len() > 0 {
        let rest = stale.drop_last();
        assert forall|i: int, j: int| 0 <= i < j < rest.len() implies (#[trigger] rest[i]).target
            != (#[trigger] rest[j]).target by {
            assert(stale[i].target != stale[j].target);
        }
        lemma_all_timed_out_ends(d, rest, t);
        let e = all_timed_out(d, rest);
        lemma_endings_push(e.events, ended(stale.last().target, ConnectOutcome::TimedOut), t);
        assert(stale.last() == stale[stale.len() - 1]);
        if is_awaited(rest, t) {
            let i = choose|i: int| 0 <= i < rest.len() && (#[trigger] rest[i]).target == t;
            assert(stale[i].target == t);
            assert(stale[i].target != stale[stale.len() - 1].target);
        }
        if is_awaited(stale, t) && stale.last().target != t {
            let i = choose|i: int| 0 <= i < stale.len() && (#[trigger] stale[i]).target == t;
            assert(rest[i].target == t);
        }
    }
}

/// A connect that is due when the timers fire ends, and is reported exactly once,
/// with nowhere to punch to: as timed out, or, if its lookup ended just then
/// without finding the peer, as not found.
pub proof fn law_due_connect_ends_once(d: DhtView, now: u64, k: int)
    requires
        healthy(d),
        0 <= k < d.connecting.len(),
        d.connecting[k].deadline <= now,
        looked_for_once(d.queries, d.connecting[k].target),
    ensures
        ({
            let t = d.connecting[k].target;
            let r = timers_fired(d, now);
            &&& first(r.connecting, to_target(t)) is None
            &&& {
                ||| endings(r.events, t) == endings(d.events, t).push(
                    ended(t, ConnectOutcome::TimedOut),
                )
                ||| is_looked_for(d.queries, t) && endings(r.events, t) == endings(
                    d.events,
                    t,
                ).push(ended(t, ConnectOutcome::NotFound))
            }
        }),
{
    let t = d.connecting[k].target;
    let late = kept(d.pending, due(now));
    assert(is_overdue(d.connecting, t, now));
    lemma_all_given_up_ends(d, late, t, now);
    lemma_all_given_up(d, late, now);
    let d1 = all_given_up(d, late, now);
    let d2 = DhtView { probes: kept(d1.probes, live_probe(now)), ..d1 };
    let gone = kept(d2.connecting, stale(now));
    lemma_kept(d2.connecting, stale(now));
    lemma_kept_one_each(d2.connecting, stale(now));
    lemma_all_timed_out_ends(d2, gone, t);
    lemma_all_timed_out(d2, gone);
    let d3 = all_timed_out(d2, gone);
    if is_overdue(d1.connecting, t, now) {
        let i = choose|i: int|
            0 <= i < d1.connecting.len() && (#[trigger] d1.connecting[i]).target == t
                && d1.connecting[i].deadline <= now;
        let x = d1.connecting[i];
        assert(d2.connecting.contains(x));
        assert(stale(now)(x));
        assert(gone.contains(x));
        let j = gone.index_of(x);
        assert(gone[j].target == t);
    }
    if is_awaited(gone, t) {
        let j = choose|j: int| 0 <= j < gone.len() && (#[trigger] gone[j]).target == t;
        assert(gone.contains(gone[j]));
        let i = d2.connecting.index_of(gone[j]);
        assert(d1.connecting[i].target == t);
    }
    lemma_first(d3.connecting, to_target(t));
    if let Some(i) = first(d3.connecting, to_target(t)) {
        let x = d3.connecting[i];
        assert(d3.connecting.contains(x));
        assert(d2.connecting.contains(x));
        let m = d2.connecting.index_of(x);
        assert(d1.connecting[m].target == t);
        assert(is_awaited(d1.connecting, t));
        assert(is_awaited(gone, t));
        let j = choose|j: int| 0 <= j < gone.len() && (#[trigger] gone[j]).target == t;
        assert(x.target != gone[j].target);
    }
}

/// Accepting a request and probing for our own address keep a node healthy.
pub proof fn law_replies_keep_health(
    d: DhtView,
    initiator: NodeId,
    data_addrs: Seq<SocketAddr>,
    peers: Seq<Contact>,
    now: u64,
)
    requires
        healthy(d),
    ensures
        healthy(accepted(d, initiator, data_addrs, now)),
        healthy(pinged(d, peers, now)),
{
    lemma_first(d.incoming, from_initiator(initiator));
    lemma_pinged(d, peers, now);
}

/// While an initiator's request is pending, a repetition reports nothing, sends
/// nothing, and does not redirect the reply, whoever relays it.
pub proof fn law_repeated_request_changes_nothing(
    d: DhtView,
    from: SocketAddr,
    s: SignalView,
    now: u64,
)
    requires
        s.target == d.id,
        first(d.incoming, from_initiator(s.initiator)) is Some,
    ensures
        ({
            let r = signaled(d, from, s, false, now);
            &&& r.events == d.events
            &&& r.outbox == d.outbox
            &&& r.incoming.len() == d.incoming.len()
            &&& forall|i: int|
                0 <= i < d.incoming.len() ==> (#[trigger] r.incoming[i]).initiator
                    == d.incoming[i].initiator && r.incoming[i].coordinator
                    == d.incoming[i].coordinator && r.incoming[i].initiator_addr
                    == d.incoming[i].initiator_addr
        }),
{
    lemma_first(d.incoming, from_initiator(s.initiator));
}

/// An accepted request is answered once, through the coordinator that relayed
/// it: it is no longer pending afterwards.
pub proof fn law_accept_answers_the_coordinator(
    d: DhtView,
    initiator: NodeId,
    data_addrs: Seq<SocketAddr>,
    now: u64,
)
    requires
        first(d.incoming, from_initiator(initiator)) is Some,
        d.incoming[first(d.incoming, from_initiator(initiator))->Some_0].deadline > now,
    ensures
        ({
            let k = first(d.incoming, from_initiator(initiator))->Some_0;
            let r = accepted(d, initiator, data_addrs, now);
            &&& r.incoming == d.incoming.remove(k)
            &&& r.outbox.len() == d.outbox.len() + 1
            &&& r.outbox.last().to == d.incoming[k].coordinator
        }),
{
}

/// A connect is completed only by a reply from the coordinator that was asked.
pub proof fn law_reply_only_from_the_coordinator(
    d: DhtView,
    from: SocketAddr,
    s: SignalView,
    now: u64,
)
    requires
        s.initiator == d.id,
        !from_coordinator(d, s.target, from),
    ensures
        signaled(d, from, s, true, now) == d,
{
}

/// A coordinator relays a reply only from where the target's own record says it
/// is, and only to an address that asked for that target.
pub proof fn law_reply_is_relayed_only_to_an_initiator(
    d: DhtView,
    from: SocketAddr,
    s: SignalView,
    now: u64,
)
    requires
        s.initiator != d.id,
        signaled(d, from, s, true, now) != d,
    ensures
        d.initiators.contains((s.target, s.initiator_addr)),
        is_own_record(records(d, s.target), s.target, from),
        signaled(d, from, s, true, now).outbox.last().to == s.initiator_addr,
{
}

/// A request is relayed to the target's own record, with the address it came
/// from filled in, and that address is remembered.
pub proof fn law_request_is_relayed_to_the_target(
    d: DhtView,
    from: SocketAddr,
    s: SignalView,
    now: u64,
)
    requires
        s.target != d.id,
        own_record(d, s.target) is Some,
    ensures
        ({
            let r = signaled(d, from, s, false, now);
            &&& r.initiators.contains((s.target, from))
            &&& r.outbox == d.outbox.push(
                TransmitView {
                    to: own_record(d, s.target)->Some_0,
                    data: packet_bytes(
                        PacketView {
                            sender: d.id,
                            rid: d.next_rid,
                            msg: signal(SignalView { initiator_addr: from, ..s }, false),
                        },
                    ),
                },
            )
        }),
{
    let key = (s.target, from);
    if !d.initiators.contains(key) {
        if d.initiators.len() >= MAX_SEEN_INITIATORS {
            lemma_push_contains(d.initiators.drop_first(), key, key);
        } else {
            lemma_push_contains(d.initiators, key, key);
        }
    }
}

/// A reflexive probe is echoed to its source and leaves the routing table, and
/// all else, alone.
pub proof fn law_reflect_is_echoed(d: DhtView, from: SocketAddr, data: Seq<u8>, now: u64)
    requires
        read_packet(data) is Ok,
        read_packet(data)->Ok_0.msg is Reflect,
    ensures
        input(d, from, data, now) == sent(
            d,
            from,
            read_packet(data)->Ok_0.rid,
            MessageView::Reflected { observed: from },
        ),
{
}

/// What does not parse changes nothing.
pub proof fn law_garbage_is_ignored(d: DhtView, from: SocketAddr, data: Seq<u8>, now: u64)
    requires
        read_packet(data) is Err,
    ensures
        input(d, from, data, now) == d,
{
}

/// An announcement is found again: a node that stores one answers a lookup for
/// its topic with the announcer, at the address the announcement came from.
pub proof fn law_announcement_is_found(d: DhtView, topic: NodeId, c: Contact)
    requires
        match first(d.announces, on_topic(topic)) {
            Some(k) => d.announces[k].peers.len() < K || first(
                d.announces[k].peers,
                with_id(c.id),
            ) is Some,
            None => d.announces.len() < MAX_ANNOUNCE_TOPICS,
        },
    ensures
        records(stored(d, topic, c), topic).contains(c),
{
    lemma_first(d.announces, on_topic(topic));
    let r = stored(d, topic, c);
    match first(d.announces, on_topic(topic)) {
        Some(k) => {
            let peers = d.announces[k].peers;
            lemma_first(peers, with_id(c.id));
            let a = AnnouncedView { topic, peers: refreshed(peers, c) };
            assert(r.announces == d.announces.update(k, a));
            assert forall|j: int| 0 <= j < k implies !on_topic(topic)(
                #[trigger] r.announces[j],
            ) by {
                assert(r.announces[j] == d.announces[j]);
            }
            lemma_first_at(r.announces, on_topic(topic), k);
            match first(peers, with_id(c.id)) {
                Some(i) => {
                    assert(refreshed(peers, c)[i] == c);
                },
                None => {
                    lemma_push_contains(peers, c, c);
                },
            }
        },
        None => {
            let a = AnnouncedView { topic, peers: seq![c] };
            let k = d.announces.len() as int;
            assert(r.announces == d.announces.push(a));
            assert forall|j: int| 0 <= j < k implies !on_topic(topic)(
                #[trigger] r.announces[j],
            ) by {
                assert(r.announces[j] == d.announces[j]);
            }
            lemma_first_at(r.announces, on_topic(topic), k);
            assert(seq![c][0] == c);
        },
    }
}

/// What a lookup is told of the target's announcers it reports: a record a reply
/// brings stands among the query's.
pub proof fn law_reported_record_is_gathered(s: Seq<Contact>, new: Seq<Contact>, i: int)
    requires
        0 <= i < new.len(),
        forall|j: int| i < j < new.len() ==> (#[trigger] new[j]).id != new[i].id,
    ensures
        all_refreshed(s, new).contains(new[i]),
    decreases new.len(),
{
    let rest = new.drop_last();
    let before = all_refreshed(s, rest);
    let c = new.last();
    lemma_first(before, with_id(c.id));
    if i < new.len() - 1 {
        assert forall|j: int| i < j < rest.len() implies (#[trigger] rest[j]).id != rest[i].id by {
            assert(rest[j] == new[j]);
        }
        law_reported_record_is_gathered(s, rest, i);
        assert(new[new.len() - 1].id != new[i].id);
        let k = before.index_of(new[i]);
        match first(before, with_id(c.id)) {
            Some(m) => {
                assert(m != k);
                assert(refreshed(before, c)[k] == new[i]);
            },
            None => {
                lemma_push_contains(before, c, new[i]);
            },
        }
    } else {
        match first(before, with_id(c.id)) {
            Some(m) => {
                assert(refreshed(before, c)[m] == c);
            },
            None => {
                lemma_push_contains(before, c, c);
            },
        }
    }
}

} // verus!
