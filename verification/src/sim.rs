//! A deterministic in-memory network of [`Dht`] nodes.
//!
//! The nodes share one virtual clock. A packet is delivered a fixed latency
//! after it was sent, in the order of time and of sending, and all randomness
//! comes from a seeded generator, so every run of the same network is the same.
use crate::addr::{IpAddr, SocketAddr};
use crate::dht::{
    accepted, all_added, answered, connect_begun, fresh_node, in_flight, input, launched, near,
    next_timer, pinged, started, timers_fired, with_qid, Dht, DhtView, Event, EventView, Millis,
    QueryId, QueryKind, QueryView, Transmit, TransmitView, CONNECT_TIMEOUT_MS,
};
use crate::dht_laws::{lemma_registered, lemma_requested};
use crate::firewall::Firewall;
use crate::id::{closer, dist, NodeId};
use crate::lists::{
    first, found, lemma_first, lemma_first_at, lemma_first_none, lemma_push_contains,
    lemma_views_push, lemma_views_update, views,
};
use crate::rng::{nth_draw, nth_state, Rng};
use crate::routing::{nearest, Contact, K};
use std::collections::VecDeque;
use vstd::prelude::*;

verus! {

/// The most nodes a network holds: each has a port of its own.
pub const MAX_NODES: usize = 55_536;

/// The port of the first node.
pub const FIRST_PORT: u16 = 10_000;

/// The lowest port a symmetric NAT shows, and how many it shows.
pub const RANDOM_PORTS: u16 = 30_000;

/// The NAT a simulated node sits behind.
#[derive(Clone, Copy, Debug, PartialEq, Eq, Structural)]
pub enum NatKind {
    /// Publicly reachable; stable observed address, unsolicited inbound works.
    Open,
    /// Firewalled but stable observed port (endpoint-independent mapping).
    Consistent,
    /// Symmetric: a fresh observed port per destination.
    Random,
}

/// A packet on its way.
pub struct Slot {
    time: u64,
    seq: u64,
    to: usize,
    from: SocketAddr,
    data: Vec<u8>,
}

/// A [`Slot`] as a mathematical value.
#[verifier::ext_equal]
pub struct SlotView {
    /// When it arrives.
    pub time: u64,
    /// Its place in the order of sending.
    pub seq: u64,
    /// The node it is for.
    pub to: usize,
    /// The source the receiver observes.
    pub from: SocketAddr,
    /// The packet.
    pub data: Seq<u8>,
}

impl View for Slot {
    type V = SlotView;

    closed spec fn view(&self) -> SlotView {
        SlotView {
            time: self.time,
            seq: self.seq,
            to: self.to,
            from: self.from,
            data: self.data@,
        }
    }
}

/// A [`Sim`] as a mathematical value.
#[verifier::ext_equal]
pub struct SimView {
    /// The virtual time.
    pub now: u64,
    /// The nodes.
    pub nodes: Seq<DhtView>,
    /// The address of each node.
    pub addrs: Seq<SocketAddr>,
    /// The NAT each node sits behind.
    pub nats: Seq<NatKind>,
    /// The translated source addresses seen so far, and whose they are.
    pub translated: Seq<(SocketAddr, usize)>,
    /// The packets on their way, the next to arrive first.
    pub queue: Seq<SlotView>,
    /// The place of the next packet in the order of sending.
    pub seq: u64,
    /// How long a packet takes.
    pub latency: u64,
    /// How many of `2^53` packets are lost.
    pub loss: u64,
    /// The seed.
    pub seed: u64,
    /// The state of the generator.
    pub draws: u64,
    /// The nodes that are offline.
    pub offline: Set<usize>,
    /// The events reported so far, each with its node.
    pub events: Seq<(usize, EventView)>,
}

/// Whether an address is the one looked for.
pub open spec fn is_addr(addr: SocketAddr) -> spec_fn(SocketAddr) -> bool {
    |a: SocketAddr| a == addr
}

/// The entry of a translated address.
pub open spec fn is_source(addr: SocketAddr) -> spec_fn((SocketAddr, usize)) -> bool {
    |e: (SocketAddr, usize)| e.0 == addr
}

/// The node behind an address: a node's own, or a translated one.
pub open spec fn resolved(s: SimView, addr: SocketAddr) -> Option<usize> {
    match first(s.addrs, is_addr(addr)) {
        Some(i) => Some(i as usize),
        None => match first(s.translated, is_source(addr)) {
            Some(k) => Some(s.translated[k].1),
            None => None,
        },
    }
}

/// The source address node `dest` observes for a packet of node `sender`:
/// stable, or, behind a symmetric NAT, one per destination.
pub open spec fn source_of(s: SimView, sender: usize, dest: usize) -> SocketAddr {
    match s.nats[sender as int] {
        NatKind::Random => SocketAddr {
            ip: s.addrs[sender as int].ip,
            port: (RANDOM_PORTS + nth_draw(
                s.seed ^ ((sender as u64) << 32) ^ dest as u64,
                0,
            ) % RANDOM_PORTS as u64) as u16,
        },
        _ => s.addrs[sender as int],
    }
}

/// A translated address recorded.
pub open spec fn recorded(t: Seq<(SocketAddr, usize)>, addr: SocketAddr, i: usize) -> Seq<
    (SocketAddr, usize),
> {
    match first(t, is_source(addr)) {
        Some(k) => t.update(k, (addr, i)),
        None => t.push((addr, i)),
    }
}

/// Whether one packet arrives before another.
pub open spec fn arrives_before(a: SlotView, b: SlotView) -> bool {
    a.time < b.time || (a.time == b.time && a.seq < b.seq)
}

/// A packet put in its place among those on their way.
pub open spec fn queued(q: Seq<SlotView>, slot: SlotView) -> Seq<SlotView>
    decreases q.len(),
{
    if q.len() == 0 || !arrives_before(slot, q.last()) {
        q.push(slot)
    } else {
        queued(q.drop_last(), slot).push(q.last())
    }
}

/// Whether the next packet is lost.
pub open spec fn is_lost(s: SimView) -> bool {
    s.loss > 0 && (nth_draw(s.draws, 0) >> 11) < s.loss
}

/// A packet of node `i` put on its way, unless it goes nowhere, an end of it is
/// offline, or it is lost.
pub open spec fn posted(s: SimView, i: usize, t: TransmitView) -> SimView {
    if s.offline.contains(i) {
        s
    } else {
        match resolved(s, t.to) {
            None => s,
            Some(to) => if s.offline.contains(to) {
                s
            } else {
                let r = if s.loss > 0 {
                    SimView { draws: nth_state(s.draws, 1), ..s }
                } else {
                    s
                };
                if is_lost(s) {
                    r
                } else {
                    let from = source_of(s, i, to);
                    SimView {
                        translated: if from != s.addrs[i as int] {
                            recorded(s.translated, from, i)
                        } else {
                            s.translated
                        },
                        queue: queued(
                            s.queue,
                            SlotView {
                                time: (s.now + s.latency) as u64,
                                seq: s.seq,
                                to,
                                from,
                                data: t.data,
                            },
                        ),
                        seq: s.seq.wrapping_add(1),
                        ..r
                    }
                }
            },
        }
    }
}

/// Packets of node `i` put on their way one after the other.
pub open spec fn all_posted(s: SimView, i: usize, out: Seq<TransmitView>) -> SimView
    decreases out.len(),
{
    if out.len() == 0 {
        s
    } else {
        posted(all_posted(s, i, out.drop_last()), i, out.last())
    }
}

/// Everything node `i` has to send put on its way.
pub open spec fn node_drained(s: SimView, i: usize) -> SimView {
    let d = s.nodes[i as int];
    SimView {
        nodes: s.nodes.update(i as int, DhtView { outbox: Seq::empty(), ..d }),
        ..all_posted(s, i, d.outbox)
    }
}

/// Everything the first `n` nodes have to send put on its way.
pub open spec fn drained(s: SimView, n: nat) -> SimView
    decreases n,
{
    if n == 0 {
        s
    } else {
        node_drained(drained(s, (n - 1) as nat), (n - 1) as usize)
    }
}

/// What a node does on an event of its own: an incoming connect is accepted,
/// with the node's own address as its data address.
pub open spec fn reacted(d: DhtView, e: EventView, addr: SocketAddr, now: u64) -> DhtView {
    match e {
        EventView::IncomingConnect { initiator, .. } => accepted(d, initiator, seq![addr], now),
        _ => d,
    }
}

/// What a node does on events of its own, one after the other.
pub open spec fn all_reacted(d: DhtView, events: Seq<EventView>, addr: SocketAddr, now: u64) -> DhtView
    decreases events.len(),
{
    if events.len() == 0 {
        d
    } else {
        reacted(all_reacted(d, events.drop_last(), addr, now), events.last(), addr, now)
    }
}

/// Events with the node that reported them.
pub open spec fn labelled(i: usize, events: Seq<EventView>) -> Seq<(usize, EventView)> {
    Seq::new(events.len(), |k: int| (i, events[k]))
}

/// The events of node `i` collected.
pub open spec fn node_collected(s: SimView, i: usize) -> SimView {
    let d = s.nodes[i as int];
    SimView {
        nodes: s.nodes.update(
            i as int,
            DhtView {
                events: Seq::empty(),
                ..all_reacted(d, d.events, s.addrs[i as int], s.now)
            },
        ),
        events: s.events + labelled(i, d.events),
        ..s
    }
}

/// The events of the first `n` nodes collected.
pub open spec fn collected(s: SimView, n: nat) -> SimView
    decreases n,
{
    if n == 0 {
        s
    } else {
        node_collected(collected(s, (n - 1) as nat), (n - 1) as usize)
    }
}

/// The sooner of two times, either of which may be none.
pub open spec fn sooner(a: Option<u64>, b: Option<u64>) -> Option<u64> {
    match (a, b) {
        (Some(x), Some(y)) => if x <= y {
            Some(x)
        } else {
            Some(y)
        },
        (Some(x), None) => Some(x),
        (None, y) => y,
    }
}

/// The next timer among the first `n` nodes.
pub open spec fn next_timeout(nodes: Seq<DhtView>, n: nat) -> Option<u64>
    decreases n,
{
    if n == 0 {
        None
    } else {
        sooner(next_timeout(nodes, (n - 1) as nat), next_timer(nodes[n - 1]))
    }
}

/// When the next packet arrives.
pub open spec fn next_arrival(s: SimView) -> Option<u64> {
    if s.queue.len() == 0 {
        None
    } else {
        Some(s.queue[0].time)
    }
}

/// When something happens next.
pub open spec fn next_time(s: SimView) -> Option<u64> {
    sooner(next_arrival(s), next_timeout(s.nodes, s.nodes.len()))
}

/// The timers of a node that are due fired.
pub open spec fn ticked(d: DhtView, now: u64) -> DhtView {
    match next_timer(d) {
        Some(t) => if t <= now {
            timers_fired(d, now)
        } else {
            d
        },
        None => d,
    }
}

/// The due timers of the first `n` nodes fired.
pub open spec fn all_ticked(nodes: Seq<DhtView>, n: nat, now: u64) -> Seq<DhtView>
    decreases n,
{
    if n == 0 {
        nodes
    } else {
        let before = all_ticked(nodes, (n - 1) as nat, now);
        before.update(n - 1, ticked(before[n - 1], now))
    }
}

/// The packets that are due delivered.
pub open spec fn delivered(s: SimView) -> SimView
    decreases s.queue.len(),
{
    if s.queue.len() == 0 || s.queue[0].time > s.now {
        s
    } else {
        let slot = s.queue[0];
        let rest = SimView { queue: s.queue.skip(1), ..s };
        if s.offline.contains(slot.to) {
            delivered(rest)
        } else {
            delivered(
                SimView {
                    nodes: s.nodes.update(
                        slot.to as int,
                        input(s.nodes[slot.to as int], slot.from, slot.data, s.now),
                    ),
                    ..rest
                },
            )
        }
    }
}

/// The network settled: the events collected, then the packets put on their way.
#[verifier::opaque]
pub open spec fn settled(s: SimView) -> SimView {
    drained(collected(s, s.nodes.len()), s.nodes.len())
}

/// The clock moved to a time, at which the due timers fire and then the due
/// packets arrive.
#[verifier::opaque]
pub open spec fn advanced(s: SimView, t: u64) -> SimView {
    delivered(
        SimView { now: t, nodes: all_ticked(s.nodes, s.nodes.len(), t), ..s },
    )
}

/// Whether the clock can show a time and still count every deadline from it.
pub open spec fn on_the_clock(latency: u64, t: u64) -> bool {
    t + latency + CONNECT_TIMEOUT_MS <= u64::MAX
}

/// The network run from the given step on, and the number of steps taken.
pub open spec fn ran(s: SimView, max_steps: nat, steps: nat) -> (SimView, nat)
    decreases max_steps - steps,
{
    let r = settled(s);
    if steps >= max_steps {
        (r, steps)
    } else {
        match next_time(r) {
            Some(t) => if on_the_clock(s.latency, t) {
                ran(advanced(r, t), max_steps, steps + 1)
            } else {
                (r, steps + 1)
            },
            None => (r, steps + 1),
        }
    }
}

/// The firewall type a NAT amounts to.
pub open spec fn firewall_of(kind: NatKind) -> Firewall {
    match kind {
        NatKind::Open => Firewall::Open,
        NatKind::Consistent => Firewall::Consistent,
        NatKind::Random => Firewall::Random,
    }
}

/// The address of the `i`-th node.
pub open spec fn address_of(i: int) -> SocketAddr {
    SocketAddr { ip: IpAddr::V4([10, 0, 0, 1]), port: (FIRST_PORT + i) as u16 }
}

/// The network with a node replaced.
pub open spec fn with_node(s: SimView, i: int, d: DhtView) -> SimView {
    SimView { nodes: s.nodes.update(i, d), ..s }
}

/// A deterministic network of nodes sharing one virtual clock.
pub struct Sim {
    now: u64,
    nodes: Vec<Dht>,
    addrs: Vec<SocketAddr>,
    nats: Vec<NatKind>,
    translated: Vec<(SocketAddr, usize)>,
    queue: VecDeque<Slot>,
    seq: u64,
    latency: u64,
    loss: u64,
    seed: u64,
    rng: Rng,
    offline: Vec<usize>,
    events: Vec<(usize, Event)>,
}

/// Events as mathematical values.
pub open spec fn event_views(s: Seq<(usize, Event)>) -> Seq<(usize, EventView)> {
    Seq::new(s.len(), |i: int| (s[i].0, s[i].1@))
}

impl View for Sim {
    type V = SimView;

    closed spec fn view(&self) -> SimView {
        SimView {
            now: self.now,
            nodes: views(self.nodes@),
            addrs: self.addrs@,
            nats: self.nats@,
            translated: self.translated@,
            queue: views(self.queue@),
            seq: self.seq,
            latency: self.latency,
            loss: self.loss,
            seed: self.seed,
            draws: self.rng.state(),
            offline: self.offline@.to_set(),
            events: event_views(self.events@),
        }
    }
}

fn find_addr(s: &Vec<SocketAddr>, addr: &SocketAddr) -> (r: Option<usize>)
    ensures
        found(s@, is_addr(*addr), r),
{
    let mut i: usize = 0;
    while i < s.len()
        invariant
            i <= s.len(),
            forall|j: int| 0 <= j < i ==> !is_addr(*addr)(#[trigger] s@[j]),
        decreases s.len() - i,
    {
        if s[i] == *addr {
            proof {
                lemma_first_at(s@, is_addr(*addr), i as int);
            }
            return Some(i);
        }
        i += 1;
    }
    proof {
        lemma_first_none(s@, is_addr(*addr));
    }
    None
}

fn find_source(s: &Vec<(SocketAddr, usize)>, addr: &SocketAddr) -> (r: Option<usize>)
    ensures
        found(s@, is_source(*addr), r),
{
    let mut i: usize = 0;
    while i < s.len()
        invariant
            i <= s.len(),
            forall|j: int| 0 <= j < i ==> !is_source(*addr)(#[trigger] s@[j]),
        decreases s.len() - i,
    {
        if s[i].0 == *addr {
            proof {
                lemma_first_at(s@, is_source(*addr), i as int);
            }
            return Some(i);
        }
        i += 1;
    }
    proof {
        lemma_first_none(s@, is_source(*addr));
    }
    None
}

/// The sooner of two times, either of which may be none.
fn soonest(a: Option<u64>, b: Option<u64>) -> (r: Option<u64>)
    ensures
        r == sooner(a, b),
{
    match (a, b) {
        (Some(x), Some(y)) => if x <= y {
            Some(x)
        } else {
            Some(y)
        },
        (Some(x), None) => Some(x),
        (None, y) => y,
    }
}

/// Put a packet in its place among those on their way.
fn enqueue(q: &mut VecDeque<Slot>, slot: Slot)
    ensures
        views(final(q)@) == queued(views(old(q)@), slot@),
        forall|i: int| 0 <= i < final(q)@.len() ==> (#[trigger] final(q)@[i]) == slot
            || old(q)@.contains(final(q)@[i]),
{
    let ghost q0 = q@;
    let ghost v = views(q0);
    let mut i: usize = q.len();
    proof {
        assert(v.take(i as int) =~= v);
        assert(queued(v, slot@) =~= queued(v.take(i as int), slot@) + v.skip(i as int));
    }
    while i > 0 && (slot.time < q[i - 1].time || (slot.time == q[i - 1].time && slot.seq < q[i
        - 1].seq))
        invariant
            i <= q@.len(),
            q@ == q0,
            v == views(q0),
            queued(v, slot@) == queued(v.take(i as int), slot@) + v.skip(i as int),
        decreases i,
    {
        proof {
            let t = v.take(i as int);
            assert(t.last() == q0[i - 1]@);
            assert(t.drop_last() =~= v.take(i - 1));
            assert(queued(v.take(i - 1), slot@).push(v[i - 1]) + v.skip(i as int) =~= queued(
                v.take(i - 1),
                slot@,
            ) + v.skip(i - 1));
        }
        i -= 1;
    }
    proof {
        let t = v.take(i as int);
        if i > 0 {
            assert(t.last() == q0[i - 1]@);
        }
        assert(queued(t, slot@) == t.push(slot@));
        assert(views(q0.insert(i as int, slot)) =~= t.push(slot@) + v.skip(i as int));
        let r = q0.insert(i as int, slot);
        assert forall|j: int| 0 <= j < r.len() implies (#[trigger] r[j]) == slot || q0.contains(
            r[j],
        ) by {
            if j < i {
                assert(r[j] == q0[j]);
            } else if j > i {
                assert(r[j] == q0[j - 1]);
            }
        }
    }
    q.insert(i, slot);
}

impl Sim {
    /// The nodes are in order, each with its own address; whatever names a node
    /// names one there is; and the clock has room for every deadline.
    pub closed spec fn wf(&self) -> bool {
        &&& self.nodes@.len() <= MAX_NODES
        &&& self.addrs@.len() == self.nodes@.len()
        &&& self.nats@.len() == self.nodes@.len()
        &&& forall|i: int| 0 <= i < self.nodes@.len() ==> (#[trigger] self.nodes@[i]).wf()
        &&& forall|i: int| 0 <= i < self.addrs@.len() ==> #[trigger] self.addrs@[i] == address_of(i)
        &&& forall|i: int|
            0 <= i < self.translated@.len() ==> (#[trigger] self.translated@[i]).1
                < self.nodes@.len()
        &&& forall|i: int|
            0 <= i < self.queue@.len() ==> (#[trigger] self.queue@[i]).to < self.nodes@.len()
        &&& on_the_clock(self.latency, self.now)
    }

    /// Create a network with a fixed one-way latency and a seed.
    pub fn new(latency_ms: Millis, seed: u64) -> (r: Self)
        requires
            on_the_clock(latency_ms, 0),
        ensures
            r.wf(),
            r@ == (SimView {
                now: 0,
                nodes: Seq::empty(),
                addrs: Seq::empty(),
                nats: Seq::empty(),
                translated: Seq::empty(),
                queue: Seq::empty(),
                seq: 0,
                latency: latency_ms,
                loss: 0,
                seed,
                draws: seed,
                offline: Set::empty(),
                events: Seq::empty(),
            }),
    {
        let r = Sim {
            now: 0,
            nodes: Vec::new(),
            addrs: Vec::new(),
            nats: Vec::new(),
            translated: Vec::new(),
            queue: VecDeque::new(),
            seq: 0,
            latency: latency_ms,
            loss: 0,
            seed,
            rng: Rng::new(seed),
            offline: Vec::new(),
            events: Vec::new(),
        };
        assert(r@.offline =~= Set::empty());
        assert(r@.nodes =~= Seq::empty());
        assert(r@.queue =~= Seq::empty());
        assert(r@.events =~= Seq::empty());
        r
    }

    /// Set how many of `2^53` packets are lost.
    pub fn set_loss(&mut self, loss: u64)
        requires
            old(self).wf(),
        ensures
            final(self).wf(),
            final(self)@ == (SimView { loss, ..old(self)@ }),
    {
        self.loss = loss;
    }

    /// Take a node fully offline: packets both to and from it are dropped.
    pub fn disable_node(&mut self, i: usize)
        requires
            old(self).wf(),
        ensures
            final(self).wf(),
            final(self)@ == (SimView { offline: old(self)@.offline.insert(i), ..old(self)@ }),
    {
        self.offline.push(i);
        proof {
            let before = old(self).offline@;
            assert forall|x: usize| before.push(i).to_set().contains(x)
                == before.to_set().insert(i).contains(x) by {
                lemma_push_contains(before, i, x);
            }
            assert(before.push(i).to_set() =~= before.to_set().insert(i));
        }
    }

    fn is_offline(&self, i: usize) -> (r: bool)
        ensures
            r == self@.offline.contains(i),
    {
        let mut k: usize = 0;
        while k < self.offline.len()
            invariant
                k <= self.offline.len(),
                forall|j: int| 0 <= j < k ==> #[trigger] self.offline@[j] != i,
            decreases self.offline.len() - k,
        {
            if self.offline[k] == i {
                assert(self.offline@.contains(i));
                return true;
            }
            k += 1;
        }
        assert(!self.offline@.contains(i));
        false
    }

    /// The network's generator.
    pub fn rng(&mut self) -> (r: &mut Rng)
        requires
            old(self).wf(),
        ensures
            r.state() == old(self)@.draws,
            final(self).wf(),
            final(self)@ == (SimView { draws: final(r).state(), ..old(self)@ }),
    {
        &mut self.rng
    }

    /// The current virtual time.
    pub fn now(&self) -> (r: Millis)
        ensures
            r == self@.now,
    {
        self.now
    }

    /// Add a node with the given id; returns its index and assigned address.
    pub fn add_node(&mut self, id: NodeId) -> (r: (usize, SocketAddr))
        requires
            old(self).wf(),
            old(self)@.nodes.len() < MAX_NODES,
        ensures
            final(self).wf(),
            r.0 == old(self)@.nodes.len(),
            r.1 == address_of(r.0 as int),
            final(self)@ == (SimView {
                nodes: old(self)@.nodes.push(fresh_node(id)),
                addrs: old(self)@.addrs.push(r.1),
                nats: old(self)@.nats.push(NatKind::Open),
                ..old(self)@
            }),
    {
        let index: usize = self.nodes.len();
        let ip: IpAddr = IpAddr::V4([10, 0, 0, 1]);
        let addr: SocketAddr = SocketAddr::new(ip, FIRST_PORT + index as u16);
        let node = Dht::new(id);
        proof {
            lemma_views_push(self.nodes@, node);
        }
        self.nodes.push(node);
        self.addrs.push(addr);
        self.nats.push(NatKind::Open);
        (index, addr)
    }

    /// Set the NAT a node sits behind, and the firewall type it reports with it.
    pub fn set_nat(&mut self, i: usize, kind: NatKind)
        requires
            old(self).wf(),
            i < old(self)@.nodes.len(),
        ensures
            final(self).wf(),
            final(self)@ == (SimView {
                nats: old(self)@.nats.update(i as int, kind),
                nodes: old(self)@.nodes.update(
                    i as int,
                    DhtView { local_firewall: firewall_of(kind), ..old(self)@.nodes[i as int] },
                ),
                ..old(self)@
            }),
    {
        self.nats.set(i, kind);
        let fw: Firewall = match kind {
            NatKind::Open => Firewall::Open,
            NatKind::Consistent => Firewall::Consistent,
            NatKind::Random => Firewall::Random,
        };
        self.nodes[i].set_firewall(fw);
        assert(self@.nodes =~= old(self)@.nodes.update(
            i as int,
            DhtView { local_firewall: firewall_of(kind), ..old(self)@.nodes[i as int] },
        ));
    }

    /// The NAT a node sits behind.
    pub fn nat_kind(&self, i: usize) -> (r: NatKind)
        requires
            self.wf(),
            i < self@.nodes.len(),
        ensures
            r == self@.nats[i as int],
    {
        self.nats[i]
    }

    /// Announce node `i` under `topic`.
    pub fn announce(&mut self, i: usize, topic: NodeId) -> (r: QueryId)
        requires
            old(self).wf(),
            i < old(self)@.nodes.len(),
        ensures
            final(self).wf(),
            r == old(self)@.nodes[i as int].next_qid,
            final(self)@ == with_node(
                old(self)@,
                i as int,
                started(old(self)@.nodes[i as int], topic, QueryKind::Announce, old(self)@.now),
            ),
    {
        let now: u64 = self.now;
        let r: u64 = self.nodes[i].announce(topic, now);
        assert(self@.nodes =~= old(self)@.nodes.update(i as int, self.nodes@[i as int]@));
        r
    }

    /// Look up announcers of `topic` from node `i`.
    pub fn lookup(&mut self, i: usize, topic: NodeId) -> (r: QueryId)
        requires
            old(self).wf(),
            i < old(self)@.nodes.len(),
        ensures
            final(self).wf(),
            r == old(self)@.nodes[i as int].next_qid,
            final(self)@ == with_node(
                old(self)@,
                i as int,
                started(old(self)@.nodes[i as int], topic, QueryKind::Lookup, old(self)@.now),
            ),
    {
        let now: u64 = self.now;
        let r: u64 = self.nodes[i].lookup(topic, now);
        assert(self@.nodes =~= old(self)@.nodes.update(i as int, self.nodes@[i as int]@));
        r
    }

    /// Connect node `i` to `target`. There are no separate data sockets here, so
    /// a node advertises its own address as its data address.
    pub fn connect(&mut self, i: usize, target: NodeId) -> (r: QueryId)
        requires
            old(self).wf(),
            i < old(self)@.nodes.len(),
        ensures
            final(self).wf(),
            r == old(self)@.nodes[i as int].next_qid,
            final(self)@ == with_node(
                old(self)@,
                i as int,
                connect_begun(
                    old(self)@.nodes[i as int],
                    target,
                    seq![old(self)@.addrs[i as int]],
                    old(self)@.now,
                ),
            ),
    {
        let now: u64 = self.now;
        let mut data_addrs: Vec<SocketAddr> = Vec::new();
        data_addrs.push(self.addrs[i]);
        assert(data_addrs@ =~= seq![self.addrs@[i as int]]);
        let r: u64 = self.nodes[i].connect(target, data_addrs, now);
        assert(self@.nodes =~= old(self)@.nodes.update(i as int, self.nodes@[i as int]@));
        r
    }

    /// Have node `i` sample its NAT by probing up to `count` known peers.
    /// Whether it is reachable is supplied from the NAT it sits behind.
    pub fn sample_nat(&mut self, i: usize, count: usize)
        requires
            old(self).wf(),
            i < old(self)@.nodes.len(),
        ensures
            final(self).wf(),
            ({
                let d = old(self)@.nodes[i as int];
                final(self)@ == with_node(
                    old(self)@,
                    i as int,
                    pinged(
                        DhtView {
                            reachable: old(self)@.nats[i as int] == NatKind::Open,
                            ..d
                        },
                        nearest(d.table, d.id, count as nat),
                        old(self)@.now,
                    ),
                )
            }),
    {
        let now: u64 = self.now;
        let reachable: bool = self.nats[i] == NatKind::Open;
        self.nodes[i].note_reachable(reachable);
        self.nodes[i].sample_nat(now, count);
        assert(self@.nodes =~= old(self)@.nodes.update(i as int, self.nodes@[i as int]@));
    }

    /// Address of node `i`.
    pub fn addr(&self, i: usize) -> (r: SocketAddr)
        requires
            self.wf(),
            i < self@.nodes.len(),
        ensures
            r == self@.addrs[i as int],
    {
        self.addrs[i]
    }

    /// Node `i`.
    pub fn dht(&self, i: usize) -> (r: &Dht)
        requires
            self.wf(),
            i < self@.nodes.len(),
        ensures
            r@ == self@.nodes[i as int],
            r.wf(),
    {
        &self.nodes[i]
    }

    /// Node `i`, to be changed.
    pub fn dht_mut(&mut self, i: usize) -> (r: &mut Dht)
        requires
            old(self).wf(),
            i < old(self)@.nodes.len(),
        ensures
            r@ == old(self)@.nodes[i as int],
            r.wf(),
            final(r).wf() ==> final(self).wf(),
            final(self)@ == with_node(old(self)@, i as int, final(r)@),
    {
        let ghost before = self.nodes@;
        proof {
            assert forall|d: Dht| #[trigger]
                views(before.update(i as int, d)) == views(before).update(i as int, d@) by {
                lemma_views_update(before, i as int, d);
            }
        }
        &mut self.nodes[i]
    }

    /// Start a lookup on node `i` at the current time.
    pub fn find_node(&mut self, i: usize, target: NodeId) -> (r: QueryId)
        requires
            old(self).wf(),
            i < old(self)@.nodes.len(),
        ensures
            final(self).wf(),
            r == old(self)@.nodes[i as int].next_qid,
            final(self)@ == with_node(
                old(self)@,
                i as int,
                started(old(self)@.nodes[i as int], target, QueryKind::FindNode, old(self)@.now),
            ),
    {
        let now: u64 = self.now;
        let r: u64 = self.nodes[i].find_node(target, now);
        assert(self@.nodes =~= old(self)@.nodes.update(i as int, self.nodes@[i as int]@));
        r
    }

    /// Start a lookup of its own id on node `i`.
    pub fn bootstrap(&mut self, i: usize) -> (r: QueryId)
        requires
            old(self).wf(),
            i < old(self)@.nodes.len(),
        ensures
            final(self).wf(),
            r == old(self)@.nodes[i as int].next_qid,
            final(self)@ == with_node(
                old(self)@,
                i as int,
                started(
                    old(self)@.nodes[i as int],
                    old(self)@.nodes[i as int].id,
                    QueryKind::FindNode,
                    old(self)@.now,
                ),
            ),
    {
        let now: u64 = self.now;
        let r: u64 = self.nodes[i].bootstrap(now);
        assert(self@.nodes =~= old(self)@.nodes.update(i as int, self.nodes@[i as int]@));
        r
    }

    /// Drain and return all collected events, each with its node's index.
    pub fn take_events(&mut self) -> (r: Vec<(usize, Event)>)
        requires
            old(self).wf(),
        ensures
            final(self).wf(),
            event_views(r@) == old(self)@.events,
            final(self)@ == (SimView { events: Seq::empty(), ..old(self)@ }),
    {
        let mut r: Vec<(usize, Event)> = Vec::new();
        std::mem::swap(&mut self.events, &mut r);
        assert(self@.events =~= Seq::empty());
        r
    }

    fn translated_source(&self, sender: usize, dest: usize) -> (r: SocketAddr)
        requires
            self.wf(),
            sender < self@.nodes.len(),
        ensures
            r == source_of(self@, sender, dest),
    {
        match self.nats[sender] {
            NatKind::Random => {
                let host: IpAddr = self.addrs[sender].ip;
                let mut r = Rng::new(self.seed ^ ((sender as u64) << 32) ^ dest as u64);
                let draw: u64 = r.next_u64() % RANDOM_PORTS as u64;
                SocketAddr::new(host, RANDOM_PORTS + draw as u16)
            },
            _ => self.addrs[sender],
        }
    }

    fn resolve(&self, addr: &SocketAddr) -> (r: Option<usize>)
        requires
            self.wf(),
        ensures
            r == resolved(self@, *addr),
            r is Some ==> r->Some_0 < self@.nodes.len(),
    {
        match find_addr(&self.addrs, addr) {
            Some(i) => Some(i),
            None => match find_source(&self.translated, addr) {
                Some(k) => Some(self.translated[k].1),
                None => None,
            },
        }
    }

    fn post(&mut self, i: usize, t: Transmit)
        requires
            old(self).wf(),
            i < old(self)@.nodes.len(),
        ensures
            final(self).wf(),
            final(self)@ == posted(old(self)@, i, t@),
    {
        if self.is_offline(i) {
            return;
        }
        let to: usize = match self.resolve(&t.to) {
            Some(to) => to,
            None => {
                return;
            },
        };
        if self.is_offline(to) {
            return;
        }
        if self.loss > 0 {
            let draw: u64 = self.rng.next_u64();
            if (draw >> 11) < self.loss {
                return;
            }
        }
        let from: SocketAddr = self.translated_source(i, to);
        if from != self.addrs[i] {
            match find_source(&self.translated, &from) {
                Some(k) => {
                    self.translated.set(k, (from, i));
                },
                None => {
                    self.translated.push((from, i));
                },
            }
        }
        let seq: u64 = self.seq;
        let slot = Slot { time: self.now + self.latency, seq, to, from, data: t.data };
        let ghost before = self.queue@;
        enqueue(&mut self.queue, slot);
        proof {
            assert forall|j: int| 0 <= j < self.queue@.len() implies (#[trigger] self.queue@[j]).to
                < self.nodes@.len() by {
                if self.queue@[j] != slot {
                    let k = before.index_of(self.queue@[j]);
                    assert(before[k] == self.queue@[j]);
                }
            }
        }
        self.seq = seq.wrapping_add(1);
        assert(self@ =~= posted(old(self)@, i, t@));
    }

    fn drain_outbox(&mut self, i: usize)
        requires
            old(self).wf(),
            i < old(self)@.nodes.len(),
        ensures
            final(self).wf(),
            final(self)@ == node_drained(old(self)@, i),
    {
        let ghost s = self@;
        let ghost d = s.nodes[i as int];
        let ghost out = d.outbox;
        let ghost mut k: int = 0;
        proof {
            assert(out.skip(0) =~= out);
            assert(with_node(s, i as int, DhtView { outbox: out.skip(0), ..d }).nodes =~= s.nodes);
        }
        loop
            invariant
                0 <= k <= out.len(),
                self.wf(),
                i < s.nodes.len(),
                self.nodes@.len() == s.nodes.len(),
                d == s.nodes[i as int],
                out == d.outbox,
                self@ == with_node(
                    all_posted(s, i, out.take(k)),
                    i as int,
                    DhtView { outbox: out.skip(k), ..d },
                ),
                all_posted(s, i, out.take(k)).nodes == s.nodes,
            ensures
                self.wf(),
                k == out.len(),
                self@ == with_node(
                    all_posted(s, i, out.take(k)),
                    i as int,
                    DhtView { outbox: out.skip(k), ..d },
                ),
            decreases out.len() - k,
        {
            let ghost e = self@;
            let ghost before = self.nodes@;
            assert(e.nodes[i as int] == self.nodes@[i as int]@);
            match self.nodes[i].poll_transmit() {
                Some(t) => {
                    proof {
                        let node = self.nodes@[i as int];
                        assert(self.nodes@ =~= before.update(i as int, node));
                        lemma_views_update(before, i as int, node);
                        assert(e.nodes.update(i as int, node@) =~= s.nodes.update(
                            i as int,
                            node@,
                        ));
                        assert(out.skip(k).skip(1) =~= out.skip(k + 1));
                        assert(self@ =~= with_node(
                            all_posted(s, i, out.take(k)),
                            i as int,
                            DhtView { outbox: out.skip(k + 1), ..d },
                        ));
                        assert(out.take(k + 1).drop_last() =~= out.take(k));
                        assert(out.take(k + 1).last() == out[k]);
                    }
                    let ghost f = self@;
                    self.post(i, t);
                    proof {
                        assert(self@ =~= with_node(
                            all_posted(s, i, out.take(k + 1)),
                            i as int,
                            DhtView { outbox: out.skip(k + 1), ..d },
                        ));
                        k = k + 1;
                    }
                },
                None => {
                    proof {
                        assert(self@.nodes =~= e.nodes);
                    }
                    break;
                },
            }
        }
        proof {
            assert(out.take(k) =~= out);
            assert(out.skip(k) =~= Seq::<TransmitView>::empty());
            lemma_all_posted(s, i, out);
            assert(self@ =~= node_drained(s, i));
        }
    }

    fn drain_outboxes(&mut self)
        requires
            old(self).wf(),
        ensures
            final(self).wf(),
            final(self)@ == drained(old(self)@, old(self)@.nodes.len()),
            final(self)@.nodes.len() == old(self)@.nodes.len(),
            final(self)@.latency == old(self)@.latency,
            final(self)@.now == old(self)@.now,
    {
        let ghost s = self@;
        let mut i: usize = 0;
        while i < self.nodes.len()
            invariant
                self.wf(),
                i <= self@.nodes.len(),
                self@.nodes.len() == s.nodes.len(),
                self@.latency == s.latency,
                self@.now == s.now,
                self@ == drained(s, i as nat),
            decreases self.nodes.len() - i,
        {
            proof {
                lemma_all_posted(self@, i, self@.nodes[i as int].outbox);
            }
            self.drain_outbox(i);
            i += 1;
        }
    }

    fn collect_node(&mut self, i: usize)
        requires
            old(self).wf(),
            i < old(self)@.nodes.len(),
        ensures
            final(self).wf(),
            final(self)@ == node_collected(old(self)@, i),
    {
        let ghost s = self@;
        let ghost d = s.nodes[i as int];
        let ghost ev = d.events;
        let ghost addr = s.addrs[i as int];
        let ghost mut k: int = 0;
        proof {
            assert(ev.skip(0) =~= ev);
            assert(labelled(i, ev.take(0)) =~= Seq::empty());
            assert(s.events + labelled(i, ev.take(0)) =~= s.events);
            assert(DhtView { events: ev.skip(0), ..all_reacted(d, ev.take(0), addr, s.now) } =~= d);
            assert(s.nodes.update(i as int, d) =~= s.nodes);
        }
        loop
            invariant
                0 <= k <= ev.len(),
                self.wf(),
                i < s.nodes.len(),
                self.nodes@.len() == s.nodes.len(),
                d == s.nodes[i as int],
                ev == d.events,
                addr == s.addrs[i as int],
                self@ == (SimView {
                    nodes: s.nodes.update(
                        i as int,
                        DhtView {
                            events: ev.skip(k),
                            ..all_reacted(d, ev.take(k), addr, s.now)
                        },
                    ),
                    events: s.events + labelled(i, ev.take(k)),
                    ..s
                }),
            ensures
                self.wf(),
                k == ev.len(),
                self@ == (SimView {
                    nodes: s.nodes.update(
                        i as int,
                        DhtView {
                            events: ev.skip(k),
                            ..all_reacted(d, ev.take(k), addr, s.now)
                        },
                    ),
                    events: s.events + labelled(i, ev.take(k)),
                    ..s
                }),
            decreases ev.len() - k,
        {
            let ghost e = self@;
            let ghost before = self.nodes@;
            let ghost was = self.events@;
            assert(e.nodes[i as int] == before[i as int]@);
            match self.nodes[i].poll_event() {
                Some(event) => {
                    let ghost r = all_reacted(d, ev.take(k), addr, s.now);
                    proof {
                        assert(ev.skip(k).skip(1) =~= ev.skip(k + 1));
                        assert(self.nodes@[i as int]@ =~= (DhtView { events: ev.skip(k + 1), ..r }));
                        assert(ev.take(k + 1).drop_last() =~= ev.take(k));
                        assert(ev.take(k + 1).last() == ev[k]);
                        assert(event@ == ev[k]);
                    }
                    let now: u64 = self.now;
                    match &event {
                        Event::IncomingConnect { initiator, .. } => {
                            let initiator: NodeId = *initiator;
                            let mut data_addrs: Vec<SocketAddr> = Vec::new();
                            data_addrs.push(self.addrs[i]);
                            assert(data_addrs@ =~= seq![addr]);
                            self.nodes[i].accept_connect(initiator, data_addrs, now);
                            proof {
                                lemma_accepted_events(r, initiator, seq![addr], now, ev.skip(k + 1));
                            }
                        },
                        _ => {},
                    }
                    self.events.push((i, event));
                    proof {
                        assert(self.nodes@[i as int]@ == (DhtView {
                            events: ev.skip(k + 1),
                            ..all_reacted(d, ev.take(k + 1), addr, s.now)
                        }));
                        let node = self.nodes@[i as int];
                        assert(self.nodes@ =~= before.update(i as int, node));
                        lemma_views_update(before, i as int, node);
                        assert(e.nodes.update(i as int, node@) =~= s.nodes.update(
                            i as int,
                            node@,
                        ));
                        assert(event_views(was.push((i, event))) =~= event_views(was).push(
                            (i, event@),
                        ));
                        assert(labelled(i, ev.take(k + 1)) =~= labelled(i, ev.take(k)).push(
                            (i, ev[k]),
                        ));
                        assert(self@.events =~= s.events + labelled(i, ev.take(k + 1)));
                        k = k + 1;
                    }
                },
                None => {
                    proof {
                        assert(self@.nodes =~= e.nodes);
                    }
                    break;
                },
            }
        }
        proof {
            assert(ev.take(k) =~= ev);
            assert(ev.skip(k) =~= Seq::<EventView>::empty());
        }
    }

    fn collect_events(&mut self)
        requires
            old(self).wf(),
        ensures
            final(self).wf(),
            final(self)@ == collected(old(self)@, old(self)@.nodes.len()),
            final(self)@.nodes.len() == old(self)@.nodes.len(),
            final(self)@.latency == old(self)@.latency,
            final(self)@.now == old(self)@.now,
    {
        let ghost s = self@;
        let mut i: usize = 0;
        while i < self.nodes.len()
            invariant
                self.wf(),
                i <= self@.nodes.len(),
                self@.nodes.len() == s.nodes.len(),
                self@.latency == s.latency,
                self@.now == s.now,
                self@ == collected(s, i as nat),
            decreases self.nodes.len() - i,
        {
            self.collect_node(i);
            i += 1;
        }
    }

    fn next_time(&self) -> (r: Option<u64>)
        requires
            self.wf(),
        ensures
            r == next_time(self@),
    {
        let arrival: Option<u64> = if self.queue.len() == 0 {
            None
        } else {
            assert(self@.queue[0] == self.queue@[0]@);
            Some(self.queue[0].time)
        };
        let mut timeout: Option<u64> = None;
        let mut i: usize = 0;
        while i < self.nodes.len()
            invariant
                i <= self.nodes.len(),
                timeout == next_timeout(self@.nodes, i as nat),
            decreases self.nodes.len() - i,
        {
            assert(self@.nodes[i as int] == self.nodes@[i as int]@);
            timeout = soonest(timeout, self.nodes[i].poll_timeout());
            i += 1;
        }
        soonest(arrival, timeout)
    }

    fn tick(&mut self)
        requires
            old(self).wf(),
        ensures
            final(self).wf(),
            final(self)@ == (SimView {
                nodes: all_ticked(old(self)@.nodes, old(self)@.nodes.len(), old(self)@.now),
                ..old(self)@
            }),
            final(self)@.nodes.len() == old(self)@.nodes.len(),
    {
        let ghost s = self@;
        let now: u64 = self.now;
        let mut i: usize = 0;
        while i < self.nodes.len()
            invariant
                self.wf(),
                now == s.now,
                i <= self.nodes.len(),
                self.nodes.len() == s.nodes.len(),
                self@ == (SimView { nodes: all_ticked(s.nodes, i as nat, now), ..s }),
                on_the_clock(self.latency, now),
            decreases self.nodes.len() - i,
        {
            let ghost before = self@;
            assert(before.nodes[i as int] == self.nodes@[i as int]@);
            if let Some(t) = self.nodes[i].poll_timeout() {
                if t <= now {
                    self.nodes[i].handle_timeout(now);
                }
            }
            proof {
                assert(self.nodes@[i as int]@ == ticked(before.nodes[i as int], now));
                assert(self@.nodes =~= before.nodes.update(
                    i as int,
                    ticked(before.nodes[i as int], now),
                ));
            }
            i += 1;
        }
    }

    fn deliver(&mut self)
        requires
            old(self).wf(),
        ensures
            final(self).wf(),
            final(self)@ == delivered(old(self)@),
            final(self)@.nodes.len() == old(self)@.nodes.len(),
            final(self)@.latency == old(self)@.latency,
    {
        let ghost s = self@;
        loop
            invariant
                self.wf(),
                delivered(self@) == delivered(s),
                self@.nodes.len() == s.nodes.len(),
                self@.latency == s.latency,
            ensures
                self.wf(),
                self@ == delivered(s),
                self@.nodes.len() == s.nodes.len(),
                self@.latency == s.latency,
            decreases self.queue@.len(),
        {
            let ghost e = self@;
            let ghost q = self.queue@;
            if self.queue.len() == 0 {
                break;
            }
            assert(e.queue[0] == q[0]@);
            if self.queue[0].time > self.now {
                break;
            }
            if let Some(slot) = self.queue.pop_front() {
                assert(self@.queue =~= e.queue.skip(1));
                assert(self@ =~= (SimView { queue: e.queue.skip(1), ..e }));
                assert forall|j: int| 0 <= j < self.queue@.len() implies (
                #[trigger] self.queue@[j]).to < self.nodes@.len() by {
                    assert(self.queue@[j] == q[j + 1]);
                }
                if !self.is_offline(slot.to) {
                    let now: u64 = self.now;
                    assert(e.nodes[slot.to as int] == self.nodes@[slot.to as int]@);
                    self.nodes[slot.to].handle_input(slot.from, slot.data.as_slice(), now);
                    assert(self@.nodes =~= e.nodes.update(
                        slot.to as int,
                        input(e.nodes[slot.to as int], slot.from, slot.data@, now),
                    ));
                    assert(self@ =~= (SimView {
                        nodes: e.nodes.update(
                            slot.to as int,
                            input(e.nodes[slot.to as int], slot.from, slot.data@, now),
                        ),
                        queue: e.queue.skip(1),
                        ..e
                    }));
                }
            }
        }
    }

    fn settle(&mut self)
        requires
            old(self).wf(),
        ensures
            final(self).wf(),
            final(self)@ == settled(old(self)@),
            final(self)@.latency == old(self)@.latency,
    {
        proof {
            reveal(settled);
        }
        self.collect_events();
        self.drain_outboxes();
    }

    fn advance(&mut self, t: u64)
        requires
            old(self).wf(),
            on_the_clock(old(self)@.latency, t),
        ensures
            final(self).wf(),
            final(self)@ == advanced(old(self)@, t),
            final(self)@.latency == old(self)@.latency,
    {
        proof {
            reveal(advanced);
        }
        self.now = t;
        self.tick();
        self.deliver();
    }

    /// Run until no packets are in flight and no timers are pending, or until
    /// `max_steps` steps have been taken, or the clock runs out. Returns the
    /// number of steps taken.
    pub fn run(&mut self, max_steps: usize) -> (r: usize)
        requires
            old(self).wf(),
        ensures
            final(self).wf(),
            (final(self)@, r as nat) == ran(old(self)@, max_steps as nat, 0),
    {
        let ghost s = self@;
        let mut steps: usize = 0;
        loop
            invariant
                self.wf(),
                steps <= max_steps,
                s == old(self)@,
                ran(self@, max_steps as nat, steps as nat) == ran(s, max_steps as nat, 0),
            decreases max_steps - steps,
        {
            let ghost e = self@;
            self.settle();
            if steps >= max_steps {
                return steps;
            }
            steps += 1;
            let next: u64 = match self.next_time() {
                Some(t) => t,
                None => {
                    return steps;
                },
            };
            if next > u64::MAX - CONNECT_TIMEOUT_MS || self.latency > u64::MAX - CONNECT_TIMEOUT_MS
                - next {
                return steps;
            }
            self.advance(next);
        }
    }

    /// The globally closest node id to `target`, other than that of node
    /// `exclude`, found by looking at every node.
    pub fn brute_force_closest(&self, target: &NodeId, exclude: usize) -> (r: NodeId)
        requires
            self.wf(),
            self@.nodes.len() > 1 || (self@.nodes.len() == 1 && exclude > 0),
        ensures
            exists|j: int|
                0 <= j < self@.nodes.len() && j != exclude && (#[trigger] self@.nodes[j]).id == r,
            forall|j: int|
                0 <= j < self@.nodes.len() && j != exclude ==> dist(r, *target) <= dist(
                    (#[trigger] self@.nodes[j]).id,
                    *target,
                ),
    {
        let mut best: usize = if exclude == 0 {
            1
        } else {
            0
        };
        let mut i: usize = best;
        while i < self.nodes.len()
            invariant
                self.wf(),
                best < self.nodes.len(),
                best != exclude,
                best <= i <= self.nodes.len() || (i == best),
                i >= 1 || exclude != 0,
                forall|j: int|
                    0 <= j < i && j != exclude ==> dist(self@.nodes[best as int].id, *target)
                        <= dist((#[trigger] self@.nodes[j]).id, *target),
            decreases self.nodes.len() - i,
        {
            assert(self@.nodes[i as int] == self.nodes@[i as int]@);
            assert(self@.nodes[best as int] == self.nodes@[best as int]@);
            if i != exclude && closer(&self.nodes[i].id(), &self.nodes[best].id(), target) {
                best = i;
            }
            i += 1;
        }
        assert(self@.nodes[best as int] == self.nodes@[best as int]@);
        self.nodes[best].id()
    }

    /// The contact for node `i`.
    pub fn contact(&self, i: usize) -> (r: Contact)
        requires
            self.wf(),
            i < self@.nodes.len(),
        ensures
            r == (Contact { id: self@.nodes[i as int].id, addr: self@.addrs[i as int] }),
    {
        assert(self@.nodes[i as int] == self.nodes@[i as int]@);
        Contact::new(self.nodes[i].id(), self.addrs[i])
    }
}

/// Putting packets on their way leaves the nodes, the addresses and the clock.
proof fn lemma_all_posted(s: SimView, i: usize, out: Seq<TransmitView>)
    ensures
        ({
            let r = all_posted(s, i, out);
            &&& r.nodes == s.nodes
            &&& r.addrs == s.addrs
            &&& r.nats == s.nats
            &&& r.now == s.now
            &&& r.latency == s.latency
            &&& r.offline == s.offline
            &&& r.events == s.events
        }),
    decreases out.len(),
{
    if out.len() > 0 {
        lemma_all_posted(s, i, out.drop_last());
    }
}

/// Accepting a request does not look at the events.
proof fn lemma_accepted_events(
    d: DhtView,
    initiator: NodeId,
    data_addrs: Seq<SocketAddr>,
    now: u64,
    events: Seq<EventView>,
)
    ensures
        accepted(DhtView { events, ..d }, initiator, data_addrs, now) == (DhtView {
            events,
            ..accepted(d, initiator, data_addrs, now)
        }),
{
    assert(accepted(DhtView { events, ..d }, initiator, data_addrs, now) =~= (DhtView {
        events,
        ..accepted(d, initiator, data_addrs, now)
    }));
}

/// A node that is offline sends nothing.
pub proof fn law_offline_node_is_silent(s: SimView, i: usize, out: Seq<TransmitView>)
    requires
        s.offline.contains(i),
    ensures
        all_posted(s, i, out) == s,
    decreases out.len(),
{
    if out.len() > 0 {
        law_offline_node_is_silent(s, i, out.drop_last());
    }
}

/// A node that is offline is handed nothing, neither what is on its way to it
/// nor what is sent to it.
pub proof fn law_offline_node_is_unreached(s: SimView, i: usize, t: TransmitView, to: usize)
    requires
        to < s.nodes.len(),
        forall|k: int| 0 <= k < s.queue.len() ==> (#[trigger] s.queue[k]).to < s.nodes.len(),
        s.offline.contains(to),
        resolved(s, t.to) == Some(to),
    ensures
        posted(s, i, t) == s,
        delivered(s).nodes[to as int] == s.nodes[to as int],
{
    lemma_unreached(s, to);
}

proof fn lemma_unreached(s: SimView, to: usize)
    requires
        to < s.nodes.len(),
        forall|k: int| 0 <= k < s.queue.len() ==> (#[trigger] s.queue[k]).to < s.nodes.len(),
        s.offline.contains(to),
    ensures
        delivered(s).nodes[to as int] == s.nodes[to as int],
    decreases s.queue.len(),
{
    if s.queue.len() > 0 && s.queue[0].time <= s.now {
        let slot = s.queue[0];
        let rest = SimView { queue: s.queue.skip(1), ..s };
        assert forall|k: int| 0 <= k < rest.queue.len() implies (#[trigger] rest.queue[k]).to
            < s.nodes.len() by {
            assert(rest.queue[k] == s.queue[k + 1]);
        }
        if s.offline.contains(slot.to) {
            lemma_unreached(rest, to);
        } else {
            let next = s.nodes.update(
                slot.to as int,
                input(s.nodes[slot.to as int], slot.from, slot.data, s.now),
            );
            lemma_unreached(SimView { nodes: next, ..rest }, to);
        }
    }
}

/// Packets arrive in the order of time, and of sending among those of one time.
pub open spec fn in_order(q: Seq<SlotView>) -> bool {
    forall|i: int, j: int| 0 <= i < j < q.len() ==> !arrives_before(#[trigger] q[j], #[trigger] q[i])
}

/// Sending a packet keeps those on their way in order.
pub proof fn law_queue_stays_in_order(q: Seq<SlotView>, slot: SlotView)
    requires
        in_order(q),
    ensures
        in_order(queued(q, slot)),
        forall|x: SlotView| #[trigger] queued(q, slot).contains(x) <==> q.contains(x) || x == slot,
    decreases q.len(),
{
    let r = queued(q, slot);
    if q.len() == 0 || !arrives_before(slot, q.last()) {
        assert forall|x: SlotView| #[trigger] r.contains(x) <==> q.contains(x) || x == slot by {
            lemma_push_contains(q, slot, x);
        }
        assert forall|i: int, j: int| 0 <= i < j < r.len() implies !arrives_before(
            #[trigger] r[j],
            #[trigger] r[i],
        ) by {
            assert(r[i] == q[i]);
            assert(q.last() == q[q.len() - 1]);
            if j < q.len() {
                assert(r[j] == q[j]);
            } else if i < q.len() - 1 {
                assert(!arrives_before(q[q.len() - 1], q[i]));
            }
        }
    } else {
        let rest = q.drop_last();
        assert(in_order(rest)) by {
            assert forall|i: int, j: int| 0 <= i < j < rest.len() implies !arrives_before(
                #[trigger] rest[j],
                #[trigger] rest[i],
            ) by {
                assert(rest[i] == q[i] && rest[j] == q[j]);
            }
        }
        law_queue_stays_in_order(rest, slot);
        let p = queued(rest, slot);
        assert(q =~= rest.push(q.last()));
        assert forall|x: SlotView| #[trigger] r.contains(x) <==> q.contains(x) || x == slot by {
            lemma_push_contains(p, q.last(), x);
            lemma_push_contains(rest, q.last(), x);
            assert(p.contains(x) <==> rest.contains(x) || x == slot);
        }
        assert forall|i: int, j: int| 0 <= i < j < r.len() implies !arrives_before(
            #[trigger] r[j],
            #[trigger] r[i],
        ) by {
            assert(r[i] == p[i]);
            if j < p.len() {
                assert(r[j] == p[j]);
            } else {
                assert(p.contains(p[i]));
                if p[i] != slot {
                    let k = rest.index_of(p[i]);
                    assert(q[k] == p[i]);
                    assert(!arrives_before(q[q.len() - 1], q[k]));
                }
            }
        }
    }
}

/// A packet that is not lost arrives after the latency at the node it is addressed to, from
/// the sender's own address unless the sender's translation picks ports at random; nothing
/// else that is on its way is touched.
pub proof fn law_packet_arrives_where_it_is_sent(s: SimView, i: usize, t: TransmitView, to: usize)
    requires
        in_order(s.queue),
        s.now + s.latency <= u64::MAX,
        s.loss == 0,
        to < s.addrs.len(),
        s.addrs[to as int] == t.to,
        forall|j: int| 0 <= j < to ==> s.addrs[j] != t.to,
        !s.offline.contains(i),
        !s.offline.contains(to),
    ensures
        ({
            let after = posted(s, i, t);
            &&& after.nodes == s.nodes
            &&& after.now == s.now
            &&& in_order(after.queue)
            &&& forall|x: SlotView|
                s.queue.contains(x) ==> #[trigger] after.queue.contains(x)
            &&& exists|x: SlotView| #[trigger]
                after.queue.contains(x) && x.time == s.now + s.latency && x.to == to && x.data
                    == t.data && (s.nats[i as int] !is Random ==> x.from == s.addrs[i as int])
                    && x.from.ip == s.addrs[i as int].ip
        }),
{
    lemma_first_at(s.addrs, is_addr(t.to), to as int);
    let slot = SlotView {
        time: (s.now + s.latency) as u64,
        seq: s.seq,
        to,
        from: source_of(s, i, to),
        data: t.data,
    };
    law_queue_stays_in_order(s.queue, slot);
    assert(posted(s, i, t).queue.contains(slot));
}

/// What answers a packet at the address it came from reaches the node that sent it, also
/// where its ports are picked at random, unless that address is another node's own.
pub proof fn law_answer_reaches_the_sender(s: SimView, i: usize, t: TransmitView, to: usize)
    requires
        s.loss == 0,
        resolved(s, t.to) == Some(to),
        !s.offline.contains(i),
        !s.offline.contains(to),
        i < s.addrs.len(),
        forall|j: int, k: int|
            0 <= j < k < s.addrs.len() ==> #[trigger] s.addrs[j] != #[trigger] s.addrs[k],
    ensures
        ({
            let after = posted(s, i, t);
            let from = source_of(s, i, to);
            from == s.addrs[i as int] || !s.addrs.contains(from) ==> resolved(after, from) == Some(
                i,
            )
        }),
{
    let after = posted(s, i, t);
    let from = source_of(s, i, to);
    if from == s.addrs[i as int] {
        lemma_first_at(s.addrs, is_addr(from), i as int);
    } else if !s.addrs.contains(from) {
        assert forall|j: int| 0 <= j < s.addrs.len() implies !is_addr(from)(
            #[trigger] s.addrs[j],
        ) by {
            assert(s.addrs.contains(s.addrs[j]));
        }
        lemma_first_none(s.addrs, is_addr(from));
        lemma_first(s.translated, is_source(from));
        let k = match first(s.translated, is_source(from)) {
            Some(k) => k,
            None => s.translated.len() as int,
        };
        assert(after.translated[k] == (from, i));
        assert forall|j: int| 0 <= j < k implies !is_source(from)(
            #[trigger] after.translated[j],
        ) by {
            assert(after.translated[j] == s.translated[j]);
        }
        lemma_first_at(after.translated, is_source(from), k);
    }
}

/// Packets that are due are delivered until none is due; no time passes with it.
pub proof fn law_due_packets_are_delivered(s: SimView)
    requires
        forall|k: int| 0 <= k < s.queue.len() ==> (#[trigger] s.queue[k]).to < s.nodes.len(),
    ensures
        delivered(s).queue.len() > 0 ==> delivered(s).queue[0].time > s.now,
        delivered(s).now == s.now,
        delivered(s).nodes.len() == s.nodes.len(),
    decreases s.queue.len(),
{
    if s.queue.len() > 0 && s.queue[0].time <= s.now {
        let slot = s.queue[0];
        let rest = SimView { queue: s.queue.skip(1), ..s };
        assert forall|k: int| 0 <= k < rest.queue.len() implies (#[trigger] rest.queue[k]).to
            < s.nodes.len() by {
            assert(rest.queue[k] == s.queue[k + 1]);
        }
        if s.offline.contains(slot.to) {
            law_due_packets_are_delivered(rest);
        } else {
            let next = s.nodes.update(
                slot.to as int,
                input(s.nodes[slot.to as int], slot.from, slot.data, s.now),
            );
            law_due_packets_are_delivered(SimView { nodes: next, ..rest });
        }
    }
}

/// A packet that is due is handed to the node it is for, with the address it came from,
/// before any that is behind it; the other nodes do not see it.
pub proof fn law_packet_is_handed_to_its_node(s: SimView)
    requires
        s.queue.len() > 0,
        s.queue[0].time <= s.now,
        s.queue[0].to < s.nodes.len(),
        !s.offline.contains(s.queue[0].to),
    ensures
        exists|next: SimView|
            {
                let to = s.queue[0].to as int;
                &&& next.queue == s.queue.skip(1)
                &&& next.nodes.len() == s.nodes.len()
                &&& next.nodes[to] == input(
                    s.nodes[to],
                    s.queue[0].from,
                    s.queue[0].data,
                    s.now,
                )
                &&& forall|j: int|
                    0 <= j < s.nodes.len() && j != to ==> next.nodes[j] == s.nodes[j]
                &&& delivered(s) == #[trigger] delivered(next)
            },
{
    let slot = s.queue[0];
    let next = SimView {
        nodes: s.nodes.update(
            slot.to as int,
            input(s.nodes[slot.to as int], slot.from, slot.data, s.now),
        ),
        queue: s.queue.skip(1),
        ..s
    };
    assert(delivered(s) == delivered(next));
}

/// The clock goes to the next thing that happens: a packet arrives or a node's timer is
/// due then, and nothing happens before; where nothing will happen, it stands still.
pub proof fn law_nothing_happens_before_the_next_time(s: SimView, k: int, i: int)
    requires
        in_order(s.queue),
    ensures
        next_time(s) matches Some(t) ==> {
            &&& 0 <= k < s.queue.len() ==> t <= s.queue[k].time
            &&& 0 <= i < s.nodes.len() && next_timer(s.nodes[i]) is Some ==> t <= next_timer(
                s.nodes[i],
            )->Some_0
            &&& (s.queue.len() > 0 && s.queue[0].time == t) || exists|j: int|
                0 <= j < s.nodes.len() && next_timer(#[trigger] s.nodes[j]) == Some(t)
        },
        next_time(s) is None ==> s.queue.len() == 0 && (0 <= i < s.nodes.len() ==> next_timer(
            s.nodes[i],
        ) is None),
{
    lemma_next_timeout(s.nodes, s.nodes.len(), i);
    if 0 < k < s.queue.len() {
        assert(!arrives_before(s.queue[k], s.queue[0]));
    }
}

proof fn lemma_next_timeout(nodes: Seq<DhtView>, n: nat, i: int)
    requires
        n <= nodes.len(),
    ensures
        next_timeout(nodes, n) matches Some(t) ==> {
            &&& 0 <= i < n && next_timer(nodes[i]) is Some ==> t <= next_timer(nodes[i])->Some_0
            &&& exists|j: int| 0 <= j < n && next_timer(#[trigger] nodes[j]) == Some(t)
        },
        next_timeout(nodes, n) is None ==> (0 <= i < n ==> next_timer(nodes[i]) is None),
    decreases n,
{
    if n > 0 {
        lemma_next_timeout(nodes, (n - 1) as nat, i);
        if next_timer(nodes[n - 1]) is Some {
            assert(next_timer(nodes[n - 1]) == Some(next_timer(nodes[n - 1])->Some_0));
        }
    }
}

/// Every node whose timer is due fires it, and no other node does anything.
pub proof fn law_due_timers_fire(nodes: Seq<DhtView>, n: nat, now: u64, i: int)
    requires
        n <= nodes.len(),
        0 <= i < nodes.len(),
    ensures
        all_ticked(nodes, n, now).len() == nodes.len(),
        all_ticked(nodes, n, now)[i] == (if i < n && next_timer(nodes[i]) is Some && next_timer(
            nodes[i],
        )->Some_0 <= now {
            timers_fired(nodes[i], now)
        } else {
            nodes[i]
        }),
    decreases n,
{
    if n > 0 {
        law_due_timers_fire(nodes, (n - 1) as nat, now, i);
    }
}

/// What nodes have to send is sent and what they report is reported, under their number,
/// before the clock goes on.
pub proof fn law_reports_are_collected(s: SimView, n: nat, i: int, k: int)
    requires
        n <= s.nodes.len(),
        s.nodes.len() <= MAX_NODES,
        0 <= i < n,
    ensures
        collected(s, n).nodes.len() == s.nodes.len(),
        collected(s, n).nodes[i].events.len() == 0,
        0 <= k < s.nodes[i].events.len() ==> collected(s, n).events.contains(
            (i as usize, s.nodes[i].events[k]),
        ),
    decreases n,
{
    let m = (n - 1) as nat;
    lemma_collected(s, m);
    let before = collected(s, m);
    let d = before.nodes[m as int];
    if i < m {
        law_reports_are_collected(s, m, i, k);
        if 0 <= k < s.nodes[i].events.len() {
            let e = (i as usize, s.nodes[i].events[k]);
            let at = before.events.index_of(e);
            assert(collected(s, n).events[at] == e);
        }
    } else if 0 <= k < d.events.len() {
        assert(collected(s, n).events[before.events.len() + k] == (i as usize, d.events[k]));
    }
}

proof fn lemma_collected(s: SimView, n: nat)
    requires
        n <= s.nodes.len(),
        s.nodes.len() <= MAX_NODES,
    ensures
        collected(s, n).nodes.len() == s.nodes.len(),
        forall|j: int| n <= j < s.nodes.len() ==> #[trigger] collected(s, n).nodes[j] == s.nodes[j],
    decreases n,
{
    if n > 0 {
        lemma_collected(s, (n - 1) as nat);
    }
}

/// After sending, nothing is left to send.
pub proof fn law_nothing_is_left_to_send(s: SimView, n: nat, i: int)
    requires
        n <= s.nodes.len(),
        s.nodes.len() <= MAX_NODES,
        0 <= i < n,
    ensures
        drained(s, n).nodes.len() == s.nodes.len(),
        drained(s, n).nodes[i].outbox.len() == 0,
    decreases n,
{
    let m = (n - 1) as nat;
    if i < m {
        law_nothing_is_left_to_send(s, m, i);
    } else {
        lemma_drained(s, m);
    }
}

proof fn lemma_drained(s: SimView, n: nat)
    requires
        n <= s.nodes.len(),
    ensures
        drained(s, n).nodes.len() == s.nodes.len(),
    decreases n,
{
    if n > 0 {
        lemma_drained(s, (n - 1) as nat);
    }
}

/// A network that is run stops after as many steps as it may take, or where nothing more
/// happens.
pub proof fn law_run_is_bounded(s: SimView, max_steps: nat, steps: nat)
    requires
        steps <= max_steps,
    ensures
        steps <= ran(s, max_steps, steps).1 <= max_steps,
    decreases max_steps - steps,
{
    let r = settled(s);
    if steps < max_steps {
        if let Some(t) = next_time(r) {
            if on_the_clock(s.latency, t) {
                law_run_is_bounded(advanced(r, t), max_steps, steps + 1);
            }
        }
    }
}

/// What one node of a network is asked for concerns no other node, and does not move the
/// clock.
pub proof fn law_operation_concerns_one_node(
    looking: &mut Sim,
    announcing: &mut Sim,
    connecting: &mut Sim,
    i: usize,
    topic: NodeId,
    looked: u64,
    announced: u64,
    connected: u64,
    j: int,
)
    requires
        call_ensures(Sim::lookup, (looking, i, topic), looked),
        call_ensures(Sim::announce, (announcing, i, topic), announced),
        call_ensures(Sim::connect, (connecting, i, topic), connected),
        i < old(looking)@.nodes.len(),
        i < old(announcing)@.nodes.len(),
        i < old(connecting)@.nodes.len(),
    ensures
        0 <= j < old(looking)@.nodes.len() && j != i ==> final(looking)@.nodes[j] == old(
            looking,
        )@.nodes[j],
        0 <= j < old(announcing)@.nodes.len() && j != i ==> final(announcing)@.nodes[j] == old(
            announcing,
        )@.nodes[j],
        0 <= j < old(connecting)@.nodes.len() && j != i ==> final(connecting)@.nodes[j] == old(
            connecting,
        )@.nodes[j],
        final(looking)@.nodes[i as int].next_qid == looked.wrapping_add(1),
        final(announcing)@.nodes[i as int].next_qid == announced.wrapping_add(1),
        final(looking)@.now == old(looking)@.now,
        final(announcing)@.now == old(announcing)@.now,
        final(connecting)@.now == old(connecting)@.now,
        final(looking)@.queue == old(looking)@.queue,
        final(announcing)@.queue == old(announcing)@.queue,
{
    lemma_started_frame(old(looking)@.nodes[i as int], topic, QueryKind::Lookup, old(looking)@.now);
    lemma_started_frame(
        old(announcing)@.nodes[i as int],
        topic,
        QueryKind::Announce,
        old(announcing)@.now,
    );
}

proof fn lemma_started_frame(d: DhtView, target: NodeId, kind: QueryKind, now: u64)
    ensures
        started(d, target, kind, now).next_qid == d.next_qid.wrapping_add(1),
{
    let q = QueryView {
        qid: d.next_qid,
        target,
        kind,
        contacts: all_added(
            Seq::empty(),
            nearest(d.table, target, K as nat),
            target,
            None,
        ),
        coordinators: Seq::empty(),
        peers: Seq::empty(),
    };
    let e = DhtView {
        queries: d.queries.push(q),
        next_qid: d.next_qid.wrapping_add(1),
        ..d
    };
    if let Some(k) = first(e.queries, with_qid(d.next_qid)) {
        let p = e.queries[k];
        let flying = in_flight(p.contacts);
        let (contacts, out) = launched(p.contacts, 0, flying);
        lemma_requested(
            DhtView {
                queries: e.queries.update(k, QueryView { contacts, ..p }),
                ..e
            },
            d.next_qid,
            p.target,
            now,
            out,
        );
        lemma_registered(
            DhtView { queries: e.queries.remove(k), ..e },
            p.target,
            answered(contacts, near(contacts)),
        );
    }
}

} // verus!
