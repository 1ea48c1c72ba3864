//! A packet-level NAT model: mapping and filtering for one endpoint.
//!
//! A [`NatBox`] sits in front of one host's sockets. *Mapping* decides the
//! external port of an outbound flow: one stable port per socket for
//! `Open`/`Consistent`, a fresh one per destination for `Random`. *Filtering*
//! decides which inbound packets are admitted: `Open` admits anything, the
//! others only what comes from an exact address already sent to.
use crate::addr::{IpAddr, SocketAddr};
use crate::firewall::Firewall;
use std::collections::HashMap;
use vstd::prelude::*;

verus! {

broadcast use vstd::std_specs::hash::group_hash_axioms;

/// Handle for a local socket behind a [`NatBox`].
pub type SocketId = u64;

/// Models the NAT in front of one host.
pub struct NatBox {
    kind: Firewall,
    host: IpAddr,
    port_min: u16,
    port_max: u16,
    next_port: u16,
    next_socket: SocketId,
    /// Stable external port per socket.
    socket_port: HashMap<u64, u16>,
    /// External port per socket and destination.
    dest_port: HashMap<u64, Vec<(SocketAddr, u16)>>,
    /// Which socket owns each allocated external port.
    port_owner: HashMap<u16, u64>,
    /// The hosts each external port accepts, by the sender's port.
    port_allow: HashMap<u32, Vec<IpAddr>>,
}

/// A [`NatBox`] as a mathematical value.
#[verifier::ext_equal]
pub struct NatView {
    /// The kind of NAT.
    pub kind: Firewall,
    /// The public host it presents.
    pub host: IpAddr,
    /// The lowest external port.
    pub port_min: u16,
    /// The highest external port.
    pub port_max: u16,
    /// The external port tried next.
    pub next_port: u16,
    /// The handle given out next.
    pub next_socket: u64,
    /// The stable external port of each socket.
    pub socket_port: Map<u64, u16>,
    /// The external port of each socket towards each destination.
    pub dest_port: Map<(u64, SocketAddr), u16>,
    /// The socket that owns each external port.
    pub owner: Map<u16, u64>,
    /// The sources each external port accepts.
    pub allow: Set<(u16, SocketAddr)>,
}

/// The port after `p`, back to the first after the last.
pub open spec fn port_after(min: u16, max: u16, p: u16) -> u16 {
    if p >= max {
        min
    } else {
        (p + 1) as u16
    }
}

/// The first free port among `n` from `p` on, or the one after them.
pub open spec fn free_from(owner: Map<u16, u64>, min: u16, max: u16, p: u16, n: nat) -> u16
    decreases n,
{
    if n == 0 || !owner.dom().contains(p) {
        p
    } else {
        free_from(owner, min, max, port_after(min, max, p), (n - 1) as nat)
    }
}

/// How many external ports there are.
pub open spec fn span(v: NatView) -> nat {
    (v.port_max - v.port_min + 1) as nat
}

/// Whether some external port is free.
pub open spec fn has_free_port(v: NatView) -> bool {
    exists|p: u16| v.port_min <= p <= v.port_max && !#[trigger] v.owner.dom().contains(p)
}

/// The port the next allocation gives.
pub open spec fn next_free(v: NatView) -> u16 {
    free_from(v.owner, v.port_min, v.port_max, v.next_port, span(v))
}

/// The external port a flow already has.
pub open spec fn mapped(v: NatView, socket: u64, dest: SocketAddr) -> Option<u16> {
    match v.kind {
        Firewall::Open | Firewall::Consistent => if v.socket_port.dom().contains(socket) {
            Some(v.socket_port[socket])
        } else {
            None
        },
        Firewall::Random => if v.dest_port.dom().contains((socket, dest)) {
            Some(v.dest_port[(socket, dest)])
        } else {
            None
        },
    }
}

/// The external port a flow is sent from.
pub open spec fn sent_from(v: NatView, socket: u64, dest: SocketAddr) -> u16 {
    match mapped(v, socket, dest) {
        Some(p) => p,
        None => next_free(v),
    }
}

/// What sending does to the NAT: a new flow takes the next free port, the port
/// belongs to the socket, and a filtering NAT admits the destination there.
pub open spec fn after_send(v: NatView, socket: u64, dest: SocketAddr) -> NatView {
    let p = sent_from(v, socket, dest);
    let fresh = mapped(v, socket, dest) is None;
    NatView {
        next_port: if fresh {
            port_after(v.port_min, v.port_max, p)
        } else {
            v.next_port
        },
        socket_port: if fresh && v.kind != Firewall::Random {
            v.socket_port.insert(socket, p)
        } else {
            v.socket_port
        },
        dest_port: if fresh && v.kind == Firewall::Random {
            v.dest_port.insert((socket, dest), p)
        } else {
            v.dest_port
        },
        owner: v.owner.insert(p, socket),
        allow: if v.kind != Firewall::Open {
            v.allow.insert((p, dest))
        } else {
            v.allow
        },
        ..v
    }
}

/// The socket an inbound packet reaches.
pub open spec fn delivered(v: NatView, port: u16, from: SocketAddr) -> Option<u64> {
    if v.owner.dom().contains(port) && (v.kind == Firewall::Open || v.allow.contains((port, from))) {
        Some(v.owner[port])
    } else {
        None
    }
}

/// The key a source's port is filed under.
pub open spec fn allow_key(port: u16, from: u16) -> u32 {
    (port * 65_536 + from) as u32
}

spec fn has_dest(list: Seq<(SocketAddr, u16)>, dest: SocketAddr) -> bool {
    exists|i: int| 0 <= i < list.len() && #[trigger] list[i].0 == dest
}

spec fn dest_at(list: Seq<(SocketAddr, u16)>, dest: SocketAddr) -> u16 {
    list[choose|i: int| 0 <= i < list.len() && #[trigger] list[i].0 == dest].1
}

spec fn dests_distinct(list: Seq<(SocketAddr, u16)>) -> bool {
    forall|i: int, j: int|
        0 <= i < j < list.len() ==> #[trigger] list[i].0 != #[trigger] list[j].0
}

impl View for NatBox {
    type V = NatView;

    closed spec fn view(&self) -> NatView {
        NatView {
            kind: self.kind,
            host: self.host,
            port_min: self.port_min,
            port_max: self.port_max,
            next_port: self.next_port,
            next_socket: self.next_socket,
            socket_port: self.socket_port@,
            dest_port: self.dest_map(),
            owner: self.port_owner@,
            allow: self.allow_set(),
        }
    }
}

impl NatBox {
    spec fn dest_map(&self) -> Map<(u64, SocketAddr), u16> {
        Map::new(
            |k: (u64, SocketAddr)|
                self.dest_port@.dom().contains(k.0) && has_dest(self.dest_port@[k.0]@, k.1),
            |k: (u64, SocketAddr)| dest_at(self.dest_port@[k.0]@, k.1),
        )
    }

    spec fn allow_set(&self) -> Set<(u16, SocketAddr)> {
        Set::new(
            |a: (u16, SocketAddr)|
                {
                    let k = allow_key(a.0, a.1.port);
                    self.port_allow@.dom().contains(k) && self.port_allow@[k]@.contains(a.1.ip)
                },
        )
    }

    /// The port range is not empty, the next port lies in it, and every
    /// destination has one port.
    pub closed spec fn wf(&self) -> bool {
        &&& self.port_min <= self.next_port <= self.port_max
        &&& forall|s: u64| #[trigger] self.dest_port@.dom().contains(s) ==> dests_distinct(
            self.dest_port@[s]@,
        )
    }

    /// Create a NAT of the given kind fronting `host`, allocating external ports
    /// across the standard punch range.
    pub fn new(kind: Firewall, host: IpAddr) -> (r: Self)
        ensures
            r.wf(),
            r@ == fresh_nat(kind, host, 1024, 65535),
    {
        Self::with_range(kind, host, 1024, 65535)
    }

    /// Create a NAT with an explicit external-port range.
    pub fn with_range(kind: Firewall, host: IpAddr, port_min: u16, port_max: u16) -> (r: Self)
        requires
            port_min <= port_max,
        ensures
            r.wf(),
            r@ == fresh_nat(kind, host, port_min, port_max),
    {
        let r = NatBox {
            kind,
            host,
            port_min,
            port_max,
            next_port: port_min,
            next_socket: 0,
            socket_port: HashMap::new(),
            dest_port: HashMap::new(),
            port_owner: HashMap::new(),
            port_allow: HashMap::new(),
        };
        assert(r.dest_map() =~= Map::empty());
        assert(r.allow_set() =~= Set::empty());
        r
    }

    /// The public host this NAT presents.
    pub fn host(&self) -> (r: IpAddr)
        ensures
            r == self@.host,
    {
        self.host
    }

    /// Open a new local socket.
    pub fn open_socket(&mut self) -> (r: SocketId)
        requires
            old(self).wf(),
            old(self)@.next_socket < u64::MAX,
        ensures
            final(self).wf(),
            r == old(self)@.next_socket,
            final(self)@ == (NatView { next_socket: (r + 1) as u64, ..old(self)@ }),
    {
        let id: u64 = self.next_socket;
        self.next_socket += 1;
        assert(self.dest_map() =~= old(self).dest_map());
        assert(self.allow_set() =~= old(self).allow_set());
        id
    }

    fn alloc_port(&mut self) -> (r: u16)
        requires
            old(self).wf(),
            has_free_port(old(self)@),
        ensures
            final(self).wf(),
            r == next_free(old(self)@),
            final(self)@ == (NatView {
                next_port: port_after(old(self)@.port_min, old(self)@.port_max, r),
                ..old(self)@
            }),
            final(self).dest_port == old(self).dest_port,
            final(self).port_allow == old(self).port_allow,
    {
        let ghost v = self@;
        let total: u32 = self.port_max as u32 - self.port_min as u32 + 1;
        let mut tried: u32 = 0;
        while tried < total
            invariant
                tried <= total,
                total == span(v),
                v == old(self)@,
                old(self).wf(),
                has_free_port(v),
                self.port_min == v.port_min,
                self.port_max == v.port_max,
                self.port_min <= self.next_port <= self.port_max,
                self.kind == old(self).kind,
                self.host == old(self).host,
                self.next_socket == old(self).next_socket,
                self.socket_port == old(self).socket_port,
                self.dest_port == old(self).dest_port,
                self.port_owner == old(self).port_owner,
                self.port_allow == old(self).port_allow,
                free_from(v.owner, v.port_min, v.port_max, self.next_port, (total - tried) as nat)
                    == next_free(v),
            decreases total - tried,
        {
            let p: u16 = self.next_port;
            self.next_port = if p >= self.port_max {
                self.port_min
            } else {
                p + 1
            };
            if !self.port_owner.contains_key(&p) {
                assert(self.dest_map() =~= old(self).dest_map());
                assert(self.allow_set() =~= old(self).allow_set());
                return p;
            }
            tried += 1;
        }
        proof {
            lemma_next_free(v);
            assert(self.next_port == next_free(v));
        }
        let p: u16 = self.next_port;
        self.next_port = if p >= self.port_max {
            self.port_min
        } else {
            p + 1
        };
        assert(self.dest_map() =~= old(self).dest_map());
        assert(self.allow_set() =~= old(self).allow_set());
        p
    }

    fn known_port(&self, socket: u64, dest: &SocketAddr) -> (r: Option<u16>)
        requires
            self.wf(),
        ensures
            r == mapped(self@, socket, *dest),
    {
        match self.kind {
            Firewall::Open | Firewall::Consistent => match self.socket_port.get(&socket) {
                Some(p) => Some(*p),
                None => None,
            },
            Firewall::Random => match self.dest_port.get(&socket) {
                Some(list) => {
                    let mut i: usize = 0;
                    while i < list.len()
                        invariant
                            i <= list.len(),
                            forall|j: int| 0 <= j < i ==> #[trigger] list@[j].0 != *dest,
                            self.wf(),
                            self.kind == Firewall::Random,
                            self.dest_port@.dom().contains(socket),
                            self.dest_port@[socket] == *list,
                        decreases list.len() - i,
                    {
                        if list[i].0 == *dest {
                            assert(list@[i as int].0 == *dest);
                            assert(has_dest(list@, *dest));
                            assert(dest_at(list@, *dest) == list@[i as int].1);
                            return Some(list[i].1);
                        }
                        i += 1;
                    }
                    None
                },
                None => None,
            },
        }
    }

    fn allow_from(&mut self, port: u16, dest: SocketAddr)
        requires
            old(self).wf(),
        ensures
            final(self).wf(),
            final(self)@ == (NatView {
                allow: old(self)@.allow.insert((port, dest)),
                ..old(self)@
            }),
    {
        let key: u32 = port as u32 * 65_536 + dest.port as u32;
        assert(key == allow_key(port, dest.port));
        let mut list: Vec<IpAddr> = match self.port_allow.remove(&key) {
            Some(list) => list,
            None => Vec::new(),
        };
        let ghost kept = list@;
        list.push(dest.ip);
        self.port_allow.insert(key, list);
        proof {
            assert(self.dest_map() =~= old(self).dest_map());
            let want = old(self).allow_set().insert((port, dest));
            assert forall|a: (u16, SocketAddr)| self.allow_set().contains(a) <==> want.contains(a) by {
                let k = allow_key(a.0, a.1.port);
                if k == key {
                    assert(a.0 == port && a.1.port == dest.port);
                    assert(kept.push(dest.ip).contains(a.1.ip) <==> kept.contains(a.1.ip) || a.1.ip
                        == dest.ip) by {
                        if kept.contains(a.1.ip) {
                            let i = kept.index_of(a.1.ip);
                            assert(kept.push(dest.ip)[i] == a.1.ip);
                        }
                        assert(kept.push(dest.ip)[kept.len() as int] == dest.ip);
                    }
                }
            }
            assert(self.allow_set() =~= want);
        }
    }

    fn map_dest(&mut self, socket: u64, dest: SocketAddr, port: u16)
        requires
            old(self).wf(),
            !old(self)@.dest_port.dom().contains((socket, dest)),
        ensures
            final(self).wf(),
            final(self)@ == (NatView {
                dest_port: old(self)@.dest_port.insert((socket, dest), port),
                ..old(self)@
            }),
    {
        let mut list: Vec<(SocketAddr, u16)> = match self.dest_port.remove(&socket) {
            Some(list) => list,
            None => Vec::new(),
        };
        let ghost kept = list@;
        assert(!has_dest(kept, dest));
        list.push((dest, port));
        self.dest_port.insert(socket, list);
        proof {
            let grown = kept.push((dest, port));
            assert(dests_distinct(grown)) by {
                assert forall|i: int, j: int| 0 <= i < j < grown.len() implies #[trigger] grown[i].0
                    != #[trigger] grown[j].0 by {
                    assert(kept[i].0 == grown[i].0);
                    if j < kept.len() {
                        assert(kept[j].0 == grown[j].0);
                    }
                }
            }
            let want = old(self).dest_map().insert((socket, dest), port);
            assert forall|k: (u64, SocketAddr)|
                self.dest_map().dom().contains(k) <==> want.dom().contains(k) by {
                if k.0 == socket {
                    lemma_dest_push(kept, dest, port, k.1);
                }
            }
            assert forall|k: (u64, SocketAddr)| self.dest_map().dom().contains(k) implies self.dest_map()[k]
                == want[k] by {
                if k.0 == socket {
                    lemma_dest_push(kept, dest, port, k.1);
                }
            }
            assert(self.dest_map() =~= want);
            assert(self.allow_set() =~= old(self).allow_set());
        }
    }

    /// Send from `socket` to `dest`; returns the external source address the
    /// destination observes, and records the mapping and (for filtering NATs) an
    /// allowance for return traffic from `dest`.
    pub fn send(&mut self, socket: SocketId, dest: SocketAddr) -> (r: SocketAddr)
        requires
            old(self).wf(),
            mapped(old(self)@, socket, dest) is None ==> has_free_port(old(self)@),
        ensures
            final(self).wf(),
            r == (SocketAddr { ip: old(self)@.host, port: sent_from(old(self)@, socket, dest) }),
            final(self)@ == after_send(old(self)@, socket, dest),
    {
        let ghost v = self@;
        let port: u16 = match self.known_port(socket, &dest) {
            Some(p) => p,
            None => {
                let p: u16 = self.alloc_port();
                match self.kind {
                    Firewall::Random => {
                        self.map_dest(socket, dest, p);
                    },
                    _ => {
                        self.socket_port.insert(socket, p);
                        assert(self.dest_map() =~= old(self).dest_map());
                        assert(self.allow_set() =~= old(self).allow_set());
                    },
                }
                p
            },
        };
        let ghost before = *self;
        self.port_owner.insert(port, socket);
        assert(self.dest_map() =~= before.dest_map());
        assert(self.allow_set() =~= before.allow_set());
        if self.kind != Firewall::Open {
            self.allow_from(port, dest);
        }
        assert(self@ =~= after_send(v, socket, dest));
        SocketAddr { ip: self.host, port }
    }

    /// Deliver an inbound packet addressed to external `port` from `from`.
    /// Returns the receiving socket, or `None` if no mapping exists or the
    /// filter rejects the source.
    pub fn recv(&self, port: u16, from: SocketAddr) -> (r: Option<SocketId>)
        requires
            self.wf(),
        ensures
            r == delivered(self@, port, from),
    {
        let owner: u64 = match self.port_owner.get(&port) {
            Some(owner) => *owner,
            None => {
                return None;
            },
        };
        if self.kind == Firewall::Open {
            return Some(owner);
        }
        let key: u32 = port as u32 * 65_536 + from.port as u32;
        assert(key == allow_key(port, from.port));
        match self.port_allow.get(&key) {
            Some(list) => {
                let mut i: usize = 0;
                while i < list.len()
                    invariant
                        i <= list.len(),
                        forall|j: int| 0 <= j < i ==> list@[j] != from.ip,
                        self.kind != Firewall::Open,
                        self.port_owner@.dom().contains(port),
                        self.port_owner@[port] == owner,
                        key == allow_key(port, from.port),
                        self.port_allow@.dom().contains(key),
                        self.port_allow@[key] == *list,
                    decreases list.len() - i,
                {
                    if list[i] == from.ip {
                        assert(list@[i as int] == from.ip);
                        return Some(owner);
                    }
                    i += 1;
                }
                None
            },
            None => None,
        }
    }
}

/// A NAT that has mapped nothing yet.
pub open spec fn fresh_nat(kind: Firewall, host: IpAddr, port_min: u16, port_max: u16) -> NatView {
    NatView {
        kind,
        host,
        port_min,
        port_max,
        next_port: port_min,
        next_socket: 0,
        socket_port: Map::empty(),
        dest_port: Map::empty(),
        owner: Map::empty(),
        allow: Set::empty(),
    }
}

proof fn lemma_dest_push(list: Seq<(SocketAddr, u16)>, dest: SocketAddr, port: u16, x: SocketAddr)
    requires
        dests_distinct(list.push((dest, port))),
    ensures
        has_dest(list.push((dest, port)), x) <==> x == dest || has_dest(list, x),
        dest_at(list.push((dest, port)), dest) == port,
        x != dest && has_dest(list, x) ==> dest_at(list.push((dest, port)), x) == dest_at(list, x),
{
    let grown = list.push((dest, port));
    assert(grown[list.len() as int].0 == dest);
    if has_dest(list, x) {
        let i = choose|i: int| 0 <= i < list.len() && #[trigger] list[i].0 == x;
        assert(grown[i].0 == x);
    }
    if has_dest(grown, x) && x != dest {
        let i = choose|i: int| 0 <= i < grown.len() && #[trigger] grown[i].0 == x;
        assert(list[i].0 == x);
        assert forall|j: int, k: int| 0 <= j < k < list.len() implies #[trigger] list[j].0
            != #[trigger] list[k].0 by {
            assert(grown[j].0 == list[j].0 && grown[k].0 == list[k].0);
        }
        assert(dest_at(list, x) == list[i].1);
        assert(dest_at(grown, x) == grown[i].1);
    }
}

proof fn lemma_scan_finds(owner: Map<u16, u64>, min: u16, max: u16, p: u16, n: nat, free: u16)
    requires
        min <= p <= max,
        min <= free <= max,
        !owner.dom().contains(free),
        (if free >= p {
            free - p
        } else {
            free - p + (max - min + 1)
        }) < n,
    ensures
        !owner.dom().contains(free_from(owner, min, max, p, n)),
        min <= free_from(owner, min, max, p, n) <= max,
    decreases n,
{
    if owner.dom().contains(p) {
        lemma_scan_finds(owner, min, max, port_after(min, max, p), (n - 1) as nat, free);
    }
}

/// Where a port is free, allocation gives a free one of the range.
pub proof fn lemma_next_free(v: NatView)
    requires
        v.port_min <= v.next_port <= v.port_max,
        has_free_port(v),
    ensures
        !v.owner.dom().contains(next_free(v)),
        v.port_min <= next_free(v) <= v.port_max,
{
    let free = choose|p: u16|
        v.port_min <= p <= v.port_max && !#[trigger] v.owner.dom().contains(p);
    lemma_scan_finds(v.owner, v.port_min, v.port_max, v.next_port, span(v), free);
}

/// A reply from the destination reaches the socket that sent to it, over the
/// port it was sent from.
pub proof fn law_reply_is_admitted(v: NatView, socket: u64, dest: SocketAddr)
    ensures
        delivered(after_send(v, socket, dest), sent_from(v, socket, dest), dest) == Some(socket),
{
}

/// Behind a filtering NAT a source that was never sent to is not admitted, and
/// sending to one destination admits no other.
pub proof fn law_unsolicited_is_dropped(
    v: NatView,
    socket: u64,
    dest: SocketAddr,
    port: u16,
    from: SocketAddr,
)
    requires
        v.kind != Firewall::Open,
        from != dest,
        !v.allow.contains((port, from)),
    ensures
        delivered(after_send(v, socket, dest), port, from) is None,
{
}

/// An endpoint-independent NAT sends one socket's packets from one port,
/// whatever the destination.
pub proof fn law_consistent_mapping(v: NatView, socket: u64, one: SocketAddr, other: SocketAddr)
    requires
        v.kind != Firewall::Random,
    ensures
        sent_from(after_send(v, socket, one), socket, other) == sent_from(v, socket, one),
{
}

/// A symmetric NAT gives a second destination another port than the first,
/// while a port is left.
pub proof fn law_random_mapping(v: NatView, socket: u64, one: SocketAddr, other: SocketAddr)
    requires
        v.kind == Firewall::Random,
        v.port_min <= v.next_port <= v.port_max,
        mapped(v, socket, one) is None,
        mapped(v, socket, other) is None,
        one != other,
        has_free_port(v),
        has_free_port(after_send(v, socket, one)),
    ensures
        sent_from(after_send(v, socket, one), socket, other) != sent_from(v, socket, one),
{
    lemma_next_free(v);
    lemma_next_free(after_send(v, socket, one));
}

/// Something that changes a NAT.
pub enum NatCall {
    /// A socket is opened.
    OpenSocket,
    /// A socket sends to a destination.
    Send {
        /// The socket.
        socket: u64,
        /// The destination.
        dest: SocketAddr,
    },
}

/// A NAT after a call.
pub open spec fn after_call(v: NatView, c: NatCall) -> NatView {
    match c {
        NatCall::OpenSocket => NatView { next_socket: (v.next_socket + 1) as u64, ..v },
        NatCall::Send { socket, dest } => after_send(v, socket, dest),
    }
}

/// A NAT after its calls, one after the other.
pub open spec fn after_calls(v: NatView, calls: Seq<NatCall>) -> NatView
    decreases calls.len(),
{
    if calls.len() == 0 {
        v
    } else {
        after_call(after_calls(v, calls.drop_last()), calls.last())
    }
}

/// Whether every new flow of a history finds a free port.
pub open spec fn all_find_ports(v: NatView, calls: Seq<NatCall>) -> bool {
    forall|i: int|
        0 <= i < calls.len() ==> match #[trigger] calls[i] {
            NatCall::Send { socket, dest } => {
                let before = after_calls(v, calls.take(i));
                mapped(before, socket, dest) is None ==> has_free_port(before)
            },
            NatCall::OpenSocket => true,
        }
}

/// Whether a history's call is a send.
pub open spec fn is_send(calls: Seq<NatCall>, i: int) -> bool {
    0 <= i < calls.len() && calls[i] is Send
}

/// The external port that a send of a history went out from.
pub open spec fn port_of(v: NatView, calls: Seq<NatCall>, i: int) -> u16 {
    sent_from(after_calls(v, calls.take(i)), calls[i]->socket, calls[i]->dest)
}

/// Whether a send of a history went out from a port to a destination.
pub open spec fn was_sent_to(v: NatView, calls: Seq<NatCall>, port: u16, dest: SocketAddr) -> bool {
    exists|i: int| #[trigger]
        is_send(calls, i) && port_of(v, calls, i) == port && calls[i]->dest == dest
}

/// Whether flows have their own ports: one that is mapped has a port of the range
/// that its socket owns, and two share a port exactly if they are one flow.
spec fn flows_apart(v: NatView) -> bool {
    &&& v.port_min <= v.next_port <= v.port_max
    &&& forall|s: u64, d: SocketAddr| #[trigger]
        mapped(v, s, d) matches Some(p) ==> {
            &&& v.owner.dom().contains(p) && v.owner[p] == s
            &&& v.port_min <= p <= v.port_max
        }
    &&& forall|s: u64, d: SocketAddr, t: u64, e: SocketAddr|
        (#[trigger] mapped(v, s, d) matches Some(p) && #[trigger] mapped(v, t, e) == Some(p))
            ==> one_flow(v.kind, s, d, t, e)
}

spec fn one_flow(kind: Firewall, s: u64, d: SocketAddr, t: u64, e: SocketAddr) -> bool {
    s == t && (kind == Firewall::Random ==> d == e)
}

proof fn lemma_send_keeps_flows_apart(v: NatView, socket: u64, dest: SocketAddr)
    requires
        flows_apart(v),
        mapped(v, socket, dest) is None ==> has_free_port(v),
    ensures
        flows_apart(after_send(v, socket, dest)),
        mapped(after_send(v, socket, dest), socket, dest) == Some(sent_from(v, socket, dest)),
        forall|s: u64, d: SocketAddr|
            mapped(v, s, d) is Some ==> #[trigger] mapped(after_send(v, socket, dest), s, d)
                == mapped(v, s, d),
{
    let w = after_send(v, socket, dest);
    let p = sent_from(v, socket, dest);
    if mapped(v, socket, dest) is None {
        lemma_next_free(v);
    }
    assert forall|s: u64, d: SocketAddr| #[trigger] mapped(w, s, d) == (if one_flow(
        v.kind,
        s,
        d,
        socket,
        dest,
    ) {
        Some(p)
    } else {
        mapped(v, s, d)
    }) by {}
    assert forall|s: u64, d: SocketAddr| #[trigger] mapped(w, s, d) is Some implies {
        let q = mapped(w, s, d)->Some_0;
        &&& w.owner.dom().contains(q) && w.owner[q] == s
        &&& w.port_min <= q <= w.port_max
    } by {
        assert(mapped(v, s, d) is Some || one_flow(v.kind, s, d, socket, dest));
    }
    assert forall|s: u64, d: SocketAddr, t: u64, e: SocketAddr|
        (#[trigger] mapped(w, s, d) matches Some(q) && #[trigger] mapped(w, t, e) == Some(
            q,
        )) implies one_flow(v.kind, s, d, t, e) by {
        assert(mapped(v, s, d) is Some || one_flow(v.kind, s, d, socket, dest));
        assert(mapped(v, t, e) is Some || one_flow(v.kind, t, e, socket, dest));
    }
}

proof fn lemma_call_keeps_flows_apart(v0: NatView, calls: Seq<NatCall>)
    requires
        flows_apart(v0),
        all_find_ports(v0, calls),
        calls.len() > 0,
        flows_apart(after_calls(v0, calls.drop_last())),
    ensures
        ({
            let v = after_calls(v0, calls.drop_last());
            let w = after_calls(v0, calls);
            &&& flows_apart(w)
            &&& w.kind == v.kind && w.host == v.host && w.port_min == v.port_min && w.port_max
                == v.port_max
            &&& forall|s: u64, d: SocketAddr|
                mapped(v, s, d) is Some ==> #[trigger] mapped(w, s, d) == mapped(v, s, d)
        }),
{
    let v = after_calls(v0, calls.drop_last());
    let w = after_calls(v0, calls);
    let n = calls.len() - 1;
    assert(calls.take(n) =~= calls.drop_last());
    match calls[n] {
        NatCall::OpenSocket => {
            assert forall|s: u64, d: SocketAddr| #[trigger] mapped(w, s, d) == mapped(v, s, d) by {}
        },
        NatCall::Send { socket, dest } => {
            lemma_send_keeps_flows_apart(v, socket, dest);
        },
    }
}

proof fn lemma_ports_found_before(v: NatView, calls: Seq<NatCall>, n: int)
    requires
        all_find_ports(v, calls),
        0 <= n <= calls.len(),
    ensures
        all_find_ports(v, calls.take(n)),
{
    let front = calls.take(n);
    assert forall|i: int| 0 <= i < front.len() implies match #[trigger] front[i] {
        NatCall::Send { socket, dest } => {
            let before = after_calls(v, front.take(i));
            mapped(before, socket, dest) is None ==> has_free_port(before)
        },
        NatCall::OpenSocket => true,
    } by {
        assert(front[i] == calls[i]);
        assert(front.take(i) =~= calls.take(i));
    }
}

proof fn lemma_flows_stay_apart(v0: NatView, calls: Seq<NatCall>)
    requires
        flows_apart(v0),
        all_find_ports(v0, calls),
    ensures
        ({
            let v = after_calls(v0, calls);
            &&& flows_apart(v)
            &&& v.kind == v0.kind && v.host == v0.host && v.port_min == v0.port_min && v.port_max
                == v0.port_max
        }),
    decreases calls.len(),
{
    if calls.len() > 0 {
        let n = calls.len() - 1;
        assert(calls.take(n) =~= calls.drop_last());
        lemma_ports_found_before(v0, calls, n);
        lemma_flows_stay_apart(v0, calls.drop_last());
        lemma_call_keeps_flows_apart(v0, calls);
    }
}

proof fn lemma_port_is_kept(v0: NatView, calls: Seq<NatCall>, i: int)
    requires
        flows_apart(v0),
        all_find_ports(v0, calls),
        is_send(calls, i),
    ensures
        mapped(after_calls(v0, calls), calls[i]->socket, calls[i]->dest) == Some(
            port_of(v0, calls, i),
        ),
    decreases calls.len(),
{
    let n = calls.len() - 1;
    let old = calls.drop_last();
    assert(calls.take(n) =~= old);
    lemma_ports_found_before(v0, calls, n);
    lemma_flows_stay_apart(v0, old);
    if i < n {
        assert(old.take(i) =~= calls.take(i));
        assert(is_send(old, i));
        lemma_port_is_kept(v0, old, i);
        lemma_call_keeps_flows_apart(v0, calls);
    } else {
        lemma_send_keeps_flows_apart(after_calls(v0, old), calls[n]->socket, calls[n]->dest);
    }
}

/// Whether a send of a history went out from a port.
spec fn was_used(v: NatView, calls: Seq<NatCall>, port: u16) -> bool {
    exists|i: int| #[trigger] is_send(calls, i) && port_of(v, calls, i) == port
}

proof fn lemma_ports_and_sources(v0: NatView, calls: Seq<NatCall>, p: u16, dest: SocketAddr)
    requires
        v0.owner.dom() == Set::<u16>::empty(),
        v0.allow == Set::<(u16, SocketAddr)>::empty(),
    ensures
        after_calls(v0, calls).kind == v0.kind,
        after_calls(v0, calls).owner.dom().contains(p) ==> was_used(v0, calls, p),
        after_calls(v0, calls).allow.contains((p, dest)) <==> v0.kind != Firewall::Open
            && was_sent_to(v0, calls, p, dest),
    decreases calls.len(),
{
    if calls.len() > 0 {
        let n = calls.len() - 1;
        let old = calls.drop_last();
        assert(calls.take(n) =~= old);
        lemma_ports_and_sources(v0, old, p, dest);
        assert forall|i: int| #[trigger] is_send(old, i) implies is_send(calls, i) && port_of(
            v0,
            calls,
            i,
        ) == port_of(v0, old, i) && calls[i] == old[i] by {
            assert(old.take(i) =~= calls.take(i));
        }
        assert forall|i: int| i < n && #[trigger] is_send(calls, i) implies is_send(old, i)
            && port_of(v0, calls, i) == port_of(v0, old, i) && calls[i] == old[i] by {
            assert(old.take(i) =~= calls.take(i));
        }
        assert(is_send(calls, n) == (calls[n] is Send));
        if was_used(v0, old, p) {
            let i = choose|i: int| #[trigger] is_send(old, i) && port_of(v0, old, i) == p;
            assert(is_send(calls, i));
        }
        if was_sent_to(v0, old, p, dest) {
            let i = choose|i: int| #[trigger]
                is_send(old, i) && port_of(v0, old, i) == p && old[i]->dest == dest;
            assert(is_send(calls, i));
        }
        if was_sent_to(v0, calls, p, dest) {
            let i = choose|i: int| #[trigger]
                is_send(calls, i) && port_of(v0, calls, i) == p && calls[i]->dest == dest;
            if i < n {
                assert(is_send(old, i));
            }
        }
    }
}

/// Of any two sends of a NAT's history, however far apart: a socket's packets all
/// leave from one port, and different sockets' from different ones; behind a
/// symmetric NAT that holds of a socket and a destination together. Every send
/// leaves from the NAT's host and from a port of its range.
pub proof fn law_mapping_over_a_history(
    kind: Firewall,
    host: IpAddr,
    port_min: u16,
    port_max: u16,
    calls: Seq<NatCall>,
    i: int,
    j: int,
)
    requires
        port_min <= port_max,
        all_find_ports(fresh_nat(kind, host, port_min, port_max), calls),
        is_send(calls, i),
        is_send(calls, j),
    ensures
        ({
            let v = fresh_nat(kind, host, port_min, port_max);
            let same_socket = calls[i]->socket == calls[j]->socket;
            let same_dest = calls[i]->dest == calls[j]->dest;
            &&& port_min <= port_of(v, calls, i) <= port_max
            &&& after_calls(v, calls.take(i)).host == host
            &&& port_of(v, calls, i) == port_of(v, calls, j) <==> match kind {
                Firewall::Open | Firewall::Consistent => same_socket,
                Firewall::Random => same_socket && same_dest,
            }
        }),
{
    let v = fresh_nat(kind, host, port_min, port_max);
    lemma_flows_stay_apart(v, calls);
    lemma_port_is_kept(v, calls, i);
    lemma_port_is_kept(v, calls, j);
    lemma_ports_found_before(v, calls, i);
    lemma_flows_stay_apart(v, calls.take(i));
    let w = after_calls(v, calls);
    assert(mapped(w, calls[i]->socket, calls[i]->dest) is Some);
    assert(mapped(w, calls[j]->socket, calls[j]->dest) is Some);
}

/// What a NAT admits, over its history: a packet to a port reaches a socket exactly
/// if the socket sent from that port and, unless the NAT is open, something was
/// sent from that port to the packet's source.
pub proof fn law_filtering_over_a_history(
    kind: Firewall,
    host: IpAddr,
    port_min: u16,
    port_max: u16,
    calls: Seq<NatCall>,
    port: u16,
    from: SocketAddr,
    socket: u64,
)
    requires
        port_min <= port_max,
        all_find_ports(fresh_nat(kind, host, port_min, port_max), calls),
    ensures
        ({
            let v = fresh_nat(kind, host, port_min, port_max);
            delivered(after_calls(v, calls), port, from) == Some(socket) <==> {
                &&& exists|i: int| #[trigger]
                    is_send(calls, i) && port_of(v, calls, i) == port && calls[i]->socket == socket
                &&& kind == Firewall::Open || was_sent_to(v, calls, port, from)
            }
        }),
{
    let v = fresh_nat(kind, host, port_min, port_max);
    let w = after_calls(v, calls);
    lemma_flows_stay_apart(v, calls);
    lemma_ports_and_sources(v, calls, port, from);
    assert forall|i: int| #[trigger] is_send(calls, i) implies w.owner.dom().contains(
        port_of(v, calls, i),
    ) && w.owner[port_of(v, calls, i)] == calls[i]->socket by {
        lemma_port_is_kept(v, calls, i);
    }
    if w.owner.dom().contains(port) {
        let i = choose|i: int| #[trigger] is_send(calls, i) && port_of(v, calls, i) == port;
        assert(w.owner[port] == calls[i]->socket);
    }
}

} // verus!
