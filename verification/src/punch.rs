//! Hole-punch strategy selection and the birthday-paradox model.
//!
//! | local \ remote | Open/Consistent | Random |
//! |---|---|---|
//! | **Open/Consistent** | direct | spray random ports |
//! | **Random** | open birthday sockets | relay (give up on direct) |
//!
//! When one side is Random and the other Consistent, direct connection needs a
//! *port collision*: the Random side opens many external ports at once, and the
//! Consistent side sprays guesses across the port space.
use crate::addr::{IpAddr, SocketAddr};
use crate::firewall::Firewall;
use crate::natbox::{
    after_send, delivered, fresh_nat, has_free_port, mapped, next_free, sent_from, span, NatBox,
    NatView,
};
use crate::rng::{law_every_value_is_drawn, lemma_nth_compose, nth_draw, nth_state, Rng};
use std::collections::HashSet;
use vstd::prelude::*;

verus! {

broadcast use vstd::std_specs::hash::group_hash_axioms;

/// Sockets the Random side opens simultaneously.
pub const BIRTHDAY_SOCKETS: usize = 256;

/// Random-port guesses the Consistent side sprays.
pub const SPRAY_PROBES: usize = 1750;

/// Lowest port used for punching.
pub const PORT_MIN: u16 = 1024;

/// Highest port used for punching.
pub const PORT_MAX: u16 = 65535;

/// Tunable punch parameters.
#[derive(Clone, Copy, Debug)]
pub struct PunchParams {
    /// Number of sockets the Random side opens at once.
    pub birthday_sockets: usize,
    /// Number of random-port guesses the Consistent side sends.
    pub spray_probes: usize,
    /// Lowest port in the punch range.
    pub port_min: u16,
    /// Highest port in the punch range.
    pub port_max: u16,
}

impl Default for PunchParams {
    fn default() -> (r: Self)
        ensures
            r == (PunchParams {
                birthday_sockets: BIRTHDAY_SOCKETS,
                spray_probes: SPRAY_PROBES,
                port_min: PORT_MIN,
                port_max: PORT_MAX,
            }),
    {
        PunchParams {
            birthday_sockets: BIRTHDAY_SOCKETS,
            spray_probes: SPRAY_PROBES,
            port_min: PORT_MIN,
            port_max: PORT_MAX,
        }
    }
}

impl PunchParams {
    /// How many ports there are to guess from.
    pub open spec fn space(&self) -> int {
        self.port_max - self.port_min + 1
    }

    /// How many ports there are to guess from.
    pub fn port_space(&self) -> (r: u32)
        requires
            self.port_min <= self.port_max,
        ensures
            r == self.space(),
    {
        (self.port_max as u32) - (self.port_min as u32) + 1
    }

    /// A port of the range, from the next draw.
    pub fn random_port(&self, rng: &mut Rng) -> (r: u16)
        requires
            self.port_min <= self.port_max,
        ensures
            final(rng).state() == nth_state(old(rng).state(), 1),
            r == port_at(old(rng).state(), *self, 0),
            self.port_min <= r <= self.port_max,
    {
        let span: u32 = self.port_space();
        let v: u64 = rng.next_u64();
        self.port_min + (v % span as u64) as u16
    }
}

/// The port the `k`-th draw gives.
pub open spec fn port_at(s: u64, params: PunchParams, k: nat) -> u16 {
    (params.port_min + nth_draw(s, k) as int % params.space()) as u16
}

/// The ports the first `m` draws give.
pub open spec fn ports_drawn(s: u64, params: PunchParams, m: nat) -> Set<u16>
    decreases m,
{
    if m == 0 {
        Set::empty()
    } else {
        ports_drawn(s, params, (m - 1) as nat).insert(port_at(s, params, (m - 1) as nat))
    }
}

/// Whether it takes exactly `m` draws to open as many distinct ports as asked.
pub open spec fn opening_takes(s: u64, params: PunchParams, m: nat) -> bool {
    &&& ports_drawn(s, params, m).len() == params.birthday_sockets
    &&& forall|fewer: nat|
        fewer < m ==> #[trigger] ports_drawn(s, params, fewer).len() < params.birthday_sockets
}

/// Whether, with the ports of the first `m` draws open, the sprayed guesses end
/// in `hit` and leave the generator in state `after`: spraying stops at the
/// first guess that is an open port.
pub open spec fn spray_ends(s: u64, params: PunchParams, m: nat, hit: bool, after: u64) -> bool {
    let open = ports_drawn(s, params, m);
    if hit {
        exists|j: nat|
            {
                &&& j < params.spray_probes
                &&& open.contains(#[trigger] port_at(s, params, m + j))
                &&& forall|i: nat| i < j ==> !open.contains(#[trigger] port_at(s, params, m + i))
                &&& after == nth_state(s, m + j + 1)
            }
    } else {
        &&& forall|i: nat|
            i < params.spray_probes ==> !open.contains(#[trigger] port_at(s, params, m + i))
        &&& after == nth_state(s, m + params.spray_probes as nat)
    }
}

/// The chosen approach for a punch attempt.
#[derive(Clone, Copy, Debug, PartialEq, Eq, Structural)]
pub enum Strategy {
    /// One side is directly reachable (or both ports are predictable): just dial.
    Direct,
    /// We are the Consistent side; spray random ports at the Random peer.
    SprayRandomPorts,
    /// We are the Random side; open many sockets so a sprayed probe collides.
    OpenBirthdaySockets,
    /// Neither side can be reached directly; fall back to a relay.
    Relay,
}

/// The punch strategy for two firewall types.
pub open spec fn planned(local: Firewall, remote: Firewall) -> Strategy {
    if local == Firewall::Open || remote == Firewall::Open {
        Strategy::Direct
    } else if local == Firewall::Consistent && remote == Firewall::Consistent {
        Strategy::Direct
    } else if local == Firewall::Consistent {
        Strategy::SprayRandomPorts
    } else if remote == Firewall::Consistent {
        Strategy::OpenBirthdaySockets
    } else {
        Strategy::Relay
    }
}

/// Select the punch strategy from our and the peer's firewall types.
pub fn plan(local: Firewall, remote: Firewall) -> (r: Strategy)
    ensures
        r == planned(local, remote),
{
    match (local, remote) {
        (_, Firewall::Open) | (Firewall::Open, _) => Strategy::Direct,
        (Firewall::Consistent, Firewall::Consistent) => Strategy::Direct,
        (Firewall::Consistent, Firewall::Random) => Strategy::SprayRandomPorts,
        (Firewall::Random, Firewall::Consistent) => Strategy::OpenBirthdaySockets,
        (Firewall::Random, Firewall::Random) => Strategy::Relay,
    }
}

/// The two sides of a punch always agree: both dial, both give up, or one
/// sprays while the other opens sockets.
pub proof fn law_plans_are_complementary(local: Firewall, remote: Firewall)
    ensures
        planned(local, remote) == Strategy::Direct <==> planned(remote, local) == Strategy::Direct,
        planned(local, remote) == Strategy::Relay <==> planned(remote, local) == Strategy::Relay,
        planned(local, remote) == Strategy::SprayRandomPorts <==> planned(remote, local)
            == Strategy::OpenBirthdaySockets,
{
}

/// The result of a punch attempt.
#[derive(Clone, Copy, Debug, PartialEq, Eq, Structural)]
pub enum Outcome {
    /// A direct connection was established.
    Direct,
    /// A hole was punched via port collision.
    Punched,
    /// Direct connectivity failed; a relay is required.
    Relayed,
}

/// Some draw from here on gives a port that is not open yet, while one of the
/// range is not.
proof fn lemma_fresh_port(s: u64, params: PunchParams, m: nat, open: Set<u16>) -> (left: nat)
    requires
        params.port_min <= params.port_max,
        open.finite(),
        open.len() < params.space(),
        forall|p: u16| open.contains(p) ==> params.port_min <= p <= params.port_max,
    ensures
        !open.contains(port_at(s, params, m + left)),
{
    let p = lemma_unopened(params.port_min, params.port_max, open);
    let y = (p - params.port_min) as u64;
    let here = nth_state(s, m);
    law_every_value_is_drawn(here, y);
    let k = choose|k: nat| nth_draw(here, k) == y;
    lemma_nth_compose(s, m, k + 1);
    assert(nth_draw(s, m + k) == y);
    vstd::arithmetic::div_mod::lemma_small_mod(y as nat, params.space() as nat);
    k
}

proof fn lemma_unopened(min: u16, max: u16, open: Set<u16>) -> (p: u16)
    requires
        min <= max,
        open.finite(),
        open.len() < max - min + 1,
        forall|p: u16| open.contains(p) ==> min <= p <= max,
    ensures
        min <= p <= max,
        !open.contains(p),
    decreases max - min,
{
    if !open.contains(max) {
        max
    } else if min == max {
        assert(open.len() == 0);
        max
    } else {
        lemma_unopened(min, (max - 1) as u16, open.remove(max))
    }
}

proof fn lemma_ports_drawn(s: u64, params: PunchParams, m: nat)
    requires
        params.port_min <= params.port_max,
    ensures
        ports_drawn(s, params, m).finite(),
        forall|p: u16|
            ports_drawn(s, params, m).contains(p) ==> params.port_min <= p <= params.port_max,
    decreases m,
{
    if m > 0 {
        lemma_ports_drawn(s, params, (m - 1) as nat);
        let v = nth_draw(s, (m - 1) as nat) as int;
        assert(0 <= v % params.space() < params.space());
    }
}

/// Model a one-sided-random punch as a port-collision experiment.
///
/// The Random side opens `birthday_sockets` distinct external ports; the
/// Consistent side sprays `spray_probes` independent random ports. Returns true
/// if any sprayed port hits an opened socket.
pub fn simulate_birthday(rng: &mut Rng, params: &PunchParams) -> (r: bool)
    requires
        params.port_min <= params.port_max,
        params.birthday_sockets <= params.space(),
    ensures
        exists|m: nat| #[trigger]
            opening_takes(old(rng).state(), *params, m) && spray_ends(
                old(rng).state(),
                *params,
                m,
                r,
                final(rng).state(),
            ),
{
    let ghost s = rng.state();
    let mut opened: HashSet<u16> = HashSet::with_capacity(params.birthday_sockets);
    let ghost mut m: nat = 0;
    let ghost mut left: nat = 0;
    proof {
        lemma_nth_compose(s, 0, 0);
        lemma_ports_drawn(s, *params, 0);
        if params.birthday_sockets > 0 {
            left = lemma_fresh_port(s, *params, 0, opened@);
        }
    }
    while opened.len() < params.birthday_sockets
        invariant
            params.port_min <= params.port_max,
            params.birthday_sockets <= params.space(),
            opened@ == ports_drawn(s, *params, m),
            opened@.len() <= params.birthday_sockets,
            rng.state() == nth_state(s, m),
            forall|fewer: nat|
                fewer < m ==> #[trigger] ports_drawn(s, *params, fewer).len()
                    < params.birthday_sockets,
            opened@.len() < params.birthday_sockets ==> !opened@.contains(
                port_at(s, *params, m + left),
            ),
        decreases params.birthday_sockets - opened@.len(), left,
    {
        let ghost before = opened@;
        proof {
            lemma_ports_drawn(s, *params, m);
            lemma_ports_drawn(s, *params, m + 1);
            lemma_nth_compose(s, m, 1);
        }
        let p: u16 = params.random_port(rng);
        assert(p == port_at(s, *params, m));
        let fresh: bool = opened.insert(p);
        proof {
            if !fresh {
                assert(before.insert(p) =~= before);
                left = (left - 1) as nat;
            } else if opened@.len() < params.birthday_sockets {
                left = lemma_fresh_port(s, *params, m + 1, opened@);
            }
            m = m + 1;
        }
    }
    assert(opening_takes(s, *params, m));
    let mut j: usize = 0;
    while j < params.spray_probes
        invariant
            params.port_min <= params.port_max,
            j <= params.spray_probes,
            opened@ == ports_drawn(s, *params, m),
            opening_takes(s, *params, m),
            rng.state() == nth_state(s, m + j as nat),
            s == old(rng).state(),
            forall|i: nat|
                i < j ==> !opened@.contains(#[trigger] port_at(s, *params, m + i)),
        decreases params.spray_probes - j,
    {
        proof {
            lemma_nth_compose(s, m + j as nat, 1);
        }
        let p: u16 = params.random_port(rng);
        assert(p == port_at(s, *params, m + j as nat));
        if opened.contains(&p) {
            assert(spray_ends(s, *params, m, true, rng.state()));
            return true;
        }
        j += 1;
    }
    assert(spray_ends(s, *params, m, false, rng.state()));
    false
}

/// Attempt a punch between the two firewall types, using `rng` for the
/// probabilistic cases.
pub fn attempt_punch(
    local: Firewall,
    remote: Firewall,
    rng: &mut Rng,
    params: &PunchParams,
) -> (r: Outcome)
    requires
        params.port_min <= params.port_max,
        params.birthday_sockets <= params.space(),
    ensures
        match planned(local, remote) {
            Strategy::Direct => r == Outcome::Direct && final(rng).state() == old(rng).state(),
            Strategy::Relay => r == Outcome::Relayed && final(rng).state() == old(rng).state(),
            _ => (r == Outcome::Punched || r == Outcome::Relayed) && exists|m: nat| #[trigger]
                opening_takes(old(rng).state(), *params, m) && spray_ends(
                    old(rng).state(),
                    *params,
                    m,
                    r == Outcome::Punched,
                    final(rng).state(),
                ),
        },
{
    match plan(local, remote) {
        Strategy::Direct => Outcome::Direct,
        Strategy::Relay => Outcome::Relayed,
        Strategy::SprayRandomPorts | Strategy::OpenBirthdaySockets => {
            if simulate_birthday(rng, params) {
                Outcome::Punched
            } else {
                Outcome::Relayed
            }
        },
    }
}

/// The host that two peers learn each other's address from.
spec fn third_host() -> SocketAddr {
    SocketAddr { ip: IpAddr::V4([10u8, 0, 0, 3]), port: 1 }
}

/// A NAT with its first socket open.
spec fn with_socket(v: NatView) -> NatView {
    NatView { next_socket: 1, ..v }
}

/// Where the first socket of a fresh NAT sends from.
spec fn first_source(v: NatView, dest: SocketAddr) -> SocketAddr {
    SocketAddr { ip: v.host, port: sent_from(v, 0, dest) }
}

/// The address the third host sees of a fresh NAT, and tells the peer.
spec fn observed(v: NatView) -> SocketAddr {
    first_source(with_socket(v), third_host())
}

/// A fresh NAT whose first socket has sent to the third host.
spec fn introduced(v: NatView) -> NatView {
    after_send(with_socket(v), 0, third_host())
}

/// A fresh NAT whose first socket has then sent to the address told of a peer.
spec fn reaching_out(v: NatView, peer: NatView) -> NatView {
    after_send(introduced(v), 0, observed(peer))
}

/// Whether what a peer sends to the address told of a fresh NAT gets in.
spec fn lets_in(v: NatView, peer: NatView) -> bool {
    delivered(
        reaching_out(v, peer),
        observed(v).port,
        first_source(introduced(peer), observed(v)),
    ) is Some
}

/// A NAT that has answered what its peer sent.
spec fn answering(v: NatView, peer: NatView) -> NatView {
    after_send(reaching_out(v, peer), 0, first_source(introduced(peer), observed(v)))
}

/// Whether two peers that learned each other's observed address from a third
/// host get a packet across and an answer back. They do exactly if the plan is
/// to dial directly; the second answers if it is reached, else the first does
/// if it is.
fn exchange_packets(a: &mut NatBox, b: &mut NatBox) -> (r: bool)
    requires
        old(a).wf(),
        old(b).wf(),
        old(a)@ == fresh_nat(old(a)@.kind, old(a)@.host, old(a)@.port_min, old(a)@.port_max),
        old(b)@ == fresh_nat(old(b)@.kind, old(b)@.host, old(b)@.port_min, old(b)@.port_max),
        old(a)@.port_min < old(a)@.port_max,
        old(b)@.port_min < old(b)@.port_max,
        old(a)@.host == IpAddr::V4([10u8, 0, 0, 1]),
        old(b)@.host == IpAddr::V4([10u8, 0, 0, 2]),
    ensures
        r == (planned(old(a)@.kind, old(b)@.kind) == Strategy::Direct),
        final(a).wf(),
        final(b).wf(),
        final(b)@ == (if lets_in(old(b)@, old(a)@) {
            answering(old(b)@, old(a)@)
        } else {
            reaching_out(old(b)@, old(a)@)
        }),
        final(a)@ == (if !lets_in(old(b)@, old(a)@) && lets_in(old(a)@, old(b)@) {
            answering(old(a)@, old(b)@)
        } else {
            reaching_out(old(a)@, old(b)@)
        }),
{
    let ghost (a0, b0) = (a@, b@);
    let third = SocketAddr::new(IpAddr::V4([10, 0, 0, 3]), 1);
    let sa: u64 = a.open_socket();
    let sb: u64 = b.open_socket();
    assert(has_free_port(a@)) by {
        assert(!a@.owner.dom().contains(a0.port_min));
    }
    assert(has_free_port(b@)) by {
        assert(!b@.owner.dom().contains(b0.port_min));
    }
    let seen_a: SocketAddr = a.send(sa, third);
    let seen_b: SocketAddr = b.send(sb, third);
    assert(seen_a.port == a0.port_min);
    assert(seen_b.port == b0.port_min);
    assert(has_free_port(a@)) by {
        assert(!a@.owner.dom().contains(a0.port_max));
    }
    assert(has_free_port(b@)) by {
        assert(!b@.owner.dom().contains(b0.port_max));
    }
    proof {
        assert([10u8, 0, 0, 1]@[3] == 1u8);
        assert([10u8, 0, 0, 2]@[3] == 2u8);
        assert([10u8, 0, 0, 3]@[3] == 3u8);
        assert(seen_a != third && seen_b != third);
    }
    let from_a: SocketAddr = a.send(sa, seen_b);
    let from_b: SocketAddr = b.send(sb, seen_a);
    assert(a0.kind != Firewall::Random ==> from_a == seen_a);
    assert(b0.kind != Firewall::Random ==> from_b == seen_b);
    assert(a0.kind == Firewall::Random ==> from_a.port != seen_a.port);
    assert(b0.kind == Firewall::Random ==> from_b.port != seen_b.port);
    assert(seen_a == observed(a0) && seen_b == observed(b0));
    assert(a@ == reaching_out(a0, b0) && b@ == reaching_out(b0, a0));
    assert(from_a == first_source(introduced(a0), seen_b));
    assert(from_b == first_source(introduced(b0), seen_a));
    let at_b: Option<u64> = b.recv(seen_b.port, from_a);
    let at_a: Option<u64> = a.recv(seen_a.port, from_b);
    if let Some(socket) = at_b {
        assert(mapped(b@, socket, from_a) is Some ==> true);
        assert(socket == sb);
        assert(b0.kind != Firewall::Random);
        let back: SocketAddr = b.send(socket, from_a);
        if a.recv(from_a.port, back).is_some() {
            return true;
        }
    }
    if let Some(socket) = at_a {
        assert(socket == sa);
        assert(a0.kind == Firewall::Open);
        let back: SocketAddr = a.send(socket, from_b);
        if b.recv(from_b.port, back).is_some() {
            return true;
        }
    }
    false
}

/// What holds while the opening side has opened `n` sockets towards `dest`.
spec fn opened_towards(v: NatView, min: u16, max: u16, n: int, dest: SocketAddr) -> bool {
    &&& v.kind == Firewall::Random
    &&& v.port_min == min
    &&& v.port_max == max
    &&& v.next_socket == n
    &&& v.next_port == if min + n > max {
        min as int
    } else {
        min + n
    }
    &&& forall|p: u16| v.owner.dom().contains(p) <==> min <= p < min + n
    &&& forall|p: u16| min <= p < min + n ==> #[trigger] v.owner[p] == p - min
    &&& forall|k: (u64, SocketAddr)|
        v.dest_port.dom().contains(k) <==> k.0 < n && k.1 == dest
    &&& forall|s: u64| s < n ==> #[trigger] v.dest_port[(s, dest)] == min + s
    &&& forall|a: (u16, SocketAddr)|
        v.allow.contains(a) <==> min <= a.0 < min + n && a.1 == dest
}

/// Whether one of the first `n` guesses is one of the ports from `min` on that
/// were opened.
pub open spec fn guess_hits(s: u64, params: PunchParams, n: int) -> bool {
    exists|j: nat|
        j < n && #[trigger] port_at(s, params, j) < params.port_min + params.birthday_sockets
}

/// Whether the guesses leave the generator in state `after`: guessing stops at the
/// first guess that is a port that was opened, or when the guesses are used up.
pub open spec fn guessing_ends(s: u64, params: PunchParams, after: u64) -> bool {
    let opened = params.port_min + params.birthday_sockets;
    if guess_hits(s, params, params.spray_probes as int) {
        exists|j: nat|
            {
                &&& j < params.spray_probes
                &&& #[trigger] port_at(s, params, j) < opened
                &&& forall|i: nat| i < j ==> #[trigger] port_at(s, params, i) >= opened
                &&& after == nth_state(s, j + 1)
            }
    } else {
        after == nth_state(s, params.spray_probes as nat)
    }
}

/// Drives the port collision through two NATs, packet by packet: the opening
/// side opens its sockets towards the spraying side's address, the spraying
/// side sends to guessed ports, and a guess that reaches a socket is answered.
fn collide_packets(
    sprayer: &mut NatBox,
    opener: &mut NatBox,
    rng: &mut Rng,
    params: &PunchParams,
) -> (r: bool)
    requires
        params.port_min <= params.port_max,
        params.birthday_sockets <= params.space(),
        old(sprayer).wf(),
        old(opener).wf(),
        old(sprayer)@ == fresh_nat(
            Firewall::Consistent,
            old(sprayer)@.host,
            params.port_min,
            params.port_max,
        ),
        old(opener)@ == fresh_nat(
            Firewall::Random,
            old(opener)@.host,
            params.port_min,
            params.port_max,
        ),
    ensures
        r == guess_hits(old(rng).state(), *params, params.spray_probes as int),
        guessing_ends(old(rng).state(), *params, final(rng).state()),
{
    let ghost s = rng.state();
    let ghost (min, max) = (params.port_min, params.port_max);
    let third = SocketAddr::new(IpAddr::V4([10, 0, 0, 3]), 1);
    let socket: u64 = sprayer.open_socket();
    assert(has_free_port(sprayer@)) by {
        assert(!sprayer@.owner.dom().contains(min));
    }
    let seen: SocketAddr = sprayer.send(socket, third);
    let mut opened: usize = 0;
    while opened < params.birthday_sockets
        invariant
            opened <= params.birthday_sockets <= params.space(),
            params.port_min == min <= max == params.port_max,
            opener.wf(),
            opened_towards(opener@, min, max, opened as int, seen),
        decreases params.birthday_sockets - opened,
    {
        let ghost before = opener@;
        let fresh: u64 = opener.open_socket();
        let ghost p = (min + opened) as u16;
        assert(!opener@.owner.dom().contains(p));
        assert(has_free_port(opener@));
        assert(next_free(opener@) == p);
        let _ = opener.send(fresh, seen);
        opened += 1;
        assert(opener@ == after_send((NatView { next_socket: opened as u64, ..before }), fresh, seen));
    }
    proof {
        lemma_nth_compose(s, 0, 0);
    }
    let mut j: usize = 0;
    while j < params.spray_probes
        invariant
            j <= params.spray_probes,
            params.port_min == min <= max == params.port_max,
            params.birthday_sockets <= params.space(),
            opener.wf(),
            sprayer.wf(),
            opened_towards(opener@, min, max, params.birthday_sockets as int, seen),
            sprayer@.kind == Firewall::Consistent,
            sprayer@.socket_port.dom().contains(socket),
            sprayer@.socket_port[socket] == seen.port,
            sprayer@.host == seen.ip,
            rng.state() == nth_state(s, j as nat),
            s == old(rng).state(),
            forall|i: nat|
                i < j ==> #[trigger] port_at(s, *params, i) >= min + params.birthday_sockets,
        decreases params.spray_probes - j,
    {
        proof {
            lemma_nth_compose(s, j as nat, 1);
        }
        let p: u16 = params.random_port(rng);
        assert(p == port_at(s, *params, j as nat));
        let guess = SocketAddr::new(opener.host(), p);
        let source: SocketAddr = sprayer.send(socket, guess);
        assert(source == seen);
        if let Some(reached) = opener.recv(p, source) {
            assert(min <= p < min + params.birthday_sockets);
            assert(reached == p - min);
            assert(mapped(opener@, reached, source) == Some(p));
            let back: SocketAddr = opener.send(reached, source);
            assert(back == guess);
            if sprayer.recv(source.port, back).is_some() {
                return true;
            }
            assert(false);
        }
        j += 1;
    }
    false
}

/// Attempt a punch by driving packets through a NAT on either side.
pub fn packet_punch(
    local: Firewall,
    remote: Firewall,
    rng: &mut Rng,
    params: &PunchParams,
) -> (r: Outcome)
    requires
        params.port_min < params.port_max,
        params.birthday_sockets <= params.space(),
    ensures
        r == match planned(local, remote) {
            Strategy::Direct => Outcome::Direct,
            Strategy::Relay => Outcome::Relayed,
            _ => if guess_hits(old(rng).state(), *params, params.spray_probes as int) {
                Outcome::Punched
            } else {
                Outcome::Relayed
            },
        },
        match planned(local, remote) {
            Strategy::Direct | Strategy::Relay => final(rng).state() == old(rng).state(),
            _ => guessing_ends(old(rng).state(), *params, final(rng).state()),
        },
{
    let mut a = NatBox::with_range(
        local,
        IpAddr::V4([10, 0, 0, 1]),
        params.port_min,
        params.port_max,
    );
    let mut b = NatBox::with_range(
        remote,
        IpAddr::V4([10, 0, 0, 2]),
        params.port_min,
        params.port_max,
    );
    match plan(local, remote) {
        Strategy::Relay => Outcome::Relayed,
        Strategy::Direct => if exchange_packets(&mut a, &mut b) {
            Outcome::Direct
        } else {
            Outcome::Relayed
        },
        Strategy::SprayRandomPorts => if collide_packets(&mut a, &mut b, rng, params) {
            Outcome::Punched
        } else {
            Outcome::Relayed
        },
        Strategy::OpenBirthdaySockets => if collide_packets(&mut b, &mut a, rng, params) {
            Outcome::Punched
        } else {
            Outcome::Relayed
        },
    }
}

/// What is planned for two firewalls: who can be dialed is, the predictable side sprays,
/// the other opens sockets, and where neither is predictable a relay is needed.
pub proof fn law_plan_follows_the_firewalls(local: Firewall, remote: Firewall)
    ensures
        planned(local, remote) == Strategy::Direct <==> local == Firewall::Open || remote
            == Firewall::Open || (local == Firewall::Consistent && remote == Firewall::Consistent),
        planned(local, remote) == Strategy::SprayRandomPorts <==> local == Firewall::Consistent
            && remote == Firewall::Random,
        planned(local, remote) == Strategy::OpenBirthdaySockets <==> local == Firewall::Random
            && remote == Firewall::Consistent,
        planned(local, remote) == Strategy::Relay <==> local == Firewall::Random && remote
            == Firewall::Random,
{
}

/// A port is drawn from the range, and every port of the range is drawn sooner or later.
pub proof fn law_ports_are_drawn_from_the_range(s: u64, params: PunchParams, k: nat, p: u16)
    requires
        params.port_min <= p <= params.port_max,
    ensures
        params.port_min <= port_at(s, params, k) <= params.port_max,
        exists|j: nat| #[trigger] port_at(s, params, j) == p,
{
    let v = nth_draw(s, k) as int;
    assert(0 <= v % params.space() < params.space());
    let y = (p - params.port_min) as u64;
    law_every_value_is_drawn(s, y);
    let j = choose|j: nat| nth_draw(s, j) == y;
    vstd::arithmetic::div_mod::lemma_small_mod(y as nat, params.space() as nat);
    assert(port_at(s, params, j) == p);
}

proof fn lemma_drawn(s: u64, params: PunchParams, m: nat, p: u16)
    ensures
        ports_drawn(s, params, m).contains(p) <==> exists|i: nat|
            i < m && #[trigger] port_at(s, params, i) == p,
    decreases m,
{
    if m > 0 {
        let last = (m - 1) as nat;
        lemma_drawn(s, params, last, p);
        if ports_drawn(s, params, m).contains(p) && p != port_at(s, params, last) {
            let i = choose|i: nat| i < last && #[trigger] port_at(s, params, i) == p;
            assert(i < m && port_at(s, params, i) == p);
        }
    }
}

/// A spray hits exactly if one of its guesses is a port that was opened.
pub proof fn law_spray_hits_an_opened_port(
    s: u64,
    params: PunchParams,
    m: nat,
    hit: bool,
    after: u64,
)
    requires
        spray_ends(s, params, m, hit, after),
    ensures
        hit <==> exists|i: nat, j: nat|
            i < m && j < params.spray_probes && #[trigger] port_at(s, params, i)
                == #[trigger] port_at(s, params, m + j),
{
    let open = ports_drawn(s, params, m);
    if hit {
        let j = choose|j: nat|
            j < params.spray_probes && open.contains(#[trigger] port_at(s, params, m + j));
        let p = port_at(s, params, m + j);
        lemma_drawn(s, params, m, p);
        let i = choose|i: nat| i < m && #[trigger] port_at(s, params, i) == p;
        assert(port_at(s, params, i) == port_at(s, params, m + j));
    } else if exists|i: nat, j: nat|
        i < m && j < params.spray_probes && #[trigger] port_at(s, params, i) == #[trigger] port_at(
            s,
            params,
            m + j,
        ) {
        let (i, j) = choose|i: nat, j: nat|
            i < m && j < params.spray_probes && #[trigger] port_at(s, params, i)
                == #[trigger] port_at(s, params, m + j);
        lemma_drawn(s, params, m, port_at(s, params, m + j));
        assert(open.contains(port_at(s, params, m + j)));
    }
}

/// With every port of the range opened, a single guess hits; with none opened, or without
/// a guess, nothing does.
pub proof fn law_every_port_opened_is_hit(
    s: u64,
    params: PunchParams,
    m: nat,
    hit: bool,
    after: u64,
)
    requires
        params.port_min <= params.port_max,
        opening_takes(s, params, m),
        spray_ends(s, params, m, hit, after),
    ensures
        params.birthday_sockets == params.space() && params.spray_probes >= 1 ==> hit,
        params.birthday_sockets == 0 || params.spray_probes == 0 ==> !hit,
{
    let open = ports_drawn(s, params, m);
    lemma_ports_drawn(s, params, m);
    if params.birthday_sockets == params.space() && params.spray_probes >= 1 {
        let p = port_at(s, params, m);
        law_ports_are_drawn_from_the_range(s, params, m, params.port_min);
        if !open.contains(p) {
            lemma_not_all(params.port_min, params.port_max, open, p);
        }
        assert(open.contains(port_at(s, params, m + 0)));
    }
    if params.birthday_sockets == 0 {
        assert(open =~= Set::empty());
    }
}

proof fn lemma_not_all(min: u16, max: u16, open: Set<u16>, p: u16)
    requires
        min <= p <= max,
        !open.contains(p),
        open.finite(),
        forall|q: u16| open.contains(q) ==> min <= q <= max,
    ensures
        open.len() <= max - min,
    decreases max - min,
{
    if min == max {
        assert(open =~= Set::empty());
    } else if p == max {
        lemma_at_most(min, (max - 1) as u16, open);
    } else {
        lemma_not_all(min, (max - 1) as u16, open.remove(max), p);
    }
}

proof fn lemma_at_most(min: u16, max: u16, open: Set<u16>)
    requires
        min <= max,
        open.finite(),
        forall|q: u16| open.contains(q) ==> min <= q <= max,
    ensures
        open.len() <= max - min + 1,
    decreases max - min,
{
    if !open.contains(max) {
        assert(open.remove(max) =~= open);
    }
    if min == max {
        assert(open.remove(max) =~= Set::empty());
    } else {
        lemma_at_most(min, (max - 1) as u16, open.remove(max));
    }
}

/// Guesses hit exactly if one of them is among the ports opened, which are the first of the
/// range; more guesses, and more ports opened, hit no less.
pub proof fn law_guesses_hit_opened_ports(s: u64, params: PunchParams, n: int, more: int)
    requires
        params.port_min <= params.port_max,
        n <= more,
    ensures
        guess_hits(s, params, n) <==> exists|j: nat|
            j < n && params.port_min <= #[trigger] port_at(s, params, j)
                && port_at(s, params, j) - params.port_min < params.birthday_sockets,
        guess_hits(s, params, n) ==> guess_hits(s, params, more),
        params.birthday_sockets == params.space() && n >= 1 ==> guess_hits(s, params, n),
        params.birthday_sockets == 0 || n <= 0 ==> !guess_hits(s, params, n),
{
    assert forall|j: nat| params.port_min <= #[trigger] port_at(s, params, j)
        <= params.port_max by {
        law_ports_are_drawn_from_the_range(s, params, j, params.port_min);
    }
    assert(port_at(s, params, 0) <= params.port_max);
    if guess_hits(s, params, n) {
        let j = choose|j: nat|
            j < n && #[trigger] port_at(s, params, j) < params.port_min + params.birthday_sockets;
        assert(j < more && port_at(s, params, j) < params.port_min + params.birthday_sockets);
    }
}

} // verus!
