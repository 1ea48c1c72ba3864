//! NAT self-classification.
//!
//! A node learns what kind of NAT sits in front of it by sampling: it pings
//! several peers and observes the source address each reports seeing. The
//! pattern of observed addresses classifies the firewall.
use crate::addr::{IpAddr, SocketAddr};
use vstd::prelude::*;

verus! {

/// Minimum number of samples before a verdict can be reached.
pub const MIN_SAMPLES: usize = 3;

/// The classified firewall type in front of a node.
#[derive(Clone, Copy, Debug, PartialEq, Eq, Structural)]
pub enum Firewall {
    /// Publicly reachable; unsolicited inbound works.
    Open,
    /// Firewalled, but external port is stable and predictable.
    Consistent,
    /// Firewalled with an unpredictable (per-destination) external port.
    Random,
}

/// The tag a firewall type travels under.
pub open spec fn firewall_tag(f: Firewall) -> u8 {
    match f {
        Firewall::Open => 0,
        Firewall::Consistent => 1,
        Firewall::Random => 2,
    }
}

/// The firewall type a tag stands for.
pub open spec fn tagged_firewall(tag: u8) -> Option<Firewall> {
    if tag == 0 {
        Some(Firewall::Open)
    } else if tag == 1 {
        Some(Firewall::Consistent)
    } else if tag == 2 {
        Some(Firewall::Random)
    } else {
        None
    }
}

impl Firewall {
    /// The tag this type travels under.
    pub fn as_u8(self) -> (r: u8)
        ensures
            r == firewall_tag(self),
            tagged_firewall(r) == Some(self),
    {
        match self {
            Firewall::Open => 0,
            Firewall::Consistent => 1,
            Firewall::Random => 2,
        }
    }

    /// The type a tag stands for, if it is one.
    pub fn from_u8(tag: u8) -> (r: Option<Self>)
        ensures
            r == tagged_firewall(tag),
    {
        if tag == 0 {
            Some(Firewall::Open)
        } else if tag == 1 {
            Some(Firewall::Consistent)
        } else if tag == 2 {
            Some(Firewall::Random)
        } else {
            None
        }
    }
}

/// How often `x` occurs.
pub open spec fn occurrences<T>(s: Seq<T>, x: T) -> nat
    decreases s.len(),
{
    if s.len() == 0 {
        0
    } else {
        occurrences(s.drop_last(), x) + if s.last() == x {
            1nat
        } else {
            0
        }
    }
}

/// The host of each address.
pub open spec fn hosts(s: Seq<SocketAddr>) -> Seq<IpAddr> {
    Seq::new(s.len(), |i: int| s[i].ip)
}

/// The port of each address.
pub open spec fn ports(s: Seq<SocketAddr>) -> Seq<u16> {
    Seq::new(s.len(), |i: int| s[i].port)
}

/// The verdict on a set of observations: an external port seen three times or
/// more is a stable mapping, open if the node is reachable as well; otherwise the
/// port varies.
pub open spec fn verdict(observed: Seq<SocketAddr>, reachable: bool) -> Option<Firewall> {
    if observed.len() < MIN_SAMPLES {
        None
    } else if exists|p: u16| #[trigger] occurrences(ports(observed), p) >= 3 {
        if reachable {
            Some(Firewall::Open)
        } else {
            Some(Firewall::Consistent)
        }
    } else {
        Some(Firewall::Random)
    }
}

/// Accumulates observed external addresses to classify the local firewall.
#[derive(Debug)]
pub struct NatSampler {
    observations: Vec<SocketAddr>,
}

impl View for NatSampler {
    type V = Seq<SocketAddr>;

    closed spec fn view(&self) -> Seq<SocketAddr> {
        self.observations@
    }
}

fn times_seen(s: &Vec<SocketAddr>, x: u16) -> (r: usize)
    ensures
        r == occurrences(ports(s@), x),
{
    let mut n: usize = 0;
    let mut i: usize = 0;
    assert(ports(s@).take(0) =~= Seq::empty());
    while i < s.len()
        invariant
            i <= s.len(),
            n <= i,
            n == occurrences(ports(s@).take(i as int), x),
        decreases s.len() - i,
    {
        assert(ports(s@).take(i + 1).drop_last() =~= ports(s@).take(i as int));
        assert(ports(s@).take(i + 1).last() == s@[i as int].port);
        if s[i].port == x {
            n += 1;
        }
        i += 1;
    }
    assert(ports(s@).take(i as int) =~= ports(s@));
    n
}

fn times_hosted(s: &Vec<SocketAddr>, x: &IpAddr) -> (r: usize)
    ensures
        r == occurrences(hosts(s@), *x),
{
    let mut n: usize = 0;
    let mut i: usize = 0;
    assert(hosts(s@).take(0) =~= Seq::empty());
    while i < s.len()
        invariant
            i <= s.len(),
            n <= i,
            n == occurrences(hosts(s@).take(i as int), *x),
        decreases s.len() - i,
    {
        assert(hosts(s@).take(i + 1).drop_last() =~= hosts(s@).take(i as int));
        assert(hosts(s@).take(i + 1).last() == s@[i as int].ip);
        if s[i].ip == *x {
            n += 1;
        }
        i += 1;
    }
    assert(hosts(s@).take(i as int) =~= hosts(s@));
    n
}

proof fn lemma_occurs<T>(s: Seq<T>, x: T)
    ensures
        occurrences(s, x) > 0 <==> s.contains(x),
    decreases s.len(),
{
    if s.len() > 0 {
        lemma_occurs(s.drop_last(), x);
        if s.contains(x) {
            let i = s.index_of(x);
            if i < s.len() - 1 {
                assert(s.drop_last()[i] == x);
            }
        }
        if s.drop_last().contains(x) {
            let i = s.drop_last().index_of(x);
            assert(s[i] == x);
        }
        assert(s[s.len() - 1] == s.last());
    }
}

/// A host seen most often; none if there are no observations.
fn majority(s: &Vec<SocketAddr>) -> (r: Option<IpAddr>)
    ensures
        match r {
            Some(ip) => hosts(s@).contains(ip) && forall|other: IpAddr|
                #[trigger] occurrences(hosts(s@), other) <= occurrences(hosts(s@), ip),
            None => s@.len() == 0,
        },
{
    if s.len() == 0 {
        return None;
    }
    let mut best: usize = 0;
    let mut top: usize = times_hosted(s, &s[0].ip);
    let mut i: usize = 1;
    while i < s.len()
        invariant
            best < i <= s.len(),
            top == occurrences(hosts(s@), s@[best as int].ip),
            forall|j: int| 0 <= j < i ==> occurrences(hosts(s@), #[trigger] s@[j].ip) <= top,
        decreases s.len() - i,
    {
        let n: usize = times_hosted(s, &s[i].ip);
        if n > top {
            best = i;
            top = n;
        }
        i += 1;
    }
    proof {
        let ip = s@[best as int].ip;
        assert(hosts(s@)[best as int] == ip);
        assert forall|other: IpAddr| #[trigger] occurrences(hosts(s@), other) <= top by {
            lemma_occurs(hosts(s@), other);
            if occurrences(hosts(s@), other) > 0 {
                let j = hosts(s@).index_of(other);
                assert(s@[j].ip == other);
            }
        }
    }
    Some(s[best].ip)
}

impl NatSampler {
    /// Create an empty sampler.
    pub fn new() -> (r: Self)
        ensures
            r@ == Seq::<SocketAddr>::empty(),
    {
        NatSampler { observations: Vec::new() }
    }

    /// Record an observed external address.
    pub fn add(&mut self, observed: SocketAddr)
        ensures
            final(self)@ == old(self)@.push(observed),
    {
        self.observations.push(observed);
    }

    /// Number of observations collected.
    pub fn len(&self) -> (r: usize)
        ensures
            r == self@.len(),
    {
        self.observations.len()
    }

    /// Whether no observations have been collected.
    pub fn is_empty(&self) -> (r: bool)
        ensures
            r == (self@.len() == 0),
    {
        self.observations.len() == 0
    }

    /// The most-observed external host, if any.
    pub fn host(&self) -> (r: Option<IpAddr>)
        ensures
            match r {
                Some(ip) => hosts(self@).contains(ip) && forall|other: IpAddr|
                    #[trigger] occurrences(hosts(self@), other) <= occurrences(hosts(self@), ip),
                None => self@.len() == 0,
            },
    {
        majority(&self.observations)
    }

    /// Classify the firewall, given whether an unsolicited inbound packet
    /// arrived. Returns `None` while fewer than [`MIN_SAMPLES`] observations
    /// exist. A single external port seen at least three times is a stable
    /// mapping, whatever the hosts; otherwise the port is varying.
    pub fn classify(&self, reachable: bool) -> (r: Option<Firewall>)
        ensures
            r == verdict(self@, reachable),
    {
        if self.observations.len() < MIN_SAMPLES {
            return None;
        }
        let mut i: usize = 0;
        while i < self.observations.len()
            invariant
                i <= self.observations.len(),
                self.observations@.len() >= MIN_SAMPLES,
                forall|j: int|
                    0 <= j < i ==> occurrences(
                        ports(self.observations@),
                        (#[trigger] self.observations@[j]).port,
                    ) < 3,
            decreases self.observations.len() - i,
        {
            let n: usize = times_seen(&self.observations, self.observations[i].port);
            if n >= 3 {
                assert(occurrences(ports(self@), self.observations@[i as int].port) >= 3);
                return Some(
                    if reachable {
                        Firewall::Open
                    } else {
                        Firewall::Consistent
                    },
                );
            }
            i += 1;
        }
        proof {
            assert forall|p: u16| #[trigger] occurrences(ports(self@), p) < 3 by {
                lemma_occurs(ports(self@), p);
                if occurrences(ports(self@), p) > 0 {
                    let j = ports(self@).index_of(p);
                    assert(self.observations@[j].port == p);
                }
            }
        }
        Some(Firewall::Random)
    }
}

impl Default for NatSampler {
    fn default() -> (r: Self)
        ensures
            r@ == Seq::<SocketAddr>::empty(),
    {
        NatSampler::new()
    }
}

/// Counting goes element by element.
pub proof fn law_occurrences_add_up<T>(s: Seq<T>, y: T, x: T)
    ensures
        occurrences(Seq::<T>::empty(), x) == 0,
        occurrences(s.push(y), x) == occurrences(s, x) + if y == x {
            1nat
        } else {
            0
        },
{
    assert(s.push(y).drop_last() =~= s);
}

proof fn lemma_three_places<T>(s: Seq<T>, x: T, i: int, j: int, k: int)
    requires
        0 <= i < j < k < s.len(),
        s[i] == x,
        s[j] == x,
        s[k] == x,
    ensures
        occurrences(s, x) >= 3,
    decreases s.len(),
{
    let rest = s.drop_last();
    if k < s.len() - 1 {
        assert(rest[i] == x && rest[j] == x && rest[k] == x);
        lemma_three_places(rest, x, i, j, k);
    } else {
        lemma_two_places(rest, x, i, j);
    }
}

proof fn lemma_two_places<T>(s: Seq<T>, x: T, i: int, j: int)
    requires
        0 <= i < j < s.len(),
        s[i] == x,
        s[j] == x,
    ensures
        occurrences(s, x) >= 2,
    decreases s.len(),
{
    let rest = s.drop_last();
    if j < s.len() - 1 {
        assert(rest[i] == x && rest[j] == x);
        lemma_two_places(rest, x, i, j);
    } else {
        assert(rest[i] == x);
        lemma_occurs(rest, x);
    }
}

/// The places at which something that occurs three times does.
proof fn lemma_places<T>(s: Seq<T>, x: T, n: nat) -> (p: Seq<int>)
    requires
        occurrences(s, x) >= n,
    ensures
        p.len() == n,
        forall|a: int| 0 <= a < n ==> 0 <= #[trigger] p[a] < s.len() && s[p[a]] == x,
        forall|a: int, b: int| 0 <= a < b < n ==> #[trigger] p[a] < #[trigger] p[b],
    decreases s.len(),
{
    if n == 0 {
        Seq::empty()
    } else {
        let rest = s.drop_last();
        if s.last() == x {
            let q = lemma_places(rest, x, (n - 1) as nat);
            let p = q.push(s.len() - 1);
            assert forall|a: int| 0 <= a < n implies 0 <= #[trigger] p[a] < s.len() && s[p[a]]
                == x by {
                if a < n - 1 {
                    assert(p[a] == q[a]);
                    assert(rest[q[a]] == x);
                }
            }
            assert forall|a: int, b: int| 0 <= a < b < n implies #[trigger] p[a]
                < #[trigger] p[b] by {
                assert(p[a] == q[a]);
                if b < n - 1 {
                    assert(p[b] == q[b]);
                }
            }
            p
        } else {
            let q = lemma_places(rest, x, n);
            assert forall|a: int| 0 <= a < n implies 0 <= #[trigger] q[a] < s.len() && s[q[a]]
                == x by {
                assert(rest[q[a]] == x);
            }
            q
        }
    }
}

/// A port observed three times, whatever else is and at whatever hosts, is a stable
/// mapping: open if we can be reached, predictable if not.
pub proof fn law_repeated_port_is_stable(
    observed: Seq<SocketAddr>,
    reachable: bool,
    i: int,
    j: int,
    k: int,
)
    requires
        0 <= i < j < k < observed.len(),
        observed[i].port == observed[j].port,
        observed[j].port == observed[k].port,
    ensures
        verdict(observed, reachable) == Some(
            if reachable {
                Firewall::Open
            } else {
                Firewall::Consistent
            },
        ),
{
    let x = observed[i].port;
    assert(ports(observed)[i] == x && ports(observed)[j] == x && ports(observed)[k] == x);
    lemma_three_places(ports(observed), x, i, j, k);
}

/// With no port observed three times, there is no verdict before the third observation,
/// and from then on the port is taken to vary.
pub proof fn law_varying_port_is_random(observed: Seq<SocketAddr>, reachable: bool)
    requires
        forall|i: int, j: int, k: int|
            0 <= i < j < k < observed.len() ==> !((#[trigger] observed[i]).port == (
            #[trigger] observed[j]).port && observed[j].port == (#[trigger] observed[k]).port),
    ensures
        verdict(observed, reachable) == if observed.len() < 3 {
            None::<Firewall>
        } else {
            Some(Firewall::Random)
        },
{
    if exists|p: u16| #[trigger] occurrences(ports(observed), p) >= 3 {
        let x = choose|p: u16| #[trigger] occurrences(ports(observed), p) >= 3;
        let p = lemma_places(ports(observed), x, 3);
        assert(p[0] < p[1] && p[1] < p[2]);
        assert(ports(observed)[p[0]] == x && ports(observed)[p[1]] == x && ports(observed)[p[2]]
            == x);
        assert(observed[p[0]].port == x && observed[p[1]].port == x && observed[p[2]].port == x);
    }
}

} // verus!
