//! Network addresses as plain values.
use crate::bytes::same_array;
use vstd::prelude::*;

verus! {

/// An IP address, in network byte order.
#[derive(Clone, Copy, Debug, Eq)]
pub enum IpAddr {
    /// An IPv4 address.
    V4([u8; 4]),
    /// An IPv6 address.
    V6([u8; 16]),
}

impl PartialEq for IpAddr {
    fn eq(&self, other: &Self) -> (r: bool) {
        match (self, other) {
            (IpAddr::V4(a), IpAddr::V4(b)) => same_array(a, b),
            (IpAddr::V6(a), IpAddr::V6(b)) => same_array(a, b),
            _ => false,
        }
    }
}

impl vstd::std_specs::cmp::PartialEqSpecImpl for IpAddr {
    open spec fn obeys_eq_spec() -> bool {
        true
    }

    open spec fn eq_spec(&self, other: &Self) -> bool {
        *self == *other
    }
}

/// An IP address together with a port.
#[derive(Clone, Copy, Debug, Eq)]
pub struct SocketAddr {
    /// The host.
    pub ip: IpAddr,
    /// The port.
    pub port: u16,
}

impl PartialEq for SocketAddr {
    fn eq(&self, other: &Self) -> (r: bool) {
        self.port == other.port && self.ip == other.ip
    }
}

impl vstd::std_specs::cmp::PartialEqSpecImpl for SocketAddr {
    open spec fn obeys_eq_spec() -> bool {
        true
    }

    open spec fn eq_spec(&self, other: &Self) -> bool {
        *self == *other
    }
}

impl SocketAddr {
    /// The address of `port` on `ip`.
    pub fn new(ip: IpAddr, port: u16) -> (r: Self)
        ensures
            r == (SocketAddr { ip, port }),
    {
        SocketAddr { ip, port }
    }
}

/// Whether an address is set aside for something other than a single host on
/// the public internet: private, loopback, link-local, unspecified, multicast or
/// otherwise reserved.
pub open spec fn is_exempt(ip: IpAddr) -> bool {
    match ip {
        IpAddr::V4(o) => {
            ||| o[0] == 10
            ||| o[0] == 172 && 16 <= o[1] <= 31
            ||| o[0] == 192 && o[1] == 168
            ||| o[0] == 127
            ||| o[0] == 169 && o[1] == 254
            ||| 224 <= o[0] <= 239
            ||| o[0] == 0
        },
        IpAddr::V6(o) => {
            ||| all_zero(o@.take(15)) && o[15] <= 1
            ||| o[0] == 0xff
            ||| o[0] == 0xfc || o[0] == 0xfd
            ||| o[0] == 0xfe && 0x80 <= o[1] <= 0xbf
        },
    }
}

/// Whether every byte is zero.
pub open spec fn all_zero(s: Seq<u8>) -> bool {
    forall|i: int| 0 <= i < s.len() ==> s[i] == 0
}

/// The bytes that name the network a public address belongs to: the first three
/// of an IPv4 address, the first eight of an IPv6 address.
pub open spec fn network_of(ip: IpAddr) -> Option<Seq<u8>> {
    if is_exempt(ip) {
        None
    } else {
        match ip {
            IpAddr::V4(o) => Some(o@.take(3)),
            IpAddr::V6(o) => Some(o@.take(8)),
        }
    }
}

/// Whether the first `n` bytes of a 16-byte address are zero.
pub fn leading_zero_bytes(o: &[u8; 16], n: usize) -> (r: bool)
    requires
        n <= 16,
    ensures
        r == all_zero(o@.take(n as int)),
{
    let mut i: usize = 0;
    while i < n
        invariant
            i <= n <= 16,
            forall|j: int| 0 <= j < i ==> o@[j] == 0,
        decreases n - i,
    {
        if o[i] != 0 {
            assert(o@.take(n as int)[i as int] != 0);
            return false;
        }
        i += 1;
    }
    true
}

/// Whether two addresses are public and belong to one network.
pub fn same_network(a: &IpAddr, b: &IpAddr) -> (r: bool)
    ensures
        r == (network_of(*a) is Some && network_of(*a) == network_of(*b)),
{
    if !is_public(a) || !is_public(b) {
        return false;
    }
    match (a, b) {
        (IpAddr::V4(x), IpAddr::V4(y)) => {
            let r: bool = x[0] == y[0] && x[1] == y[1] && x[2] == y[2];
            proof {
                if r {
                    assert(x@.take(3) =~= y@.take(3));
                } else if x@.take(3) == y@.take(3) {
                    assert(x@.take(3)[0] == y@.take(3)[0]);
                    assert(x@.take(3)[1] == y@.take(3)[1]);
                    assert(x@.take(3)[2] == y@.take(3)[2]);
                }
            }
            r
        },
        (IpAddr::V6(x), IpAddr::V6(y)) => {
            let mut i: usize = 0;
            while i < 8
                invariant
                    i <= 8,
                    forall|j: int| 0 <= j < i ==> x@[j] == y@[j],
                    *a == IpAddr::V6(*x),
                    *b == IpAddr::V6(*y),
                    !is_exempt(*a),
                    !is_exempt(*b),
                decreases 8 - i,
            {
                if x[i] != y[i] {
                    assert(x@.take(8)[i as int] != y@.take(8)[i as int]);
                    return false;
                }
                i += 1;
            }
            assert(x@.take(8) =~= y@.take(8));
            true
        },
        _ => {
            proof {
                match (*a, *b) {
                    (IpAddr::V4(x), IpAddr::V6(y)) => {
                        assert(x@.take(3).len() != y@.take(8).len());
                    },
                    (IpAddr::V6(x), IpAddr::V4(y)) => {
                        assert(x@.take(8).len() != y@.take(3).len());
                    },
                    _ => {},
                }
            }
            false
        },
    }
}

/// Whether an address may be a single host on the public internet.
pub fn is_public(ip: &IpAddr) -> (r: bool)
    ensures
        r == !is_exempt(*ip),
{
    match ip {
        IpAddr::V4(o) => {
            let private: bool = o[0] == 10 || (o[0] == 172 && 16 <= o[1] && o[1] <= 31) || (o[0]
                == 192 && o[1] == 168);
            let loopback: bool = o[0] == 127;
            let link_local: bool = o[0] == 169 && o[1] == 254;
            let multicast: bool = 224 <= o[0] && o[0] <= 239;
            !(private || loopback || link_local || multicast || o[0] == 0)
        },
        IpAddr::V6(o) => {
            let loopback_or_unspecified: bool = leading_zero_bytes(o, 15) && o[15] <= 1;
            let multicast: bool = o[0] == 0xff;
            let unique_local: bool = o[0] == 0xfc || o[0] == 0xfd;
            let link_local: bool = o[0] == 0xfe && 0x80 <= o[1] && o[1] <= 0xbf;
            !(loopback_or_unspecified || multicast || unique_local || link_local)
        },
    }
}

/// Whether `addrs` holds `addr`.
pub fn contains_addr(addrs: &Vec<SocketAddr>, addr: &SocketAddr) -> (r: bool)
    ensures
        r == addrs@.contains(*addr),
{
    let mut i: usize = 0;
    while i < addrs.len()
        invariant
            i <= addrs.len(),
            forall|j: int| 0 <= j < i ==> addrs@[j] != *addr,
        decreases addrs.len() - i,
    {
        if addrs[i] == *addr {
            assert(addrs@[i as int] == *addr);
            return true;
        }
        i += 1;
    }
    false
}

/// The addresses that may be in any number of places are told apart from public ones:
/// private, loopback, link-local, multicast and unspecified ones belong to no network.
pub proof fn law_reserved_addresses_have_no_network(a: [u8; 4], b: [u8; 16])
    ensures
        network_of(IpAddr::V4(a)) is None <==> a[0] == 0 || a[0] == 10 || a[0] == 127 || (a[0]
            == 169 && a[1] == 254) || (a[0] == 172 && 16 <= a[1] && a[1] < 32) || (a[0] == 192
            && a[1] == 168) || (224 <= a[0] && a[0] < 240),
        network_of(IpAddr::V6(b)) is None <==> b[0] == 0xff || b[0] == 0xfc || b[0] == 0xfd || (
        b[0] == 0xfe && 0x80 <= b[1] && b[1] < 0xc0) || ((forall|i: int|
            0 <= i < 15 ==> (#[trigger] b@[i]) == 0) && (b[15] == 0 || b[15] == 1)),
{
    let s = b@.take(15);
    assert(all_zero(s) <==> forall|i: int| 0 <= i < 15 ==> (#[trigger] b@[i]) == 0) by {
        if all_zero(s) {
            assert forall|i: int| 0 <= i < 15 implies (#[trigger] b@[i]) == 0 by {
                assert(s[i] == b@[i]);
            }
        }
        if forall|i: int| 0 <= i < 15 ==> (#[trigger] b@[i]) == 0 {
            assert forall|i: int| 0 <= i < s.len() implies s[i] == 0 by {
                assert(s[i] == b@[i]);
            }
        }
    }
}

/// Two public addresses are of one network exactly if they agree in the first three bytes,
/// or the first eight of an IPv6 address.
pub proof fn law_networks_are_prefixes(a: [u8; 4], b: [u8; 4], c: [u8; 16], d: [u8; 16])
    requires
        network_of(IpAddr::V4(a)) is Some,
        network_of(IpAddr::V4(b)) is Some,
        network_of(IpAddr::V6(c)) is Some,
        network_of(IpAddr::V6(d)) is Some,
    ensures
        network_of(IpAddr::V4(a)) == network_of(IpAddr::V4(b)) <==> forall|i: int|
            0 <= i < 3 ==> (#[trigger] a@[i]) == b@[i],
        network_of(IpAddr::V6(c)) == network_of(IpAddr::V6(d)) <==> forall|i: int|
            0 <= i < 8 ==> (#[trigger] c@[i]) == d@[i],
        network_of(IpAddr::V4(a)) != network_of(IpAddr::V6(c)),
{
    let (x, y) = (a@.take(3), b@.take(3));
    let (z, w) = (c@.take(8), d@.take(8));
    assert(x.len() == 3 && z.len() == 8);
    if x == y {
        assert forall|i: int| 0 <= i < 3 implies (#[trigger] a@[i]) == b@[i] by {
            assert(x[i] == y[i]);
        }
    }
    if forall|i: int| 0 <= i < 3 ==> (#[trigger] a@[i]) == b@[i] {
        assert(x =~= y);
    }
    if z == w {
        assert forall|i: int| 0 <= i < 8 implies (#[trigger] c@[i]) == d@[i] by {
            assert(z[i] == w[i]);
        }
    }
    if forall|i: int| 0 <= i < 8 ==> (#[trigger] c@[i]) == d@[i] {
        assert(z =~= w);
    }
}

} // verus!
