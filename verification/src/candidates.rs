//! The addresses two peers offer each other to connect over.
//!
//! A dialer sends its candidate addresses in an offer, the listener sends its own
//! in an answer. Only addresses that a datagram can sensibly be sent to are taken,
//! and each only once, however it is written.
use crate::addr::{all_zero, contains_addr, leading_zero_bytes, IpAddr, SocketAddr};
use crate::bytes::{append, array_of, lemma_array_of, part, same_bytes, to_array};
use vstd::prelude::*;

verus! {

/// Starts every list of candidates: `warren-connect` and a version.
pub const MAGIC: [u8; 15] = [
    119, 97, 114, 114, 101, 110, 45, 99, 111, 110, 110, 101, 99, 116, 2,
];

/// The most candidates a peer may offer.
pub const MAX_CANDIDATES: usize = 4;

/// An address, an IPv4 one if it is one written as an IPv6 address.
pub open spec fn unmapped(ip: IpAddr) -> IpAddr {
    match ip {
        IpAddr::V6(o) => if all_zero(o@.subrange(0, 10)) && o@[10] == 255 && o@[11] == 255 {
            IpAddr::V4(array_of::<4>(o@.subrange(12, 16)))
        } else {
            ip
        },
        IpAddr::V4(_) => ip,
    }
}

/// A socket address, its host an IPv4 address if it is one.
pub open spec fn plain(a: SocketAddr) -> SocketAddr {
    SocketAddr { ip: unmapped(a.ip), port: a.port }
}

/// Whether a datagram can be sent to an address: not one of no host, of many, or
/// of an unnamed link.
pub open spec fn is_usable(a: SocketAddr) -> bool {
    a.port != 0 && match a.ip {
        IpAddr::V4(o) => {
            &&& o@ != seq![0u8, 0, 0, 0]
            &&& !(224 <= o@[0] < 240)
            &&& o@ != seq![255u8, 255, 255, 255]
        },
        IpAddr::V6(o) => {
            &&& !all_zero(o@)
            &&& o@[0] != 255
            &&& !(o@[0] == 254 && 128 <= o@[1] < 192)
        },
    }
}

fn to_unmapped(ip: IpAddr) -> (r: IpAddr)
    ensures
        r == unmapped(ip),
{
    match ip {
        IpAddr::V6(o) => if leading_zero_bytes(&o, 10) && o[10] == 255 && o[11] == 255 {
            let v4: [u8; 4] = [o[12], o[13], o[14], o[15]];
            proof {
                assert(v4@ =~= o@.subrange(12, 16));
                lemma_array_of(v4);
            }
            IpAddr::V4(v4)
        } else {
            ip
        },
        IpAddr::V4(_) => ip,
    }
}

fn usable(a: &SocketAddr) -> (r: bool)
    ensures
        r == is_usable(*a),
{
    a.port != 0 && match a.ip {
        IpAddr::V4(o) => {
            assert(o@ == seq![0u8, 0, 0, 0] <==> o@[0] == 0 && o@[1] == 0 && o@[2] == 0 && o@[3]
                == 0) by {
                if o@[0] == 0 && o@[1] == 0 && o@[2] == 0 && o@[3] == 0 {
                    assert(o@ =~= seq![0u8, 0, 0, 0]);
                }
            }
            assert(o@ == seq![255u8, 255, 255, 255] <==> o@[0] == 255 && o@[1] == 255 && o@[2]
                == 255 && o@[3] == 255) by {
                if o@[0] == 255 && o@[1] == 255 && o@[2] == 255 && o@[3] == 255 {
                    assert(o@ =~= seq![255u8, 255, 255, 255]);
                }
            }
            !(o[0] == 0 && o[1] == 0 && o[2] == 0 && o[3] == 0) && !(224 <= o[0] && o[0] < 240)
                && !(o[0] == 255 && o[1] == 255 && o[2] == 255 && o[3] == 255)
        },
        IpAddr::V6(o) => {
            assert(o@.subrange(0, 16) =~= o@);
            !leading_zero_bytes(&o, 16) && o[0] != 255 && !(o[0] == 254 && 128 <= o[1] && o[1]
                < 192)
        },
    }
}

/// A port, most significant byte first.
pub open spec fn port_bytes(port: u16) -> Seq<u8> {
    seq![(port / 256) as u8, (port % 256) as u8]
}

/// A candidate as it is sent.
pub open spec fn candidate_bytes(a: SocketAddr) -> Seq<u8> {
    match a.ip {
        IpAddr::V4(o) => seq![4u8] + o@ + port_bytes(a.port),
        IpAddr::V6(o) => seq![6u8] + o@ + port_bytes(a.port),
    }
}

/// Candidates as they are sent.
pub open spec fn candidate_list_bytes(list: Seq<SocketAddr>) -> Seq<u8>
    decreases list.len(),
{
    if list.len() == 0 {
        Seq::empty()
    } else {
        candidate_bytes(list[0]) + candidate_list_bytes(list.skip(1))
    }
}

/// An offer or an answer as it is sent.
pub open spec fn offer_bytes(list: Seq<SocketAddr>, answer: bool) -> Seq<u8> {
    MAGIC@ + seq![
        if answer {
            1u8
        } else {
            0u8
        },
        list.len() as u8,
    ] + candidate_list_bytes(list)
}

/// A candidate read, and the bytes behind it.
pub open spec fn read_candidate(s: Seq<u8>) -> Option<(SocketAddr, Seq<u8>)> {
    if s.len() >= 7 && s[0] == 4 {
        Some(
            (
                SocketAddr {
                    ip: IpAddr::V4(array_of::<4>(s.subrange(1, 5))),
                    port: (s[5] * 256 + s[6]) as u16,
                },
                s.skip(7),
            ),
        )
    } else if s.len() >= 19 && s[0] == 6 {
        Some(
            (
                plain(
                    SocketAddr {
                        ip: IpAddr::V6(array_of::<16>(s.subrange(1, 17))),
                        port: (s[17] * 256 + s[18]) as u16,
                    },
                ),
                s.skip(19),
            ),
        )
    } else {
        None
    }
}

/// `n` candidates read behind those in `seen`, and the bytes behind them. A
/// candidate that cannot be used or was seen spoils the list.
pub open spec fn read_candidates(s: Seq<u8>, n: nat, seen: Seq<SocketAddr>) -> Option<
    (Seq<SocketAddr>, Seq<u8>),
>
    decreases n,
{
    if n == 0 {
        Some((seen, s))
    } else {
        match read_candidate(s) {
            Some((a, rest)) => if is_usable(a) && !seen.contains(a) {
                read_candidates(rest, (n - 1) as nat, seen.push(a))
            } else {
                None
            },
            None => None,
        }
    }
}

/// An offer or an answer read.
pub open spec fn read_offer(s: Seq<u8>, answer: bool) -> Option<Seq<SocketAddr>> {
    let m = MAGIC@.len() as int;
    if s.len() >= m + 2 && s.subrange(0, m) == MAGIC@ && s[m] == (if answer {
        1u8
    } else {
        0u8
    }) && 1 <= s[m + 1] <= MAX_CANDIDATES {
        match read_candidates(s.skip(m + 2), s[m + 1] as nat, Seq::empty()) {
            Some((list, rest)) => if rest.len() == 0 {
                Some(list)
            } else {
                None
            },
            None => None,
        }
    } else {
        None
    }
}

/// Whether a list can be offered: neither empty nor too long, and each address
/// usable and listed once.
pub open spec fn can_offer(list: Seq<SocketAddr>) -> bool {
    &&& 1 <= list.len() <= MAX_CANDIDATES
    &&& forall|i: int| 0 <= i < list.len() ==> is_usable(plain(#[trigger] list[i]))
    &&& forall|i: int, j: int|
        0 <= i < j < list.len() ==> plain(#[trigger] list[i]) != plain(#[trigger] list[j])
}

/// Each address of a list in its plain form.
pub open spec fn plain_list(list: Seq<SocketAddr>) -> Seq<SocketAddr> {
    list.map_values(|a: SocketAddr| plain(a))
}

proof fn lemma_list_push(list: Seq<SocketAddr>, a: SocketAddr)
    ensures
        candidate_list_bytes(list.push(a)) == candidate_list_bytes(list) + candidate_bytes(a),
    decreases list.len(),
{
    if list.len() == 0 {
        assert(list.push(a).skip(1) =~= Seq::<SocketAddr>::empty());
        assert(candidate_list_bytes(list.push(a).skip(1)) =~= Seq::<u8>::empty());
        assert(candidate_list_bytes(list.push(a)) =~= candidate_list_bytes(list)
            + candidate_bytes(a));
    } else {
        lemma_list_push(list.skip(1), a);
        assert(list.push(a).skip(1) =~= list.skip(1).push(a));
        assert(candidate_list_bytes(list.push(a)) =~= candidate_list_bytes(list)
            + candidate_bytes(a));
    }
}

proof fn lemma_candidate_roundtrip(a: SocketAddr, rest: Seq<u8>)
    ensures
        read_candidate(candidate_bytes(a) + rest) == Some((plain(a), rest)),
{
    let s = candidate_bytes(a) + rest;
    assert((a.port / 256) * 256 + a.port % 256 == a.port);
    match a.ip {
        IpAddr::V4(o) => {
            assert(s.subrange(1, 5) =~= o@);
            lemma_array_of(o);
            assert(s.skip(7) =~= rest);
        },
        IpAddr::V6(o) => {
            assert(s.subrange(1, 17) =~= o@);
            lemma_array_of(o);
            assert(s.skip(19) =~= rest);
        },
    }
}

spec fn fresh(list: Seq<SocketAddr>, seen: Seq<SocketAddr>) -> bool {
    &&& forall|i: int|
        0 <= i < list.len() ==> is_usable(plain(#[trigger] list[i])) && !seen.contains(
            plain(list[i]),
        )
    &&& forall|i: int, j: int|
        0 <= i < j < list.len() ==> plain(#[trigger] list[i]) != plain(#[trigger] list[j])
}

proof fn lemma_fresh(list: Seq<SocketAddr>, seen: Seq<SocketAddr>)
    requires
        list.len() > 0,
    ensures
        fresh(list, seen) <==> is_usable(plain(list[0])) && !seen.contains(plain(list[0])) && fresh(
            list.skip(1),
            seen.push(plain(list[0])),
        ),
{
    let a = plain(list[0]);
    let tail = list.skip(1);
    let more = seen.push(a);
    assert forall|x: SocketAddr| #[trigger] more.contains(x) <==> seen.contains(x) || x == a by {
        crate::lists::lemma_push_contains(seen, a, x);
    }
    assert forall|i: int| 0 <= i < tail.len() implies #[trigger] tail[i] == list[i + 1] by {}
    if fresh(list, seen) {
        assert forall|i: int| 0 <= i < tail.len() implies is_usable(plain(#[trigger] tail[i]))
            && !more.contains(plain(tail[i])) by {
            assert(plain(list[0]) != plain(list[i + 1]));
        }
    }
    if is_usable(a) && !seen.contains(a) && fresh(tail, more) {
        assert forall|i: int| 0 <= i < list.len() implies is_usable(plain(#[trigger] list[i]))
            && !seen.contains(plain(list[i])) by {
            if i > 0 {
                assert(tail[i - 1] == list[i]);
            }
        }
        assert forall|i: int, j: int| 0 <= i < j < list.len() implies plain(#[trigger] list[i])
            != plain(#[trigger] list[j]) by {
            assert(tail[j - 1] == list[j]);
            if i > 0 {
                assert(tail[i - 1] == list[i]);
            } else {
                assert(!more.contains(plain(tail[j - 1])));
                assert(more.contains(a));
            }
        }
    }
}

proof fn lemma_list_roundtrip(list: Seq<SocketAddr>, rest: Seq<u8>, seen: Seq<SocketAddr>)
    ensures
        read_candidates(candidate_list_bytes(list) + rest, list.len(), seen) == (if fresh(
            list,
            seen,
        ) {
            Some((seen + plain_list(list), rest))
        } else {
            None
        }),
    decreases list.len(),
{
    let s = candidate_list_bytes(list) + rest;
    if list.len() == 0 {
        assert(s =~= rest);
        assert(seen + plain_list(list) =~= seen);
    } else {
        let a = plain(list[0]);
        let behind = candidate_list_bytes(list.skip(1)) + rest;
        assert(s =~= candidate_bytes(list[0]) + behind);
        lemma_candidate_roundtrip(list[0], behind);
        lemma_fresh(list, seen);
        lemma_list_roundtrip(list.skip(1), rest, seen.push(a));
        assert(seen.push(a) + plain_list(list.skip(1)) =~= seen + plain_list(list));
    }
}

/// What was offered is what is read, in its plain form; and only a list that can
/// be offered is read at all.
pub proof fn law_candidates_roundtrip(list: Seq<SocketAddr>, answer: bool)
    requires
        1 <= list.len() <= MAX_CANDIDATES,
    ensures
        read_offer(offer_bytes(list, answer), answer) == (if can_offer(list) {
            Some(plain_list(list))
        } else {
            None
        }),
{
    let m = MAGIC@.len() as int;
    let s = offer_bytes(list, answer);
    assert(s.subrange(0, m) =~= MAGIC@);
    assert(s.skip(m + 2) =~= candidate_list_bytes(list) + Seq::<u8>::empty());
    lemma_list_roundtrip(list, Seq::empty(), Seq::empty());
    assert(fresh(list, Seq::empty()) == can_offer(list)) by {
        assert(forall|x: SocketAddr| !(#[trigger] Seq::<SocketAddr>::empty().contains(x)));
    }
    assert(Seq::<SocketAddr>::empty() + plain_list(list) =~= plain_list(list));
}

proof fn lemma_candidates_extend(s: Seq<u8>, n: nat, seen: Seq<SocketAddr>, more: Seq<u8>)
    requires
        read_candidates(s, n, seen) is Some,
    ensures
        ({
            let (list, rest) = read_candidates(s, n, seen)->Some_0;
            read_candidates(s + more, n, seen) == Some((list, rest + more))
        }),
    decreases n,
{
    if n > 0 {
        let (a, rest) = read_candidate(s)->Some_0;
        let t = s + more;
        assert(read_candidate(t) == Some((a, rest + more))) by {
            if s[0] == 4 {
                assert(t.subrange(1, 5) =~= s.subrange(1, 5));
                assert(t.skip(7) =~= rest + more);
            } else {
                assert(t.subrange(1, 17) =~= s.subrange(1, 17));
                assert(t.skip(19) =~= rest + more);
            }
        }
        lemma_candidates_extend(rest, (n - 1) as nat, seen.push(a), more);
    }
}

/// What is read is whole: with anything behind it, it is refused.
pub proof fn law_trailing_bytes_are_refused(s: Seq<u8>, answer: bool, more: Seq<u8>)
    requires
        read_offer(s, answer) is Some,
        more.len() > 0,
    ensures
        read_offer(s + more, answer) is None,
{
    let m = MAGIC@.len() as int;
    let t = s + more;
    assert(t.subrange(0, m) =~= s.subrange(0, m));
    assert(t.skip(m + 2) =~= s.skip(m + 2) + more);
    lemma_candidates_extend(s.skip(m + 2), s[m + 1] as nat, Seq::empty(), more);
}

/// What is read is whole: no shorter front of it is read.
pub proof fn law_truncated_bytes_are_refused(s: Seq<u8>, answer: bool, len: int)
    requires
        read_offer(s, answer) is Some,
        0 <= len < s.len(),
    ensures
        read_offer(s.take(len), answer) is None,
{
    if read_offer(s.take(len), answer) is Some {
        law_trailing_bytes_are_refused(s.take(len), answer, s.skip(len));
        assert(s.take(len) + s.skip(len) =~= s);
    }
}

/// An offer is not taken for an answer, nor an answer for an offer.
pub proof fn law_offer_is_no_answer(s: Seq<u8>, answer: bool)
    requires
        read_offer(s, answer) is Some,
    ensures
        read_offer(s, !answer) is None,
{
}

/// Whatever is read could have been offered as it stands.
pub proof fn law_read_candidates_are_usable(s: Seq<u8>, answer: bool)
    requires
        read_offer(s, answer) is Some,
    ensures
        1 <= read_offer(s, answer)->Some_0.len() <= MAX_CANDIDATES,
        read_offer(s, answer)->Some_0.no_duplicates(),
        forall|i: int|
            0 <= i < read_offer(s, answer)->Some_0.len() ==> is_usable(
                #[trigger] read_offer(s, answer)->Some_0[i],
            ),
{
    let m = MAGIC@.len() as int;
    lemma_read_usable(s.skip(m + 2), s[m + 1] as nat, Seq::empty());
}

proof fn lemma_read_usable(s: Seq<u8>, n: nat, seen: Seq<SocketAddr>)
    requires
        read_candidates(s, n, seen) is Some,
        seen.no_duplicates(),
        forall|i: int| 0 <= i < seen.len() ==> is_usable(#[trigger] seen[i]),
    ensures
        ({
            let list = read_candidates(s, n, seen)->Some_0.0;
            &&& list.len() == seen.len() + n
            &&& list.no_duplicates()
            &&& forall|i: int| 0 <= i < list.len() ==> is_usable(#[trigger] list[i])
        }),
    decreases n,
{
    if n > 0 {
        let (a, rest) = read_candidate(s)->Some_0;
        let more = seen.push(a);
        assert(more.no_duplicates()) by {
            assert forall|i: int, j: int| 0 <= i < j < more.len() implies more[i] != more[j] by {
                if j == seen.len() {
                    assert(seen.contains(seen[i]));
                }
            }
        }
        lemma_read_usable(rest, (n - 1) as nat, more);
    }
}

/// An offer, or an answer, of candidate addresses. `None` if the list is empty or
/// too long, or holds an address that cannot be used or is listed twice.
pub fn encode_candidates(addresses: &[SocketAddr], answer: bool) -> (r: Option<Vec<u8>>)
    ensures
        can_offer(addresses@) ==> r is Some && r->Some_0@ == offer_bytes(addresses@, answer),
        !can_offer(addresses@) ==> r is None,
{
    let count: usize = addresses.len();
    if count == 0 || count > MAX_CANDIDATES {
        return None;
    }
    let mut bytes: Vec<u8> = Vec::new();
    append(&mut bytes, &MAGIC);
    bytes.push(
        if answer {
            1
        } else {
            0
        },
    );
    bytes.push(count as u8);
    let ghost head = bytes@;
    let mut i: usize = 0;
    assert(addresses@.take(0) =~= Seq::<SocketAddr>::empty());
    assert(head + candidate_list_bytes(Seq::empty()) =~= head);
    while i < count
        invariant
            i <= count,
            count == addresses@.len(),
            bytes@ == head + candidate_list_bytes(addresses@.take(i as int)),
        decreases count - i,
    {
        let a: SocketAddr = addresses[i];
        match a.ip {
            IpAddr::V4(o) => {
                bytes.push(4);
                append(&mut bytes, &o);
            },
            IpAddr::V6(o) => {
                bytes.push(6);
                append(&mut bytes, &o);
            },
        }
        bytes.push((a.port / 256) as u8);
        bytes.push((a.port % 256) as u8);
        proof {
            lemma_list_push(addresses@.take(i as int), a);
            assert(addresses@.take(i as int).push(a) =~= addresses@.take(i + 1));
            assert(bytes@ =~= head + (candidate_list_bytes(addresses@.take(i as int))
                + candidate_bytes(a)));
        }
        i += 1;
    }
    proof {
        assert(addresses@.take(count as int) =~= addresses@);
        assert(bytes@ =~= offer_bytes(addresses@, answer));
        law_candidates_roundtrip(addresses@, answer);
    }
    match decode_candidates(bytes.as_slice(), answer) {
        Some(_) => Some(bytes),
        None => None,
    }
}

/// The candidates of an offer, or of an answer, in their plain form.
pub fn decode_candidates(bytes: &[u8], answer: bool) -> (r: Option<Vec<SocketAddr>>)
    ensures
        match read_offer(bytes@, answer) {
            Some(list) => r is Some && r->Some_0@ == list,
            None => r is None,
        },
{
    let len: usize = bytes.len();
    let m: usize = MAGIC.len();
    if len < m + 2 || !same_bytes(part(bytes, 0, m), &MAGIC) {
        return None;
    }
    let role: u8 = if answer {
        1
    } else {
        0
    };
    let count: u8 = bytes[m + 1];
    if bytes[m] != role || count < 1 || count > 4 {
        return None;
    }
    let mut addresses: Vec<SocketAddr> = Vec::new();
    let mut at: usize = m + 2;
    let mut i: u8 = 0;
    while i < count
        invariant
            i <= count,
            len == bytes@.len(),
            at <= len,
            m == MAGIC@.len(),
            len >= m + 2,
            bytes@.subrange(0, m as int) == MAGIC@,
            bytes@[m as int] == (if answer {
                1u8
            } else {
                0u8
            }),
            count == bytes@[m + 1],
            1 <= count <= MAX_CANDIDATES,
            read_candidates(bytes@.skip(m + 2), count as nat, Seq::empty()) == read_candidates(
                bytes@.skip(at as int),
                (count - i) as nat,
                addresses@,
            ),
        decreases count - i,
    {
        let ghost s = bytes@.skip(at as int);
        if at == len {
            return None;
        }
        let family: u8 = bytes[at];
        let size: usize = if family == 4 {
            4
        } else if family == 6 {
            16
        } else {
            return None;
        };
        if len - at < size + 3 {
            return None;
        }
        let ip: IpAddr = if family == 4 {
            let o: [u8; 4] = to_array(part(bytes, at + 1, at + 5));
            proof {
                assert(o@ =~= s.subrange(1, 5));
                lemma_array_of(o);
            }
            IpAddr::V4(o)
        } else {
            let o: [u8; 16] = to_array(part(bytes, at + 1, at + 17));
            proof {
                assert(o@ =~= s.subrange(1, 17));
                lemma_array_of(o);
            }
            to_unmapped(IpAddr::V6(o))
        };
        let port: u16 = bytes[at + size + 1] as u16 * 256 + bytes[at + size + 2] as u16;
        let address = SocketAddr::new(ip, port);
        proof {
            assert(s.skip(size + 3) =~= bytes@.skip(at + size + 3));
            assert(read_candidate(s) == Some((address, s.skip(size + 3))));
        }
        if !usable(&address) || contains_addr(&addresses, &address) {
            return None;
        }
        addresses.push(address);
        at = at + size + 3;
        i += 1;
    }
    if at != len {
        return None;
    }
    Some(addresses)
}

/// An IPv4 address written as an IPv6 one is that IPv4 address, and every other address is
/// itself.
pub proof fn law_mapped_addresses_are_plain(o: [u8; 16], v4: [u8; 4], port: u16)
    ensures
        (forall|i: int| 0 <= i < 10 ==> (#[trigger] o@[i]) == 0) && o@[10] == 255 && o@[11] == 255
            && v4@ == o@.subrange(12, 16) ==> plain(SocketAddr { ip: IpAddr::V6(o), port }) == (
        SocketAddr { ip: IpAddr::V4(v4), port }),
        (exists|i: int| 0 <= i < 10 && (#[trigger] o@[i]) != 0) || o@[10] != 255 || o@[11] != 255
            ==> plain(SocketAddr { ip: IpAddr::V6(o), port }) == (SocketAddr {
            ip: IpAddr::V6(o),
            port,
        }),
        plain(SocketAddr { ip: IpAddr::V4(v4), port }) == (SocketAddr { ip: IpAddr::V4(v4), port }),
{
    let s = o@.subrange(0, 10);
    assert(all_zero(s) <==> forall|i: int| 0 <= i < 10 ==> (#[trigger] o@[i]) == 0) by {
        if all_zero(s) {
            assert forall|i: int| 0 <= i < 10 implies (#[trigger] o@[i]) == 0 by {
                assert(s[i] == o@[i]);
            }
        }
        if forall|i: int| 0 <= i < 10 ==> (#[trigger] o@[i]) == 0 {
            assert forall|i: int| 0 <= i < s.len() implies s[i] == 0 by {
                assert(s[i] == o@[i]);
            }
        }
    }
    lemma_array_of(v4);
}

/// What is no single host is no candidate: no port, no host, many hosts, everyone, or an
/// address of an unnamed link; any other address is.
pub proof fn law_candidates_are_single_hosts(a: [u8; 4], b: [u8; 16], port: u16)
    ensures
        is_usable(SocketAddr { ip: IpAddr::V4(a), port }) <==> port != 0 && !(a@[0] == 0 && a@[1]
            == 0 && a@[2] == 0 && a@[3] == 0) && !(224 <= a@[0] && a@[0] <= 239) && !(a@[0] == 255
            && a@[1] == 255 && a@[2] == 255 && a@[3] == 255),
        is_usable(SocketAddr { ip: IpAddr::V6(b), port }) <==> port != 0 && (exists|i: int|
            0 <= i < 16 && (#[trigger] b@[i]) != 0) && b@[0] != 0xff && !(b@[0] == 0xfe && 0x80
            <= b@[1] && b@[1] <= 0xbf),
{
    if a@[0] == 0 && a@[1] == 0 && a@[2] == 0 && a@[3] == 0 {
        assert(a@ =~= seq![0u8, 0, 0, 0]);
    }
    if a@[0] == 255 && a@[1] == 255 && a@[2] == 255 && a@[3] == 255 {
        assert(a@ =~= seq![255u8, 255, 255, 255]);
    }
}

} // verus!
