//! Beacons on the local network.
use warren::addr::{IpAddr, SocketAddr};
use warren::crypto::{Digest, Keypair};
use warren::lan::{Beacon, LanError, Peers};

/// The address written as `a.b.c.d:port`.
fn addr(s: &str) -> SocketAddr {
    let (host, port) = s.split_once(':').unwrap();
    let parts: Vec<u8> = host.split('.').map(|p| p.parse().unwrap()).collect();
    SocketAddr::new(
        IpAddr::V4([parts[0], parts[1], parts[2], parts[3]]),
        port.parse().unwrap(),
    )
}

fn hash(bytes: &[u8]) -> Digest {
    *blake3::hash(bytes).as_bytes()
}

fn kp(seed: u8) -> Keypair {
    Keypair::from_seed(&[seed; 32])
}

fn beacon(seed: u8, topics: &[u8]) -> Beacon {
    let addrs = vec![addr("192.168.1.7:41800")];
    let topics = topics.iter().map(|&b| hash(&[b])).collect();
    Beacon::sign(&kp(seed), addrs, topics)
}

#[test]
fn beacon_round_trips_and_verifies() {
    let b = beacon(1, &[10, 20]);
    let decoded = Beacon::decode(&b.encode()).unwrap();
    assert_eq!(decoded.key, b.key);
    assert_eq!(decoded.addrs, b.addrs);
    assert_eq!(decoded.topics, b.topics);
    assert!(decoded.verify(), "a faithfully-decoded beacon verifies");
    assert_eq!(decoded.node_id(), b.node_id());
}

#[test]
fn a_tampered_beacon_fails_to_verify() {
    let mut b = beacon(2, &[10]);
    // Change an advertised address the signature covers.
    b.addrs = vec![addr("10.0.0.9:1234")];
    assert!(!b.verify(), "mutating a signed field breaks the signature");
}

#[test]
fn decode_rejects_bad_version_and_never_panics_on_garbage() {
    // Wrong version.
    let mut b = beacon(3, &[1]).encode();
    b[0] = 99;
    assert!(matches!(Beacon::decode(&b), Err(LanError::Version(99))));
    // Arbitrary / truncated bytes never panic.
    for len in 0..80usize {
        let junk: Vec<u8> = (0..len).map(|i| (i as u8).wrapping_mul(31)).collect();
        let _ = Beacon::decode(&junk);
    }
}

#[test]
fn observe_records_a_matching_peer_and_skips_others() {
    let me = beacon(1, &[]).node_id();
    let ours = vec![hash(&[10]), hash(&[20])];
    let mut peers = Peers::new();

    // A same-topic peer is recorded + returned.
    let friend = beacon(2, &[20, 30]);
    assert_eq!(
        peers.observe(&friend, 1000, me, &ours),
        Some((friend.node_id(), friend.addrs[0]))
    );
    assert_eq!(peers.fresh(1000, 5000).len(), 1);

    // A different-channel peer is ignored.
    let stranger = beacon(3, &[40, 50]);
    assert_eq!(peers.observe(&stranger, 1000, me, &ours), None);

    // Our own looped-back beacon is ignored.
    let mine = beacon(1, &[10]);
    assert_eq!(peers.observe(&mine, 1000, me, &ours), None);

    assert_eq!(
        peers.fresh(1000, 5000).len(),
        1,
        "only the friend is a provider"
    );
}

#[test]
fn a_tampered_beacon_is_not_recorded() {
    let me = beacon(1, &[]).node_id();
    let ours = vec![hash(&[10])];
    let mut peers = Peers::new();
    let mut forged = beacon(2, &[10]);
    forged.sig = beacon(9, &[10]).sig; // wrong signature
    assert_eq!(peers.observe(&forged, 1, me, &ours), None);
    assert!(peers.fresh(1, 5000).is_empty());
}

#[test]
fn providers_expire_after_the_ttl() {
    let me = beacon(1, &[]).node_id();
    let ours = vec![hash(&[10])];
    let mut peers = Peers::new();
    let friend = beacon(2, &[10]);
    peers.observe(&friend, 1000, me, &ours);

    assert_eq!(peers.fresh(4000, 5000).len(), 1, "within ttl");
    assert_eq!(
        peers.fresh(7000, 5000).len(),
        0,
        "past ttl (not yet expired)"
    );
    peers.expire(7000, 5000);
    assert!(
        peers.fresh(7000, 5000).is_empty(),
        "expired entries dropped"
    );

    // A fresh beacon revives the peer.
    peers.observe(&friend, 8000, me, &ours);
    assert_eq!(peers.fresh(8000, 5000).len(), 1);
}
