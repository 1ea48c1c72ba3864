//! Ids, packets, firewall classification, NAT boxes and punch strategies.
use warren::addr::{IpAddr, SocketAddr};
use warren::firewall::Firewall::{Consistent, Open, Random};
use warren::firewall::{Firewall, NatSampler};
use warren::id::{Distance, NodeId, ID_LEN};
use warren::msg::{Message, MsgError, Packet};
use warren::natbox::NatBox;
use warren::punch::{attempt_punch, plan, simulate_birthday, Outcome, PunchParams, Strategy};
use warren::rng::Rng;
use warren::routing::Contact;
use warren::wire::{Encoder, WireError};

fn id(byte: u8) -> NodeId {
    NodeId::from_bytes([byte; ID_LEN])
}

#[test]
fn distance_to_self_is_zero() {
    assert_eq!(id(0xab).distance(&id(0xab)), Distance::zero());
    assert_eq!(id(0xab).distance(&id(0xab)).leading_zeros(), 256);
}

#[test]
fn distance_is_symmetric() {
    let a = id(0x0f);
    let b = id(0xf0);
    assert_eq!(a.distance(&b), b.distance(&a));
}

#[test]
fn leading_zeros_locates_first_differing_bit() {
    let a = NodeId::from_bytes([0u8; ID_LEN]);
    let mut b = [0u8; ID_LEN];
    // Differ only at bit 0 of byte 1 -> 8 leading zero bits.
    b[1] = 0b1000_0000;
    let d = a.distance(&NodeId::from_bytes(b));
    assert_eq!(d.leading_zeros(), 8);
}

#[test]
fn closer_ids_have_smaller_distance() {
    let target = id(0x00);
    let near = NodeId::from_bytes({
        let mut x = [0u8; ID_LEN];
        x[0] = 0x01;
        x
    });
    let far = id(0xff);
    assert!(target.distance(&near) < target.distance(&far));
}

fn roundtrip(p: &Packet) {
    let bytes = p.encode();
    let back = Packet::decode(&bytes).unwrap();
    assert_eq!(*p, back);
}

#[test]
fn ping_pong_roundtrip() {
    roundtrip(&Packet {
        sender: id(1),
        rid: 7,
        msg: Message::Ping,
    });
    roundtrip(&Packet {
        sender: id(2),
        rid: 8,
        msg: Message::Pong {
            observed: SocketAddr::new(IpAddr::V4([9, 9, 9, 9]), 42),
        },
    });
}

#[test]
fn find_node_roundtrip() {
    roundtrip(&Packet {
        sender: id(3),
        rid: 42,
        msg: Message::FindNode { target: id(9) },
    });
}

fn addr4(port: u16) -> SocketAddr {
    SocketAddr::new(IpAddr::V4([1, 2, 3, 4]), port)
}

fn localhost6(port: u16) -> SocketAddr {
    let mut o = [0u8; 16];
    o[15] = 1;
    SocketAddr::new(IpAddr::V6(o), port)
}

#[test]
fn nodes_roundtrip_both_families() {
    let contacts = vec![
        Contact::new(id(10), addr4(5000)),
        Contact::new(id(11), localhost6(6000)),
    ];
    let peers = vec![Contact::new(id(12), addr4(7000))];
    roundtrip(&Packet {
        sender: id(4),
        rid: 100,
        msg: Message::Nodes { contacts, peers },
    });
    // Empty peers list is the common case and must round-trip too.
    roundtrip(&Packet {
        sender: id(4),
        rid: 101,
        msg: Message::Nodes {
            contacts: vec![Contact::new(id(10), addr4(5000))],
            peers: vec![],
        },
    });
}

#[test]
fn announce_roundtrip() {
    roundtrip(&Packet {
        sender: id(5),
        rid: 1,
        msg: Message::Announce { topic: id(99) },
    });
}

#[test]
fn signal_roundtrip() {
    for (firewall, is_reply) in [
        (Firewall::Open, false),
        (Firewall::Consistent, true),
        (Firewall::Random, false),
    ] {
        roundtrip(&Packet {
            sender: id(6),
            rid: 3,
            msg: Message::Signal {
                target: id(20),
                initiator: id(21),
                initiator_addr: addr4(9000),
                data_addrs: vec![addr4(9001), localhost6(9002)],
                firewall,
                is_reply,
            },
        });
    }
}

#[test]
fn reflect_roundtrip() {
    roundtrip(&Packet {
        sender: id(6),
        rid: u64::MAX,
        msg: Message::Reflect,
    });
    roundtrip(&Packet {
        sender: id(6),
        rid: 0,
        msg: Message::Reflected {
            observed: localhost6(65535),
        },
    });
}

#[test]
fn unknown_kind_is_rejected() {
    let mut enc = Encoder::new();
    enc.raw(id(1).as_bytes());
    enc.uint(1);
    enc.u8(99);
    assert_eq!(
        Packet::decode(&enc.into_vec()),
        Err(MsgError::Malformed("unknown message kind"))
    );
}

#[test]
fn trailing_bytes_are_rejected() {
    let mut bytes = Packet {
        sender: id(1),
        rid: 1,
        msg: Message::Ping,
    }
    .encode();
    bytes.push(0xff);
    assert!(matches!(
        Packet::decode(&bytes),
        Err(MsgError::Wire(WireError::TrailingBytes(1)))
    ));
}

#[test]
fn a_packet_has_one_exact_layout() {
    let bytes = Packet {
        sender: id(7),
        rid: 300,
        msg: Message::Announce { topic: id(9) },
    }
    .encode();
    let mut expected = vec![7u8; 32];
    // 300 in groups of seven bits, the low group first.
    expected.extend_from_slice(&[0xac, 0x02]);
    expected.push(5);
    expected.extend_from_slice(&[9u8; 32]);
    assert_eq!(bytes, expected);
}

fn addr(host: [u8; 4], port: u16) -> SocketAddr {
    SocketAddr::new(IpAddr::V4(host), port)
}

#[test]
fn too_few_samples_is_undecided() {
    let mut s = NatSampler::new();
    s.add(addr([1, 2, 3, 4], 1000));
    s.add(addr([1, 2, 3, 4], 1000));
    assert_eq!(s.classify(false), None);
}

#[test]
fn stable_port_while_reachable_is_open() {
    let mut s = NatSampler::new();
    for _ in 0..3 {
        s.add(addr([1, 2, 3, 4], 1000));
    }
    assert_eq!(s.classify(true), Some(Firewall::Open));
}

#[test]
fn stable_port_while_firewalled_is_consistent() {
    let mut s = NatSampler::new();
    for _ in 0..4 {
        s.add(addr([1, 2, 3, 4], 1000));
    }
    assert_eq!(s.classify(false), Some(Firewall::Consistent));
}

#[test]
fn one_port_at_many_hosts_is_consistent() {
    let mut s = NatSampler::new();
    s.add(addr([1, 2, 3, 4], 1000));
    s.add(addr([1, 2, 3, 5], 1000));
    s.add(addr([1, 2, 3, 6], 1000));
    assert_eq!(s.classify(false), Some(Firewall::Consistent));
    assert_eq!(s.classify(true), Some(Firewall::Open));
}

#[test]
fn varying_ports_is_random() {
    let mut s = NatSampler::new();
    s.add(addr([1, 2, 3, 4], 1000));
    s.add(addr([1, 2, 3, 4], 2000));
    s.add(addr([1, 2, 3, 4], 3000));
    s.add(addr([1, 2, 3, 4], 4000));
    assert_eq!(s.classify(false), Some(Firewall::Random));
}

#[test]
fn two_of_four_matching_is_not_enough_for_consistent() {
    // Only a majority-but-under-3 repeat is still treated as random,
    // matching the conservative HyperDHT threshold.
    let mut s = NatSampler::new();
    s.add(addr([1, 2, 3, 4], 1000));
    s.add(addr([1, 2, 3, 4], 1000));
    s.add(addr([1, 2, 3, 4], 2000));
    s.add(addr([1, 2, 3, 4], 3000));
    assert_eq!(s.classify(false), Some(Firewall::Random));
}

#[test]
fn reports_majority_host() {
    let mut s = NatSampler::new();
    s.add(addr([9, 9, 9, 9], 1));
    s.add(addr([9, 9, 9, 9], 2));
    s.add(addr([1, 1, 1, 1], 3));
    assert_eq!(s.host(), Some(IpAddr::V4([9, 9, 9, 9])));
    assert_eq!(s.len(), 3);
    assert!(!s.is_empty());
}

fn host(d: u8) -> IpAddr {
    IpAddr::V4([10, 0, 0, d])
}

fn dest(d: u8, port: u16) -> SocketAddr {
    SocketAddr::new(host(d), port)
}

#[test]
fn consistent_mapping_is_endpoint_independent() {
    let mut nat = NatBox::new(Firewall::Consistent, host(1));
    let s = nat.open_socket();
    let a = nat.send(s, dest(2, 100));
    let b = nat.send(s, dest(3, 200));
    assert_eq!(a.port, b.port, "same socket must map to one stable port");
}

#[test]
fn random_mapping_is_per_destination() {
    let mut nat = NatBox::new(Firewall::Random, host(1));
    let s = nat.open_socket();
    let a = nat.send(s, dest(2, 100));
    let b = nat.send(s, dest(3, 200));
    assert_ne!(a.port, b.port, "symmetric NAT must vary port per dest");
}

#[test]
fn address_restricted_filter_blocks_unsolicited() {
    let mut nat = NatBox::new(Firewall::Consistent, host(1));
    let s = nat.open_socket();
    let ext = nat.send(s, dest(2, 100));
    // Reply from the destination we contacted is admitted...
    assert_eq!(nat.recv(ext.port, dest(2, 100)), Some(s));
    // ...but an unsolicited source is dropped.
    assert_eq!(nat.recv(ext.port, dest(9, 999)), None);
}

#[test]
fn open_admits_any_source() {
    let mut nat = NatBox::new(Firewall::Open, host(1));
    let s = nat.open_socket();
    let ext = nat.send(s, dest(2, 100));
    assert_eq!(nat.recv(ext.port, dest(9, 999)), Some(s));
}

#[test]
fn recv_on_unmapped_port_is_none() {
    let nat = NatBox::new(Firewall::Open, host(1));
    assert_eq!(nat.recv(4242, dest(2, 100)), None);
}

#[test]
fn strategy_table_is_correct() {
    assert_eq!(plan(Open, Open), Strategy::Direct);
    assert_eq!(plan(Open, Random), Strategy::Direct);
    assert_eq!(plan(Random, Open), Strategy::Direct);
    assert_eq!(plan(Consistent, Consistent), Strategy::Direct);
    assert_eq!(plan(Consistent, Open), Strategy::Direct);
    assert_eq!(plan(Consistent, Random), Strategy::SprayRandomPorts);
    assert_eq!(plan(Random, Consistent), Strategy::OpenBirthdaySockets);
    assert_eq!(plan(Random, Random), Strategy::Relay);
}

#[test]
fn direct_pairs_never_need_a_relay() {
    let mut rng = Rng::new(1);
    let p = PunchParams::default();
    for pair in [(Open, Open), (Consistent, Consistent), (Open, Random)] {
        assert_eq!(attempt_punch(pair.0, pair.1, &mut rng, &p), Outcome::Direct);
    }
}

#[test]
fn double_random_always_relays() {
    let mut rng = Rng::new(2);
    let p = PunchParams::default();
    assert_eq!(
        attempt_punch(Random, Random, &mut rng, &p),
        Outcome::Relayed
    );
}

#[test]
fn tiny_params_almost_never_collide() {
    // One socket, one guess: collision probability ~1/64512.
    let params = PunchParams {
        birthday_sockets: 1,
        spray_probes: 1,
        ..PunchParams::default()
    };
    let mut rng = Rng::new(42);
    let trials = 2000;
    let hits = (0..trials)
        .filter(|_| simulate_birthday(&mut rng, &params))
        .count();
    assert!(
        hits < 5,
        "expected near-zero collisions, got {hits}/{trials}"
    );
}

#[test]
fn the_generator_gives_the_known_sequence() {
    let mut rng = Rng::new(0);
    assert_eq!(rng.next_u64(), 0xe220_a839_7b1d_cdaf);
    assert_eq!(rng.next_u64(), 0x6e78_9e6a_a1b9_65f4);
    let mut again = Rng::new(0);
    let id = again.node_id();
    assert_eq!(id.as_bytes()[..8], 0xe220_a839_7b1d_cdafu64.to_le_bytes());
}
