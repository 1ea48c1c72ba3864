//! Every way a message can be malformed, and the limits of what is kept.
use warren::addr::{is_public, same_network, IpAddr, SocketAddr};
use warren::blob::{BlobError, Manifest, Store};
use warren::crypto::{CryptoError, Keypair};
use warren::dht::{Dht, Event};
use warren::discovery::topic_of;
use warren::feed::{FeedError, Head, Proof};
use warren::feed_window::FeedWindow;
use warren::firewall::Firewall;
use warren::id::{Distance, NodeId};
use warren::lan::{Beacon, LanError, Peers, BEACON_VERSION};
use warren::msg::{Message, MsgError, Packet};
use warren::natbox::NatBox;
use warren::punch::{packet_punch, simulate_birthday, Outcome, PunchParams};
use warren::record::{
    judge, AnnouncementStore, CapabilityIssuer, RecordError, SignedAnnouncement,
    StoredAnnouncement, WriteCapability, MAX_RECORDS_PER_TOPIC, MAX_RECORD_LIFETIME_MS,
};
use warren::rng::Rng;
use warren::routing::{Admission, Contact, RoutingTable};
use warren::sim::{NatKind, Sim};
use warren::sync::FeedDownload;
use warren::sync_msg::{self, SyncError};
use warren::wire::{Decoder, Encoder, WireError};

fn v4(a: u8, b: u8, c: u8, d: u8) -> IpAddr {
    IpAddr::V4([a, b, c, d])
}

fn at(port: u16) -> SocketAddr {
    SocketAddr::new(v4(192, 0, 2, 1), port)
}

fn id(b: u8) -> NodeId {
    NodeId::from_bytes([b; 32])
}

fn key(n: u8) -> Keypair {
    Keypair::from_seed(&[n; 32])
}

/// Bytes that are no public key.
fn invalid_key() -> [u8; 32] {
    (0..=255u8)
        .map(|b| [b; 32])
        .find(|k| ed25519_dalek::VerifyingKey::from_bytes(k).is_err())
        .unwrap()
}

#[test]
fn integers_are_read_as_they_are_written() {
    for (n, bytes) in [
        (0u64, vec![0u8]),
        (127, vec![0x7f]),
        (128, vec![0x80, 0x01]),
        (300, vec![0xac, 0x02]),
        (
            u64::MAX,
            vec![0xff, 0xff, 0xff, 0xff, 0xff, 0xff, 0xff, 0xff, 0xff, 0x01],
        ),
    ] {
        let mut enc = Encoder::new();
        enc.uint(n);
        assert_eq!(enc.into_vec(), bytes);
        let mut dec = Decoder::new(&bytes);
        assert_eq!(dec.uint(), Ok(n));
        assert_eq!(dec.finish(), Ok(()));
    }
    let mut over = vec![0xff; 9];
    over.push(0x02);
    assert_eq!(
        Decoder::new(&over).uint(),
        Err(WireError::VarintOverflow)
    );
    assert_eq!(
        Decoder::new(&[0x80]).uint(),
        Err(WireError::UnexpectedEnd)
    );
    let mut dec = Decoder::new(&[3, 1, 2]);
    assert_eq!(dec.bytes(), Err(WireError::UnexpectedEnd));
    let mut dec = Decoder::new(&[2, 1, 2, 9]);
    assert_eq!(dec.bytes(), Ok(&[1u8, 2][..]));
    assert_eq!(dec.remaining(), 1);
    assert_eq!(dec.finish(), Err(WireError::TrailingBytes(1)));
    assert_eq!(dec.u16_le(), Err(WireError::UnexpectedEnd));
}

fn packet_with(kind: u8, body: &[u8]) -> Vec<u8> {
    let mut enc = Encoder::new();
    enc.raw(&[1; 32]);
    enc.uint(1);
    enc.u8(kind);
    enc.raw(body);
    enc.into_vec()
}

#[test]
fn malformed_packets_are_told_apart() {
    let too_many = |kind| Packet::decode(&packet_with(kind, &[200, 0]));
    assert_eq!(
        too_many(4),
        Err(MsgError::Malformed("contact count exceeds buffer"))
    );
    assert_eq!(
        Packet::decode(&packet_with(2, &[5, 1, 2, 3, 4, 0, 0])),
        Err(MsgError::Malformed("unknown address family"))
    );
    assert_eq!(
        Packet::decode(&packet_with(3, &[1; 31])),
        Err(MsgError::Wire(WireError::UnexpectedEnd))
    );
    let signal = Packet {
        sender: id(1),
        rid: 1,
        msg: Message::Signal {
            target: id(2),
            initiator: id(3),
            initiator_addr: at(1),
            data_addrs: vec![],
            firewall: Firewall::Open,
            is_reply: false,
        },
    }
    .encode();
    assert!(Packet::decode(&signal).is_ok());
    let tag = signal
        .iter()
        .rposition(|b| *b == Firewall::Open.as_u8())
        .unwrap();
    let mut bad = signal.clone();
    bad[tag - 1] = 9;
    assert!(Packet::decode(&bad).is_err());
    assert_eq!(Firewall::from_u8(9), None);
    for f in [Firewall::Open, Firewall::Consistent, Firewall::Random] {
        assert_eq!(Firewall::from_u8(f.as_u8()), Some(f));
    }
}

#[test]
fn malformed_sync_messages_are_told_apart() {
    let decode = |bytes: &[u8]| sync_msg::Message::decode(bytes).map(|_| ());
    assert_eq!(
        decode(&[99]),
        Err(SyncError::Malformed("unknown message kind"))
    );
    assert_eq!(
        decode(&[]),
        Err(SyncError::Wire(WireError::UnexpectedEnd))
    );
    assert_eq!(
        decode(&[sync_msg::KIND_PEAKS, 3]),
        Err(SyncError::Malformed("peak count exceeds buffer"))
    );
    assert_eq!(
        decode(&[sync_msg::KIND_FEED_HAVE, 3]),
        Err(SyncError::Malformed("range count exceeds buffer"))
    );
    let head = sync_msg::Message::Head(Head {
        len: 1,
        root: [2; 32],
        signature: [3; 64],
    })
    .encode();
    assert!(decode(&head).is_ok());
    assert!(matches!(
        decode(&head[..head.len() - 1]),
        Err(SyncError::Wire(_) | SyncError::Feed(_))
    ));
    let manifest = sync_msg::Message::Manifest(Manifest {
        chunks: vec![[4; 32]],
    })
    .encode();
    assert!(decode(&manifest).is_ok());
    assert!(matches!(
        decode(&manifest[..manifest.len() - 1]),
        Err(SyncError::Wire(_) | SyncError::Blob(_))
    ));
}

#[test]
fn heads_proofs_and_manifests_are_read_back() {
    let head = Head {
        len: 300,
        root: [2; 32],
        signature: [3; 64],
    };
    assert_eq!(Head::decode(&head.encode()), Ok(head));
    assert_eq!(
        Head::decode(&head.encode()[..20]),
        Err(FeedError::Wire(WireError::UnexpectedEnd))
    );
    let proof = Proof {
        nodes: vec![[5; 32], [6; 32]],
    };
    assert_eq!(Proof::decode(&proof.encode()), Ok(proof));
    assert_eq!(
        Proof::decode(&[9]),
        Err(FeedError::Malformed("node count exceeds buffer"))
    );
    let manifest = Manifest {
        chunks: vec![[7; 32]; 3],
    };
    assert_eq!(Manifest::decode(&manifest.encode()), Ok(manifest.clone()));
    assert_eq!(
        manifest.id(),
        *blake3::hash(&manifest.encode()).as_bytes()
    );
    assert_eq!(
        Manifest::decode(&[9]),
        Err(BlobError::Malformed("chunk count exceeds buffer"))
    );
    let mut trailing = manifest.encode();
    trailing.push(0);
    assert_eq!(
        Manifest::decode(&trailing),
        Err(BlobError::Wire(WireError::TrailingBytes(1)))
    );
}

#[test]
fn a_store_names_data_by_its_hash() {
    let mut store = Store::new();
    assert!(store.is_empty());
    let name = store.put(b"abc".to_vec());
    assert_eq!(name, *blake3::hash(b"abc").as_bytes());
    assert_eq!(store.get(&name), Some(&b"abc".to_vec()));
    assert!(store.has(&name));
    store.put(b"abc".to_vec());
    assert_eq!(store.len(), 1);
    let other = store.put(b"def".to_vec());
    let both = Manifest {
        chunks: vec![name, other, name],
    };
    assert_eq!(store.reassemble(&both), Some(b"abcdefabc".to_vec()));
    store.remove(&other);
    assert_eq!(store.reassemble(&both), None);
    assert_eq!(store.get(&name), Some(&b"abc".to_vec()));
}

#[test]
fn malformed_beacons_are_told_apart() {
    let good = Beacon::sign(&key(1), vec![at(1)], vec![[9; 32]]);
    let bytes = good.encode();
    assert_eq!(bytes[0], BEACON_VERSION);
    let decode = |b: &[u8]| Beacon::decode(b).map(|_| ());
    assert_eq!(decode(&bytes), Ok(()));
    let mut bad = bytes.clone();
    bad[1..33].copy_from_slice(&invalid_key());
    assert_eq!(decode(&bad), Err(LanError::Malformed("invalid public key")));
    assert_eq!(
        Beacon::decode_known(&bytes, false).map(|_| ()),
        Err(LanError::Malformed("invalid public key"))
    );
    assert_eq!(
        Beacon::decode_known(&bytes, true).map(|b| b.addrs),
        Ok(vec![at(1)])
    );
    let many = Beacon::sign(&key(1), vec![at(1); 9], vec![]);
    assert_eq!(
        decode(&many.encode()),
        Err(LanError::Malformed("too many addresses"))
    );
    let topics = Beacon::sign(&key(1), vec![], vec![[9; 32]; 9]);
    assert_eq!(
        decode(&topics.encode()),
        Err(LanError::Malformed("too many topics"))
    );
    assert!(matches!(decode(&bytes[..20]), Err(LanError::Wire(_))));
    let mut trailing = bytes.clone();
    trailing.push(0);
    assert_eq!(
        decode(&trailing),
        Err(LanError::Wire(WireError::TrailingBytes(1)))
    );
}

#[test]
fn a_beacon_without_an_address_is_not_recorded() {
    let ours = vec![[9; 32]];
    let mut peers = Peers::new();
    let b = Beacon::sign(&key(2), vec![], vec![[9; 32]]);
    assert_eq!(peers.observe(&b, 1, id(0), &ours), None);
    let b = Beacon::sign(&key(2), vec![at(7), at(8)], vec![[9; 32]]);
    assert_eq!(
        peers.observe(&b, 1, id(0), &ours),
        Some((topic_of(&key(2).public()), at(7)))
    );
    assert_eq!(peers.fresh(1, 10).len(), 1);
}

#[test]
fn announcements_are_judged_and_bounded() {
    assert_eq!(judge(10, 10, true, true), Err(RecordError::InvalidExpiry));
    assert_eq!(
        judge(MAX_RECORD_LIFETIME_MS + 11, 10, true, true),
        Err(RecordError::InvalidExpiry)
    );
    assert_eq!(
        judge(11, 10, false, true),
        Err(RecordError::Crypto(CryptoError::InvalidPublicKey))
    );
    assert_eq!(
        judge(11, 10, true, false),
        Err(RecordError::Crypto(CryptoError::InvalidSignature))
    );
    assert_eq!(judge(11, 10, true, true), Ok(()));

    let cap = WriteCapability::from_bytes([4; 32]);
    assert_eq!(cap.to_bytes(), [4; 32]);
    let record = SignedAnnouncement::sign(&key(1), id(2), 3, 1_000, cap);
    assert_eq!(record.topic(), id(2));
    assert_eq!(record.sequence(), 3);
    assert_eq!(record.expires_at(), 1_000);
    assert_eq!(record.capability().to_bytes(), [4; 32]);
    assert_eq!(record.owner_id(), topic_of(&key(1).public()));
    assert_eq!(record.verify(1_000), Err(RecordError::InvalidExpiry));
    assert!(matches!(
        SignedAnnouncement::decode(&record.encode()[..50]),
        Err(RecordError::Wire(WireError::UnexpectedEnd))
    ));
    let mut forged = record.encode();
    let last = forged.len() - 1;
    forged[last] ^= 1;
    assert_eq!(
        SignedAnnouncement::decode(&forged).unwrap().verify(1),
        Err(RecordError::Crypto(CryptoError::InvalidSignature))
    );

    let mut store = AnnouncementStore::default();
    let entry = |n: u8, expires_at: u64| StoredAnnouncement {
        contact: Contact::new(id(n), at(u16::from(n))),
        sequence: 1,
        expires_at,
    };
    for n in 0..MAX_RECORDS_PER_TOPIC as u8 {
        assert_eq!(store.store_verified(id(9), entry(n, 100), 1), Ok(()));
    }
    assert_eq!(
        store.store_verified(id(9), entry(99, 100), 1),
        Err(RecordError::StoreFull)
    );
    assert_eq!(
        store.store_verified(id(9), entry(3, 100), 1),
        Err(RecordError::StaleSequence)
    );
    assert_eq!(store.contacts(id(9)).len(), MAX_RECORDS_PER_TOPIC);
    // Once the old ones have expired there is room again.
    assert_eq!(store.store_verified(id(9), entry(99, 500), 100), Ok(()));
    assert_eq!(store.contacts(id(9)).len(), 1);
    store.prune(500);
    assert!(store.contacts(id(9)).is_empty());
}

#[test]
fn capabilities_end() {
    let mut issuer = CapabilityIssuer::new(key(9));
    let owner = topic_of(&key(1).public());
    let cap = issuer.issue(id(2), owner, 1_000);
    assert!(issuer.authorizes(cap, id(2), owner, 1_000, 999));
    assert!(!issuer.authorizes(cap, id(3), owner, 1_000, 999));
    assert!(!issuer.authorizes(cap, id(2), id(7), 1_000, 999));
    assert!(!issuer.authorizes(cap, id(2), owner, 1_000, 1_000));
    issuer.prune(1_000);
    assert!(!issuer.authorizes(cap, id(2), owner, 1_000, 999));
    let again = issuer.issue(id(2), owner, 1_000);
    assert_ne!(again.to_bytes(), cap.to_bytes(), "each is issued once");
}

#[test]
fn networks_are_told_apart() {
    assert!(same_network(&v4(8, 8, 8, 1), &v4(8, 8, 8, 99)));
    assert!(!same_network(&v4(8, 8, 8, 1), &v4(8, 8, 9, 1)));
    assert!(is_public(&v4(8, 8, 8, 8)));
    assert!(!is_public(&v4(127, 0, 0, 1)));
    assert!(!is_public(&v4(10, 1, 2, 3)));
    assert!(!is_public(&v4(192, 168, 0, 1)));
}

#[test]
fn distances_are_ordered_as_numbers() {
    let mut near = [0u8; 32];
    near[31] = 1;
    let mut far = [0u8; 32];
    far[0] = 1;
    let zero = id(0);
    let n = zero.distance(&NodeId::from_bytes(near));
    let f = zero.distance(&NodeId::from_bytes(far));
    assert!(Distance::zero().less(&n) && n.less(&f) && !f.less(&n));
    assert_eq!(n.leading_zeros(), 255);
    assert_eq!(f.leading_zeros(), 7);
    assert_eq!(*f.as_bytes(), far);
}

#[test]
fn a_refreshed_contact_moves_to_the_back() {
    let mut t = RoutingTable::new(id(0));
    assert!(t.is_empty());
    let c = Contact::new(id(0x80), at(1));
    assert_eq!(t.admit_contact(c), Admission::Inserted);
    assert_eq!(t.admit_contact(c), Admission::Refreshed);
    assert_eq!(
        t.admit_contact(Contact::new(id(0), at(1))),
        Admission::Rejected
    );
    assert_eq!(t.replace_unresponsive(&id(0x80)), None);
}

#[test]
fn ports_of_a_nat_are_its_own() {
    let host = v4(203, 0, 113, 1);
    let mut nat = NatBox::with_range(Firewall::Random, host, 5000, 5002);
    let s = nat.open_socket();
    let ports: Vec<u16> = (1..=3).map(|d| nat.send(s, at(d)).port).collect();
    let mut sorted = ports.clone();
    sorted.sort_unstable();
    assert_eq!(sorted, vec![5000, 5001, 5002]);
    assert_eq!(nat.send(s, at(1)).port, ports[0], "a mapping is kept");
    assert_eq!(nat.host(), host);
}

#[test]
fn a_full_range_of_sockets_is_always_hit() {
    let params = PunchParams {
        birthday_sockets: 4,
        spray_probes: 1,
        port_min: 2000,
        port_max: 2003,
    };
    assert_eq!(params.port_space(), 4);
    let mut rng = Rng::new(5);
    for _ in 0..20 {
        let p = params.random_port(&mut rng);
        assert!((2000..=2003).contains(&p));
        assert!(simulate_birthday(&mut rng, &params));
    }
    assert_eq!(
        packet_punch(
            Firewall::Consistent,
            Firewall::Random,
            &mut rng,
            &PunchParams::default()
        ),
        Outcome::Punched
    );
}

#[test]
fn an_offline_node_is_neither_heard_nor_reached() {
    let mut sim = Sim::new(10, 7);
    let (a, _) = {
        let id = sim.rng().node_id();
        sim.add_node(id)
    };
    let (b, _) = {
        let id = sim.rng().node_id();
        sim.add_node(id)
    };
    assert_eq!(sim.nat_kind(a), NatKind::Open);
    let to_b = sim.contact(b);
    sim.dht_mut(a).add_contact(to_b);
    sim.disable_node(b);
    sim.bootstrap(a);
    sim.run(1000);
    let events = sim.take_events();
    assert_eq!(events.len(), 1);
    assert!(matches!(
        &events[0].1,
        Event::QueryFinished { closest, .. } if closest.is_empty()
    ));
    assert_eq!(sim.dht(b).routing_len(), 0);
    assert_eq!(sim.now(), 1000, "the request timed out");
}

#[test]
fn a_node_without_contacts_finds_nothing_at_once() {
    let mut dht = Dht::new(id(1));
    let q = dht.find_node(id(2), 0);
    assert_eq!(
        dht.poll_event(),
        Some(Event::QueryFinished {
            query: q,
            target: id(2),
            closest: vec![],
        })
    );
    assert_eq!(dht.poll_event(), None);
    assert_eq!(dht.poll_transmit(), None);
    assert_eq!(dht.poll_timeout(), None);
    dht.handle_input(at(1), b"garbage", 0);
    assert_eq!(dht.poll_transmit(), None);
    assert_eq!(dht.routing_len(), 0);
}

#[test]
fn an_announcement_is_found_by_a_lookup() {
    let mut dht = Dht::new(id(1));
    let announce = Packet {
        sender: id(5),
        rid: 1,
        msg: Message::Announce { topic: id(5) },
    };
    dht.handle_input(at(5), &announce.encode(), 0);
    let find = Packet {
        sender: id(6),
        rid: 77,
        msg: Message::FindNode { target: id(5) },
    };
    dht.handle_input(at(6), &find.encode(), 0);
    let reply = dht.poll_transmit().unwrap();
    assert_eq!(reply.to, at(6));
    let packet = Packet::decode(&reply.data).unwrap();
    assert_eq!(packet.rid, 77);
    let Message::Nodes { peers, .. } = packet.msg else {
        panic!("nodes are the answer");
    };
    assert_eq!(peers, vec![Contact::new(id(5), at(5))]);
}

#[test]
fn a_download_that_is_given_nothing_asks_for_the_head() {
    let mut dl = FeedDownload::resume([1; 32], 3);
    assert_eq!(dl.poll_request(), Some(sync_msg::Message::GetHead));
    assert_eq!(dl.head(), None);
    assert!(!dl.is_complete());
    assert!(dl.into_blocks().is_empty());
    let mut w = FeedWindow::suffix([1; 32], 3);
    assert_eq!(w.poll_request(), Some(sync_msg::Message::GetHead));
    assert!(!w.is_complete());
    assert!(w.peaks().is_none());
    assert!(w.into_window().is_none());
}
