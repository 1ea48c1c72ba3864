//! What holds of whole histories, on concrete ones.
use warren::addr::{IpAddr, SocketAddr};
use warren::blob::Manifest;
use warren::candidates::{decode_candidates, encode_candidates};
use warren::crypto::Digest;
use warren::dht::{ConnectOutcome, Dht, Event};
use warren::firewall::Firewall;
use warren::frame::{data_datagram, Reassembler};
use warren::id::NodeId;
use warren::msg::{Message, MsgError, Packet};
use warren::natbox::NatBox;
use warren::plan::{Holdings, Selection};
use warren::routing::{Contact, RoutingTable};
use warren::swarm::{search_result, Fetched, Swarm};
use warren::sync_msg::{self, SyncError};
use warren::transfer::TransferError;
use warren::wire::WireError;

fn at(last: u8, port: u16) -> SocketAddr {
    SocketAddr::new(IpAddr::V4([203, 0, 113, last]), port)
}

fn id(b: u8) -> NodeId {
    NodeId::from_bytes([b; 32])
}

fn hash(bytes: &[u8]) -> Digest {
    *blake3::hash(bytes).as_bytes()
}

#[test]
fn nothing_may_follow_a_packet() {
    let packet = Packet {
        sender: id(7),
        rid: 300,
        msg: Message::FindNode { target: id(9) },
    };
    let mut bytes = packet.encode();
    assert_eq!(Packet::decode(&bytes), Ok(packet));
    bytes.extend([0, 0]);
    assert_eq!(
        Packet::decode(&bytes),
        Err(MsgError::Wire(WireError::TrailingBytes(2)))
    );
}

#[test]
fn nothing_may_follow_a_message() {
    let message = sync_msg::Message::Peaks {
        nodes: vec![(3, [1; 32]), (4, [2; 32])],
    };
    let mut bytes = message.encode();
    assert_eq!(sync_msg::Message::decode(&bytes), Ok(message));
    bytes.push(9);
    assert_eq!(
        sync_msg::Message::decode(&bytes),
        Err(SyncError::Wire(WireError::TrailingBytes(1)))
    );
}

#[test]
fn candidates_are_read_whole_or_not_at_all() {
    let list = [at(1, 5000), SocketAddr::new(IpAddr::V6([32; 16]), 6000)];
    for answer in [false, true] {
        let bytes = encode_candidates(&list, answer).unwrap();
        assert_eq!(decode_candidates(&bytes, answer), Some(list.to_vec()));
        for n in 0..bytes.len() {
            assert_eq!(decode_candidates(&bytes[..n], answer), None);
        }
        let mut longer = bytes;
        longer.push(4);
        assert_eq!(decode_candidates(&longer, answer), None);
    }
}

#[test]
fn ports_tell_flows_apart_over_a_history() {
    for kind in [Firewall::Open, Firewall::Consistent, Firewall::Random] {
        let host = IpAddr::V4([198, 51, 100, 1]);
        let mut nat = NatBox::with_range(kind, host, 40_000, 40_010);
        let (a, b) = (nat.open_socket(), nat.open_socket());
        let (x, y) = (at(1, 10), at(2, 10));
        let calls = [(a, x), (b, x), (a, y), (a, x), (b, y), (b, x)];
        let seen: Vec<SocketAddr> = calls.iter().map(|(s, d)| nat.send(*s, *d)).collect();
        for (i, (s, d)) in calls.iter().enumerate() {
            assert_eq!(seen[i].ip, host);
            assert!((40_000..=40_010).contains(&seen[i].port));
            for (j, (t, e)) in calls.iter().enumerate() {
                let one = s == t && (kind != Firewall::Random || d == e);
                assert_eq!(seen[i].port == seen[j].port, one);
            }
            assert_eq!(nat.recv(seen[i].port, *d), Some(*s));
        }
        let stranger = nat.recv(seen[0].port, at(3, 10));
        assert_eq!(stranger, (kind == Firewall::Open).then_some(a));
        assert_eq!(nat.recv(40_009, x), None);
    }
}

#[test]
fn only_failures_since_the_last_sighting_count() {
    let peer = Contact::new(id(9), at(1, 4000));
    let other = Contact::new(id(8), at(2, 4000));
    let mut table = RoutingTable::new(id(0));
    assert!(table.insert(peer) && table.insert(other));
    assert!(!table.record_failure(&peer.id));
    assert!(!table.record_failure(&peer.id));
    // Seen again, it may fail twice more.
    assert!(table.insert(peer));
    assert!(!table.record_failure(&peer.id));
    assert!(!table.record_failure(&other.id));
    assert!(!table.record_failure(&peer.id));
    assert!(table.contains(&peer.id));
    assert_eq!(table.len(), 2);
    assert!(table.record_failure(&peer.id));
    assert!(!table.contains(&peer.id));
    assert_eq!(table.len(), 1);
    assert!(!table.record_failure(&peer.id));
}

#[test]
fn parts_of_any_size_come_back_together() {
    let parts: [&[u8]; 4] = [b"a", b"", b"longer than the rest", b"bc"];
    let mut r = Reassembler::new();
    for i in [2u64, 0, 2, 3, 0] {
        let datagram = data_datagram(5, i, 4, parts[i as usize]);
        assert_eq!(r.push(&datagram), None);
    }
    assert_eq!(r.missing().unwrap().indices, vec![1]);
    assert_eq!(
        r.push(&data_datagram(5, 1, 4, parts[1])),
        Some((5, b"alonger than the restbc".to_vec()))
    );
    assert!(r.missing().is_none());
    assert_eq!(r.stored(), 4);
}

#[test]
fn a_lookup_asks_few_at_a_time_and_none_twice() {
    let target = id(0);
    let mut dht = Dht::new(id(255));
    for b in 1..=6u8 {
        dht.add_contact(Contact::new(id(b), at(b, 4000)));
    }
    dht.find_node(target, 0);
    let mut asked: Vec<SocketAddr> = Vec::new();
    let mut answered = 0;
    loop {
        while let Some(t) = dht.poll_transmit() {
            assert!(matches!(
                Packet::decode(&t.data).unwrap().msg,
                Message::FindNode { .. }
            ));
            assert!(!asked.contains(&t.to));
            asked.push(t.to);
            assert!(asked.len() - answered <= 3);
            // The next to be asked answers the last that is open.
            if asked.len() - answered == 3 || asked.len() == 6 {
                break;
            }
        }
        if let Some(Event::QueryFinished { closest, .. }) = dht.poll_event() {
            let ids: Vec<NodeId> = closest.iter().map(|c| c.id).collect();
            assert_eq!(ids, (1..=6u8).map(id).collect::<Vec<_>>());
            break;
        }
        let from = asked[answered];
        let IpAddr::V4([.., last]) = from.ip else {
            panic!("all contacts have such addresses");
        };
        let reply = Packet {
            sender: id(last),
            rid: answered as u64 + 1,
            msg: Message::Nodes {
                contacts: (1..=6u8).map(|b| Contact::new(id(b), at(b, 4000))).collect(),
                peers: vec![],
            },
        };
        dht.handle_input(from, &reply.encode(), 1);
        answered += 1;
    }
    assert_eq!(asked.len(), 6);
    assert_eq!(answered, 6);
}

#[test]
fn an_ended_connect_is_not_reported_again() {
    let mut dht = Dht::new(id(1));
    dht.connect(id(4), vec![at(1, 5000)], 0);
    let ends = |dht: &mut Dht| {
        let mut n = 0;
        while let Some(event) = dht.poll_event() {
            if let Event::Connected { target, .. } = event {
                assert_eq!(target, id(4));
                n += 1;
            }
        }
        n
    };
    assert_eq!(ends(&mut dht), 1);
    for now in [1_000, 10_000, 60_000] {
        dht.handle_timeout(now);
        assert_eq!(ends(&mut dht), 0);
    }
    dht.connect(id(4), vec![at(1, 5000)], 70_000);
    assert_eq!(ends(&mut dht), 1);
}

#[test]
fn due_timers_leave_nothing_behind() {
    let mut dht = Dht::new(id(1));
    dht.add_contact(Contact::new(id(2), at(2, 4000)));
    dht.find_node(id(3), 0);
    dht.connect(id(4), vec![at(1, 5000)], 0);
    let mut now = 0;
    let mut ended = Vec::new();
    while let Some(t) = dht.poll_timeout() {
        assert!(t > now);
        now = t;
        dht.handle_timeout(now);
        assert!(dht.poll_timeout().map_or(true, |t| t > now));
        while let Some(event) = dht.poll_event() {
            match event {
                Event::QueryFinished { closest, .. } => assert!(closest.is_empty()),
                Event::Connected {
                    target,
                    outcome,
                    peer_data_addrs,
                    strategy,
                } => {
                    assert_eq!(target, id(4));
                    assert!(peer_data_addrs.is_empty());
                    assert_eq!(strategy, None);
                    ended.push(outcome);
                }
                _ => panic!("nothing else was begun"),
            }
        }
    }
    assert_eq!(ended, vec![ConnectOutcome::NotFound]);
}

#[test]
fn a_chunk_that_is_not_what_it_is_called_is_not_delivered() {
    let (one, two) = (b"one".to_vec(), b"two".to_vec());
    let manifest = Manifest {
        chunks: vec![hash(&one), hash(&two)],
    };
    let begun = || {
        let mut swarm = Swarm::new(manifest.clone(), Selection::Streaming { window: 2 });
        swarm.add_provider(0, Holdings::Known(manifest.chunks.clone()));
        assert_eq!(swarm.dispatch().len(), 1);
        swarm
    };
    let fetched = |name: &[u8], data: &[u8]| Fetched {
        name: hash(name),
        data: data.to_vec(),
    };

    let mut swarm = begun();
    let lie = vec![fetched(&one, b"something else"), fetched(&two, &two)];
    assert!(swarm.on_finished(0, lie, true).is_empty());
    assert!(!swarm.all_delivered());

    let mut swarm = begun();
    let truth = vec![fetched(&one, &one), fetched(&two, &two)];
    let out = swarm.on_finished(0, truth, true);
    let got: Vec<(usize, Vec<u8>)> = out.into_iter().map(|d| (d.index, d.data)).collect();
    assert_eq!(got, vec![(0, one), (1, two)]);
    assert!(swarm.all_delivered());
}

#[test]
fn without_a_manifest_nothing_is_fetched() {
    assert_eq!(search_result(None), Err(TransferError::Incomplete));
    let m = Manifest { chunks: Vec::new() };
    assert!(search_result(Some(m)).is_ok());
}
