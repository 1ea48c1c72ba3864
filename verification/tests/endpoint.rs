//! Dialing by public key: candidates, discovery, listening and recovery.
use warren::addr::{IpAddr, SocketAddr};
use warren::candidates::{decode_candidates, encode_candidates};
use warren::discovery::{
    conclude, next_event, predecessor, topic_of, ConnectError, DhtError, Discovered, Discovery,
    Event, Notice, Record, Signal,
};
use warren::endpoint::{
    consider, connection_payload, direct_path, fits, frame_payload, guarded, keepalive_frame,
    may_listen, on_answer, retry_accept, signal_payload, still_connected, Config, Considered, Due,
    Frame, Guarded, Heard, Listening, Rebinding, Receiving, DEAD_PEER, KEEPALIVE,
};
use warren::id::NodeId;
use warren::recovery::{
    may_watch, retry_connect, retry_transfer, NetworkStatus, NetworkWatch, Recovery,
    RecoveryConfig, RecoveryError,
};
use warren::routing::Contact;
use warren::sync_msg::SyncError;
use warren::transfer::{IoKind, TransferError};

fn v4(host: [u8; 4], port: u16) -> SocketAddr {
    SocketAddr::new(IpAddr::V4(host), port)
}

fn v6(start: [u8; 2], last: u8, port: u16) -> SocketAddr {
    let mut o = [0u8; 16];
    o[0] = start[0];
    o[1] = start[1];
    o[15] = last;
    SocketAddr::new(IpAddr::V6(o), port)
}

#[test]
fn candidate_codec_rejects_wrong_role_trailing_bytes_and_unsafe_addresses() {
    let peers = [v4([127, 0, 0, 1], 7), v6([0, 0], 1, 8)];
    let bytes = encode_candidates(&peers, false).unwrap();
    assert_eq!(decode_candidates(&bytes, false).unwrap(), peers);
    assert!(decode_candidates(&bytes, true).is_none());
    for len in 0..bytes.len() {
        assert!(decode_candidates(&bytes[..len], false).is_none());
    }
    let mut trailing = bytes.clone();
    trailing.push(0);
    assert!(decode_candidates(&trailing, false).is_none());
    for bad in [
        v4([0, 0, 0, 0], 1),
        v4([224, 0, 0, 1], 1),
        v4([255, 255, 255, 255], 1),
        v4([127, 0, 0, 1], 0),
        v6([0xff, 0x02], 1, 1),
        v6([0xfe, 0x80], 1, 1),
    ] {
        assert!(encode_candidates(&[bad], false).is_none(), "{bad:?}");
    }
    assert!(encode_candidates(&[peers[0], peers[0]], false).is_none());
}

#[test]
fn candidates_have_one_exact_layout() {
    let bytes = encode_candidates(&[v4([192, 0, 2, 9], 0x1234)], true).unwrap();
    let mut expected = b"warren-connect\x02".to_vec();
    expected.extend_from_slice(&[1, 1, 4, 192, 0, 2, 9, 0x12, 0x34]);
    assert_eq!(bytes, expected);
    assert!(encode_candidates(&[], false).is_none());
    let five: Vec<SocketAddr> = (1..=5).map(|p| v4([1, 2, 3, 4], p)).collect();
    assert!(encode_candidates(&five, false).is_none());
    assert!(encode_candidates(&five[..4], false).is_some());
}

#[test]
fn an_ipv4_address_written_as_ipv6_is_one_and_the_same() {
    let mut o = [0u8; 16];
    o[10] = 255;
    o[11] = 255;
    o[12..].copy_from_slice(&[192, 0, 2, 1]);
    let mapped = SocketAddr::new(IpAddr::V6(o), 9);
    let bytes = encode_candidates(&[mapped], false).unwrap();
    assert_eq!(
        decode_candidates(&bytes, false),
        Some(vec![v4([192, 0, 2, 1], 9)])
    );
    assert!(encode_candidates(&[mapped, v4([192, 0, 2, 1], 9)], false).is_none());
}

fn id(b: u8) -> NodeId {
    NodeId::from_bytes([b; 32])
}

fn contact(b: u8) -> Contact {
    Contact::new(id(b), v4([10, 0, 0, b], 1000))
}

fn record(peer: [u8; 32], coordinator: Contact, expires: u64) -> Record {
    Record {
        topic: topic_of(&peer),
        provider: peer,
        coordinator,
        signaling_key: [7; 32],
        expires,
    }
}

#[test]
fn the_predecessor_borrows_across_bytes() {
    assert_eq!(predecessor(&id(0)), None);
    let mut one = [0u8; 32];
    one[30] = 1;
    let mut before = [0u8; 32];
    before[31] = 255;
    assert_eq!(
        predecessor(&NodeId::from_bytes(one)),
        Some(NodeId::from_bytes(before))
    );
    let mut last = [3u8; 32];
    last[31] = 2;
    assert_eq!(predecessor(&id(3)), Some(NodeId::from_bytes(last)));
}

fn found(d: Discovered) -> Result<Vec<Record>, ConnectError> {
    match d {
        Discovered::Done(r) => r,
        other => panic!("the discovery has not ended: {other:?}"),
    }
}

#[test]
fn crowded_topics_do_not_hide_the_public_key_registration() {
    let peer = [1u8; 32];
    let crowd = [2u8; 32];
    let mut d = Discovery::new(peer, 5, 3);
    // Other publishers fill what the lookup finds.
    let mut foreign = record(crowd, contact(8), 99);
    foreign.topic = topic_of(&peer);
    assert!(matches!(
        d.on_event(&Event::Providers {
            query: 5,
            records: vec![foreign, foreign],
        }),
        Discovered::Waiting
    ));
    let asked = d.on_event(&Event::LookupDone {
        query: 5,
        timed_out: false,
        closest: vec![contact(8), contact(9)],
    });
    let Discovered::Ask(nodes) = asked else {
        panic!("the nearest nodes are asked for the peer");
    };
    assert_eq!(nodes, vec![contact(8), contact(9)]);
    assert!(matches!(d.on_asked(&vec![40, 41]), Discovered::Waiting));
    assert!(matches!(
        d.on_event(&Event::ProviderPage {
            request: 40,
            records: vec![foreign, record(peer, contact(8), 10)],
        }),
        Discovered::Waiting
    ));
    // An answer to a request that was not made is ignored.
    assert!(matches!(
        d.on_event(&Event::ProviderPage {
            request: 99,
            records: vec![record(peer, contact(6), 10)],
        }),
        Discovered::Waiting
    ));
    let records = found(d.on_event(&Event::RpcTimedOut(41))).unwrap();
    assert_eq!(records.len(), 1);
    assert_eq!(records[0].provider, peer);
    assert_eq!(records[0].coordinator, contact(8));
}

#[test]
fn another_key_cannot_publish_itself_as_the_requested_peer() {
    let peer = [1u8; 32];
    let mut d = Discovery::new(peer, 1, 3);
    let mut forged = record([2u8; 32], contact(8), 99);
    forged.topic = topic_of(&peer);
    d.on_event(&Event::Providers {
        query: 1,
        records: vec![forged],
    });
    let done = d.on_event(&Event::LookupDone {
        query: 1,
        timed_out: false,
        closest: vec![],
    });
    assert_eq!(found(done).map(|r| r.len()), Err(ConnectError::PeerNotFound));
}

#[test]
fn an_incomplete_search_that_finds_nothing_timed_out() {
    let mut d = Discovery::new([1u8; 32], 1, 3);
    let done = d.on_event(&Event::LookupDone {
        query: 1,
        timed_out: true,
        closest: vec![],
    });
    assert_eq!(
        found(done).map(|r| r.len()),
        Err(ConnectError::Dht(DhtError::TimedOut))
    );
    // The events of another lookup are no concern of this one.
    let mut d = Discovery::new([1u8; 32], 1, 3);
    assert!(matches!(
        d.on_event(&Event::LookupDone {
            query: 2,
            timed_out: true,
            closest: vec![],
        }),
        Discovered::Waiting
    ));
}

#[test]
fn records_are_chosen_newest_first_with_coordinators_of_their_own() {
    let peer = [1u8; 32];
    let mut same_address = record(peer, contact(4), 70);
    same_address.coordinator = Contact::new(id(44), contact(3).addr);
    let mut other_key = record(peer, contact(5), 60);
    other_key.signaling_key = [8; 32];
    let records = vec![
        record(peer, contact(2), 50),
        record(peer, contact(3), 90),
        same_address,
        other_key,
        record(peer, contact(3), 80),
        record(peer, contact(6), 50),
        record(peer, contact(7), 40),
    ];
    let chosen = conclude(&records, false, 3).unwrap();
    let ids: Vec<NodeId> = chosen.iter().map(|r| r.coordinator.id).collect();
    assert_eq!(ids, vec![id(3), id(2), id(6)]);
    assert_eq!(chosen[0].expires, 90);
    assert_eq!(conclude(&records, false, 0).unwrap().len(), 0);
}

#[test]
fn notices_become_events_or_ends() {
    assert!(matches!(
        next_event(Notice::Dht(Event::RpcTimedOut(3))),
        Ok(Some(Event::RpcTimedOut(3)))
    ));
    assert!(matches!(next_event(Notice::IoError), Ok(None)));
    for n in [Notice::Stopped, Notice::Closed] {
        assert!(matches!(
            next_event(n),
            Err(ConnectError::Dht(DhtError::Closed))
        ));
    }
    assert!(matches!(
        next_event(Notice::Lagged(7)),
        Err(ConnectError::Dht(DhtError::EventsLagged(7)))
    ));
}

fn offer_to(recipient: NodeId, payload: Vec<u8>) -> Signal {
    Signal {
        recipient,
        author: [9; 32],
        session: [3; 32],
        answer: false,
        payload,
    }
}

#[test]
fn a_listener_queues_only_offers_it_can_take() {
    let key = [1u8; 32];
    let me = topic_of(&key);
    let payload = signal_payload(&[v4([192, 0, 2, 1], 5)], false).unwrap();
    let mut l = Listening::new(me, key, 4, 3);
    let offer = |signal: Signal| Event::Incoming {
        coordinator: contact(2),
        signal,
    };
    let good = offer(offer_to(me, payload.clone()));
    assert_eq!(l.on_event(&good, true), Heard::Offer(4));
    assert_eq!(l.on_event(&good, false), Heard::Nothing);
    assert_eq!(
        l.on_event(&offer(offer_to(id(8), payload.clone())), true),
        Heard::Nothing
    );
    assert_eq!(
        l.on_event(&offer(offer_to(me, b"junk".to_vec())), true),
        Heard::Nothing
    );
    let mut answer = offer_to(me, payload);
    answer.answer = true;
    assert_eq!(l.on_event(&offer(answer), true), Heard::Nothing);
    assert_eq!(l.on_event(&Event::NetworkChanged(5), true), Heard::Nothing);
    assert_eq!(l.on_event(&good, true), Heard::Offer(5));
}

#[test]
fn a_listener_is_ready_once_registered_and_knows_its_reflectors() {
    let key = [1u8; 32];
    let me = topic_of(&key);
    let mut l = Listening::new(me, key, 0, 2);
    assert!(!l.is_registered());
    let mut other = record([2; 32], contact(9), 1);
    other.topic = me;
    assert_eq!(l.on_event(&Event::Registered(other), true), Heard::Nothing);
    let mut on = |b: u8| l.on_event(&Event::Registered(record(key, contact(b), 1)), true);
    assert_eq!(on(2), Heard::Ready);
    assert_eq!(on(3), Heard::Nothing);
    assert_eq!(on(2), Heard::Nothing);
    assert_eq!(on(4), Heard::Nothing);
    assert!(l.is_registered());
    assert_eq!(*l.reflectors(), vec![contact(4), contact(2)]);
    l.on_event(&Event::NetworkChanged(1), true);
    assert!(l.reflectors().is_empty());
}

#[test]
fn authorization_rejects_offers_before_data_socket_allocation() {
    let payload = signal_payload(&[v4([192, 0, 2, 1], 5)], false).unwrap();
    let signal = offer_to(id(1), payload);
    let known = vec![contact(3)];
    let at = |made, authorized, room| {
        consider(&signal, contact(2), made, 6, authorized, room, &known, 4)
    };
    assert!(matches!(at(5, true, true), Considered::Stale));
    assert!(matches!(
        at(6, false, true),
        Considered::Refused(ConnectError::Unauthorized)
    ));
    assert!(matches!(
        at(6, true, false),
        Considered::Refused(ConnectError::Busy)
    ));
    let Considered::Accepted(a) = at(6, true, true) else {
        panic!("the offer is good");
    };
    assert_eq!(a.peer, [9; 32]);
    assert_eq!(a.session, [3; 32]);
    assert_eq!(a.candidates, vec![v4([192, 0, 2, 1], 5)]);
    assert_eq!(a.reflectors, vec![contact(3), contact(2)]);
    let junk = offer_to(id(1), b"junk".to_vec());
    assert!(matches!(
        consider(&junk, contact(2), 6, 6, true, true, &known, 4),
        Considered::Refused(ConnectError::InvalidCandidates)
    ));
    assert!(retry_accept(&ConnectError::Dht(DhtError::UnknownSession)));
    assert!(retry_accept(&ConnectError::Dht(DhtError::NetworkChanged)));
    assert!(!retry_accept(&ConnectError::Unauthorized));
}

#[test]
fn a_dialer_hears_only_the_peer_and_session_it_dialed() {
    let payload = signal_payload(&[v4([192, 0, 2, 1], 5)], true).unwrap();
    let mut answer = offer_to(id(1), payload);
    answer.answer = true;
    let peer = [9; 32];
    let session = [3; 32];
    assert_eq!(
        on_answer(&peer, &session, &Event::Answered(answer.clone())),
        Some(Ok(vec![v4([192, 0, 2, 1], 5)]))
    );
    assert_eq!(
        on_answer(&[8; 32], &session, &Event::Answered(answer.clone())),
        None
    );
    assert_eq!(
        on_answer(&peer, &[4; 32], &Event::Answered(answer.clone())),
        None
    );
    answer.payload.push(0);
    assert_eq!(
        on_answer(&peer, &session, &Event::Answered(answer)),
        Some(Err(ConnectError::InvalidCandidates))
    );
    assert_eq!(
        on_answer(&peer, &session, &Event::SignalTimedOut(session)),
        Some(Err(ConnectError::SignalingTimedOut))
    );
    assert_eq!(
        on_answer(&peer, &session, &Event::SignalTimedOut([0; 32])),
        None
    );
}

#[test]
fn unreachable_direct_candidates_return_an_explicit_failure() {
    assert_eq!(direct_path(true), Ok(()));
    assert_eq!(direct_path(false), Err(ConnectError::DirectUnavailable));
    assert_eq!(
        signal_payload(&[], true),
        Err(ConnectError::InvalidCandidates)
    );
}

#[test]
fn shutdown_interrupts_a_connection_waiting_for_acceptance() {
    assert_eq!(
        guarded(false, false, true, false),
        Guarded::Failed(ConnectError::Dht(DhtError::Closed))
    );
    assert_eq!(
        guarded(true, true, false, false),
        Guarded::Failed(ConnectError::Dht(DhtError::NetworkChanged))
    );
    assert_eq!(guarded(false, true, true, true), Guarded::Finished);
    assert_eq!(
        guarded(false, false, false, true),
        Guarded::Failed(ConnectError::Deadline)
    );
    assert_eq!(guarded(false, false, false, false), Guarded::Running);
}

#[test]
fn configurations_are_checked() {
    let good = Config {
        deadline: 60_000_000_000,
        punch_overall: 1,
        probe_interval: 1,
    };
    assert_eq!(good.validate(), Ok(()));
    for bad in [
        Config { deadline: 0, ..good },
        Config {
            deadline: 120_000_000_001,
            ..good
        },
        Config {
            punch_overall: 0,
            ..good
        },
        Config {
            probe_interval: 0,
            ..good
        },
    ] {
        assert_eq!(bad.validate(), Err(ConnectError::InvalidConfig));
    }
    assert_eq!(may_listen(8, false), Ok(()));
    assert_eq!(may_listen(9, false), Err(ConnectError::InvalidConfig));
    assert_eq!(may_listen(1, true), Err(ConnectError::AlreadyListening));
    assert_eq!(may_watch(8), Ok(()));
    assert_eq!(may_watch(9), Err(ConnectError::InvalidConfig));
}

#[test]
fn heartbeat_survives_full_application_queue_and_reports_dead_peer() {
    let mut r = Receiving::new(0);
    assert_eq!(r.on_time(1), Due::Wait(KEEPALIVE));
    assert_eq!(r.on_time(KEEPALIVE), Due::Beat);
    assert_eq!(r.on_time(KEEPALIVE), Due::Wait(2 * KEEPALIVE));
    // Any valid frame shows that the peer is alive, whoever takes it in.
    assert_eq!(r.on_frame(20, &[0, 1, 2]), Frame::Payload(vec![1, 2]));
    assert_eq!(r.on_time(DEAD_PEER + 19), Due::Beat);
    assert_eq!(r.on_time(DEAD_PEER + 20), Due::Dead);
}

#[test]
fn heartbeat_frames_are_consumed_and_malformed_frames_close_receive() {
    let mut r = Receiving::new(0);
    assert_eq!(r.on_frame(5, &keepalive_frame(false)), Frame::Ping);
    assert_eq!(r.on_frame(6, &keepalive_frame(true)), Frame::Pong);
    assert_eq!(r.last_received, 6);
    for bad in [&[][..], &[1, 0], &[2, 2], &[3]] {
        assert_eq!(r.on_frame(9, bad), Frame::Invalid);
    }
    assert_eq!(r.last_received, 6);
    assert_eq!(keepalive_frame(false), vec![1]);
    assert_eq!(keepalive_frame(true), vec![2]);
}

#[test]
fn connection_payloads_are_framed_and_bounded() {
    assert_eq!(connection_payload(1175), 1174);
    assert_eq!(frame_payload(b"abc", 3), Ok(vec![0, b'a', b'b', b'c']));
    assert_eq!(frame_payload(b"abcd", 3), Err(IoKind::InvalidInput));
    assert_eq!(fits(3, 3), Ok(()));
    assert_eq!(fits(4, 3), Err(IoKind::InvalidInput));
    assert_eq!(still_connected(2, 2), Ok(()));
    assert_eq!(still_connected(2, 3), Err(IoKind::ConnectionAborted));
}

#[test]
fn a_rebound_endpoint_waits_for_a_registration_after_the_change() {
    let key = [1u8; 32];
    let me = topic_of(&key);
    let mut r = Rebinding::new(me, key);
    let registered = Event::Registered(record(key, contact(2), 1));
    assert!(!r.on_event(&registered));
    assert!(!r.on_event(&Event::NetworkChanged(1)));
    assert!(!r.on_event(&Event::Registered(record([2; 32], contact(2), 1))));
    assert!(r.on_event(&registered));
}

#[test]
fn recovery_does_not_retry_verification_or_authentication_failures() {
    assert!(!retry_transfer(&TransferError::Sync(SyncError::BadChunk)));
    assert!(!retry_connect(&ConnectError::Authentication(IoKind::Other)));
    assert!(retry_transfer(&TransferError::Io(
        IoKind::ConnectionAborted
    )));
    assert!(retry_connect(&ConnectError::Dht(DhtError::NetworkChanged)));
    assert!(RecoveryConfig {
        attempts: 0,
        ..RecoveryConfig::default()
    }
    .validate()
    .is_err());
}

#[test]
fn recovery_pauses_grow_to_a_bound_and_attempts_run_out() {
    let policy = RecoveryConfig::default();
    assert_eq!(policy.validate(), Ok(policy));
    let pauses: Vec<u128> = (0..8).map(|a| policy.pause(a) / 1_000_000).collect();
    assert_eq!(
        pauses,
        vec![250, 500, 1000, 2000, 4000, 5000, 5000, 5000]
    );
    let mut r = Recovery::start(RecoveryConfig {
        attempts: 3,
        ..policy
    })
    .unwrap();
    let lost = RecoveryError::Transfer(TransferError::Timeout);
    assert_eq!(r.on_failure(&lost), Some(250_000_000));
    assert_eq!(r.on_failure(&lost), Some(500_000_000));
    assert_eq!(r.on_failure(&lost), None);
    assert_eq!(r.remaining(299_999_999_999), Ok(1));
    assert_eq!(r.remaining(300_000_000_000), Err(RecoveryError::Deadline));
    let mut r = Recovery::start(policy).unwrap();
    assert_eq!(
        r.on_failure(&RecoveryError::Connection(ConnectError::Unauthorized)),
        None
    );
    for bad in [
        RecoveryConfig {
            attempts: 33,
            ..policy
        },
        RecoveryConfig {
            backoff: 0,
            ..policy
        },
        RecoveryConfig {
            deadline: 3_600_000_000_001,
            ..policy
        },
    ] {
        assert!(matches!(
            Recovery::start(bad),
            Err(RecoveryError::InvalidConfig)
        ));
    }
}

#[test]
fn monitor_recovers_from_bind_failure_and_same_address_resume() {
    let (mut w, status) = NetworkWatch::on_change(v4([127, 0, 0, 1], 0));
    assert_eq!(status, NetworkStatus::Recovering);
    for wait in [1u128, 2, 4, 8, 16, 32, 32] {
        let (status, pause) = w.on_failed("address in use".to_string());
        assert_eq!(status, NetworkStatus::Failed("address in use".to_string()));
        assert_eq!(pause, wait * 1_000_000_000);
    }
    // A new report starts over.
    let (mut w, _) = NetworkWatch::on_change(v4([127, 0, 0, 1], 0));
    assert_eq!(w.on_failed(String::new()).1, 1_000_000_000);
    assert_eq!(
        w.on_bound(v4([127, 0, 0, 1], 9)),
        NetworkStatus::Ready(v4([127, 0, 0, 1], 9))
    );
}
