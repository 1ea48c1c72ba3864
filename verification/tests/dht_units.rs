//! The discovery core, driven packet by packet.
use warren::addr::{IpAddr, SocketAddr};
use warren::dht::{Dht, Event};
use warren::firewall::Firewall;
use warren::id::NodeId;
use warren::msg::{Message, Packet};

/// The address written as `a.b.c.d:port`.
fn addr(s: &str) -> SocketAddr {
    let (host, port) = s.split_once(':').unwrap();
    let parts: Vec<u8> = host.split('.').map(|p| p.parse().unwrap()).collect();
    SocketAddr::new(
        IpAddr::V4([parts[0], parts[1], parts[2], parts[3]]),
        port.parse().unwrap(),
    )
}

fn id(b: u8) -> NodeId {
    NodeId::from_bytes([b; 32])
}

fn signal_request(initiator: NodeId, target: NodeId, data_addr: SocketAddr) -> Vec<u8> {
    Packet {
        sender: id(9),
        rid: 1,
        msg: Message::Signal {
            target,
            initiator,
            initiator_addr: addr("10.0.0.2:100"),
            data_addrs: vec![data_addr],
            firewall: Firewall::Consistent,
            is_reply: false,
        },
    }
    .encode()
}

/// A connect request replayed for the same initiator must surface
/// `IncomingConnect` only once — each event drives the caller to bind a
/// socket and start a punch, so re-emitting on duplicates (which an
/// unauthenticated peer can replay) would be an amplification vector — and a
/// replay via a *different* coordinator must not redirect where the reply is
/// later sent.
#[test]
fn duplicate_incoming_requests_emit_once_and_dont_redirect() {
    let me = id(1);
    let initiator = id(2);
    let mut dht = Dht::new(me);
    let coord_a = addr("10.0.0.9:900");
    let coord_b = addr("10.0.0.8:800"); // a replay's (spoofed) coordinator

    let request = signal_request(initiator, me, addr("10.0.0.2:200"));
    dht.handle_input(coord_a, &request, 0);
    dht.handle_input(coord_b, &request, 0); // replay via a different coordinator

    let incoming = std::iter::from_fn(|| dht.poll_event())
        .filter(|e| matches!(e, Event::IncomingConnect { .. }))
        .count();
    assert_eq!(
        incoming, 1,
        "duplicate requests must emit exactly one event"
    );

    // Accepting sends the reply back through the *first* coordinator, never
    // the replay's — the replay can't redirect it.
    dht.accept_connect(initiator, vec![addr("10.0.0.1:50")], 1);
    let reply_dests: Vec<SocketAddr> = std::iter::from_fn(|| dht.poll_transmit())
        .map(|t| t.to)
        .collect();
    assert!(
        reply_dests.contains(&coord_a),
        "reply must go to the first coordinator, got {reply_dests:?}"
    );
    assert!(
        !reply_dests.contains(&coord_b),
        "a replay must not redirect the reply to its coordinator"
    );
}

/// A `Reflect` is echoed to its source but, unlike a `Ping`, does not add the
/// (transient data-socket) sender to routing — otherwise a reflexive probe
/// would poison the table with an ephemeral address.
#[test]
fn reflect_is_echoed_without_poisoning_routing() {
    let mut dht = Dht::new(id(1));
    // Stands in for a NAT-mapped data-socket source.
    let prober = addr("203.0.113.7:51000");

    let reflect = Packet {
        sender: id(2),
        rid: 5,
        msg: Message::Reflect,
    }
    .encode();
    dht.handle_input(prober, &reflect, 0);

    let replies: Vec<_> = std::iter::from_fn(|| dht.poll_transmit()).collect();
    assert_eq!(replies.len(), 1, "a Reflect must be answered once");
    assert_eq!(replies[0].to, prober);
    assert_eq!(
        Packet::decode(&replies[0].data).unwrap().msg,
        Message::Reflected { observed: prober },
        "Reflected must echo the observed source"
    );
    assert_eq!(
        dht.routing_len(),
        0,
        "a Reflect must not add the transient prober to routing"
    );

    // Contrast: a Ping from the same peer *is* routing evidence.
    let ping = Packet {
        sender: id(2),
        rid: 6,
        msg: Message::Ping,
    }
    .encode();
    dht.handle_input(prober, &ping, 0);
    assert_eq!(dht.routing_len(), 1, "a Ping is routing evidence");
}
