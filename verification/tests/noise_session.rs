//! Handshakes and sessions, datagram by datagram.
use warren::crypto::Keypair;
use warren::id::NodeId;
use warren::noise_link::{
    acknowledges, check_peer, check_responder, frame_transport, max_payload, pin, split_transport,
    tagged, unsealed, Answered, Arrival, Dialed, Dialer, Finished, Finishing, Heard, Listener, NodeCert,
    NoiseError, Opened, Role, Session, ACK, HS_RETRIES, TAG_MSG1, TAG_MSG2, TAG_MSG3,
    TAG_TRANSPORT, TRANSPORT_OVERHEAD,
};

const LINK: usize = 1200;

fn client_kp() -> Keypair {
    Keypair::from_seed(&[0x11; 32])
}

fn server_kp() -> Keypair {
    Keypair::from_seed(&[0x22; 32])
}

/// The node id derived from an identity keypair, which a dialer pins.
fn node_id_of(kp: &Keypair) -> NodeId {
    NodeId::from_bytes(*blake3::hash(&kp.public()).as_bytes())
}

/// One way of a link, which loses the datagrams at these positions.
struct Lossy {
    sent: usize,
    lose: Vec<usize>,
}

impl Lossy {
    fn new(lose: &[usize]) -> Self {
        Lossy {
            sent: 0,
            lose: lose.to_vec(),
        }
    }

    fn carry(&mut self, datagram: Vec<u8>) -> Option<Vec<u8>> {
        let n = self.sent;
        self.sent += 1;
        if self.lose.contains(&n) {
            None
        } else {
            Some(datagram)
        }
    }
}

/// The dialer's side of a handshake.
enum Client {
    Dialing(Dialer),
    Finishing(Finishing),
    Connected(Session),
}

/// The listener's side of a handshake.
enum Server {
    Listening(Listener),
    Answering(warren::noise_link::Answering),
    Connected(Session, NodeId),
}

/// Run a handshake over a link that loses datagrams, each side sending again
/// whenever nothing more arrives.
fn handshake(
    target: NodeId,
    up_lost: &[usize],
    down_lost: &[usize],
) -> Result<(Session, Session, NodeId), NoiseError> {
    let mut up = Lossy::new(up_lost);
    let mut down = Lossy::new(down_lost);
    let mut client = Client::Dialing(Dialer::start(&client_kp(), target)?);
    let mut server = Server::Listening(Listener::start(&server_kp())?);
    for _ in 0..100 {
        // The client sends, and the server takes in what arrives.
        let sent = match &mut client {
            Client::Dialing(d) => d.poll()?,
            Client::Finishing(f) => f.poll()?,
            Client::Connected(_) => unreachable!("the handshake is over"),
        };
        let mut replies: Vec<Vec<u8>> = Vec::new();
        if let Some(datagram) = up.carry(sent) {
            server = match server {
                Server::Listening(l) => match l.on_datagram(&datagram) {
                    Heard::Waiting(l) => Server::Listening(l),
                    Heard::Answering(a) => Server::Answering(a),
                    Heard::Failed(e) => return Err(e),
                },
                Server::Answering(a) => match a.on_datagram(&datagram) {
                    Answered::Waiting(a) => Server::Answering(a),
                    Answered::Done(s, peer, ack) => {
                        replies.push(ack);
                        Server::Connected(s, peer)
                    }
                    Answered::Failed(e) => return Err(e),
                },
                Server::Connected(mut s, peer) => {
                    match s.open(&datagram, LINK) {
                        Opened::Repeat(ack) => replies.push(ack),
                        Opened::Ignored => {}
                        Opened::Payload(_) => unreachable!("nothing was sent yet"),
                    }
                    Server::Connected(s, peer)
                }
            };
        }
        if let Server::Answering(a) = &mut server {
            replies.push(a.poll()?);
        }
        // The server's replies reach the client, or do not.
        for reply in replies {
            if let Some(datagram) = down.carry(reply) {
                client = match client {
                    Client::Dialing(d) => match d.on_datagram(&datagram) {
                        Dialed::Waiting(d) => Client::Dialing(d),
                        Dialed::Finishing(f) => Client::Finishing(f),
                        Dialed::Failed(e) => return Err(e),
                    },
                    Client::Finishing(f) => match f.on_datagram(&datagram) {
                        Finished::Waiting(f) => Client::Finishing(f),
                        Finished::Done(s) => Client::Connected(s),
                    },
                    Client::Connected(s) => Client::Connected(s),
                };
            }
        }
        if let Client::Connected(c) = client {
            return match server {
                Server::Connected(s, peer) => Ok((c, s, peer)),
                _ => panic!("the acknowledgment came from a server that is not connected"),
            };
        }
    }
    panic!("the handshake neither completed nor failed");
}

fn pair() -> (Session, Session) {
    let (client, server, _) = handshake(node_id_of(&server_kp()), &[], &[]).unwrap();
    (client, server)
}

fn receive(session: &mut Session, datagram: &[u8]) -> Option<Vec<u8>> {
    match session.open(datagram, LINK) {
        Opened::Payload(p) => Some(p),
        _ => None,
    }
}

#[test]
fn a_handshake_authenticates_both_sides() {
    let (mut client, mut server, peer) = handshake(node_id_of(&server_kp()), &[], &[]).unwrap();
    assert_eq!(peer, node_id_of(&client_kp()));

    let up = client.seal(LINK, b"hello").unwrap();
    assert_ne!(up, b"hello".to_vec());
    assert_eq!(up.len(), b"hello".len() + TRANSPORT_OVERHEAD);
    assert_eq!(receive(&mut server, &up), Some(b"hello".to_vec()));

    let down = server.seal(LINK, b"hello yourself").unwrap();
    assert_eq!(
        receive(&mut client, &down),
        Some(b"hello yourself".to_vec())
    );
}

#[test]
fn noise_handshake_recovers_when_message_2_is_lost() {
    handshake(node_id_of(&server_kp()), &[], &[0])
        .map(|_| ())
        .expect("a repeated message 1 recovers a lost message 2");
}

#[test]
fn noise_handshake_recovers_when_message_3_is_lost() {
    handshake(node_id_of(&server_kp()), &[1, 2], &[])
        .map(|_| ())
        .expect("message 3 is retransmitted until acknowledged");
}

#[test]
fn noise_handshake_recovers_when_completion_ack_is_lost() {
    let (mut client, mut server, _) = handshake(node_id_of(&server_kp()), &[], &[1])
        .map_err(|e| panic!("dialer recovers the ACK: {e:?}"))
        .unwrap();
    let hello = client.seal(LINK, b"hello").unwrap();
    assert_eq!(receive(&mut server, &hello), Some(b"hello".to_vec()));
}

#[test]
fn duplicate_handshake_datagram_does_not_poison_transport() {
    let target = node_id_of(&server_kp());
    let mut dialer = Dialer::start(&client_kp(), target).unwrap();
    let listener = Listener::start(&server_kp()).unwrap();
    let msg1 = dialer.poll().unwrap();
    let Heard::Answering(mut answering) = listener.on_datagram(&msg1) else {
        panic!("message 1 opens the handshake");
    };
    let msg2 = answering.poll().unwrap();
    let Dialed::Finishing(mut finishing) = dialer.on_datagram(&msg2) else {
        panic!("message 2 authenticates the listener");
    };
    let msg3 = finishing.poll().unwrap();
    // The duplicate of message 2 arrives where the acknowledgment is waited for.
    let Finished::Waiting(finishing) = finishing.on_datagram(&msg2) else {
        panic!("a duplicate is not the acknowledgment");
    };
    let Answered::Done(mut server, _, ack) = answering.on_datagram(&msg3) else {
        panic!("message 3 authenticates the dialer");
    };
    let Finished::Done(mut client) = finishing.on_datagram(&ack) else {
        panic!("the acknowledgment ends the handshake");
    };
    let hello = server.seal(LINK, b"hello").unwrap();
    assert_eq!(receive(&mut client, &hello), Some(b"hello".to_vec()));
    // Neither the acknowledgment nor a handshake message is taken for a payload.
    assert_eq!(receive(&mut client, &ack), None);
    assert_eq!(receive(&mut client, &msg2), None);
}

#[test]
fn noise_wrong_identity_is_rejected() {
    let decoy = Keypair::from_seed(&[0x99; 32]);
    match handshake(node_id_of(&decoy), &[], &[]) {
        Ok(_) => panic!("dialer must reject an identity mismatch"),
        Err(e) => assert_eq!(
            e,
            NoiseError::PermissionDenied(
                "Noise handshake: reached peer's identity does not match the dialed node id"
            )
        ),
    }
    // The dialer never sends message 3, so the listener gives up waiting for it.
    let mut dialer = Dialer::start(&client_kp(), node_id_of(&decoy)).unwrap();
    let listener = Listener::start(&server_kp()).unwrap();
    let Heard::Answering(mut answering) = listener.on_datagram(&dialer.poll().unwrap()) else {
        panic!("message 1 opens the handshake");
    };
    let Dialed::Failed(_) = dialer.on_datagram(&answering.poll().unwrap()) else {
        panic!("dialer must reject an identity mismatch");
    };
    let mut rounds = 0;
    let s = loop {
        match answering.poll() {
            Ok(_) => rounds += 1,
            Err(e) => break Err::<(), NoiseError>(e),
        }
        assert!(rounds <= 100, "the listener waits forever");
    };
    assert!(s.is_err());
    assert_eq!(
        s,
        Err(NoiseError::TimedOut(
            "Noise handshake: no finish (message 3)"
        ))
    );
}

#[test]
fn noise_rejects_a_tampered_datagram() {
    let (mut client, mut server) = pair();
    let hello = client.seal(LINK, b"hello").unwrap();
    assert_eq!(receive(&mut server, &hello), Some(b"hello".to_vec()));

    // Flip one ciphertext byte in flight. The bad datagram is treated as loss,
    // and the next genuine one still arrives.
    let mut world = client.seal(LINK, b"world").unwrap();
    let last = world.len() - 1;
    world[last] ^= 0x01;
    let again = client.seal(LINK, b"again").unwrap();
    assert_eq!(receive(&mut server, &world), None);
    assert_eq!(receive(&mut server, &again), Some(b"again".to_vec()));
}

#[test]
fn noise_rejects_an_injected_datagram() {
    let (mut client, mut server) = pair();
    let one = client.seal(LINK, b"one").unwrap();
    assert_eq!(receive(&mut server, &one), Some(b"one".to_vec()));
    assert_eq!(receive(&mut server, &[0u8; 48]), None);
    let mut forged = vec![0u8; 48];
    forged[0] = TAG_TRANSPORT;
    forged[1] = 9;
    assert_eq!(receive(&mut server, &forged), None);
    let two = client.seal(LINK, b"two").unwrap();
    assert_eq!(receive(&mut server, &two), Some(b"two".to_vec()));
}

#[test]
fn noise_rejects_a_replayed_datagram() {
    let (mut client, mut server) = pair();
    let one = client.seal(LINK, b"one").unwrap();
    assert_eq!(receive(&mut server, &one), Some(b"one".to_vec()));
    assert_eq!(server.classify(&one), Arrival::Ignored);
    assert_eq!(receive(&mut server, &one), None);
    let two = client.seal(LINK, b"two").unwrap();
    assert_eq!(receive(&mut server, &two), Some(b"two".to_vec()));
}

#[test]
fn reordered_datagrams_are_each_delivered_once() {
    let (mut client, mut server) = pair();
    let sent: Vec<Vec<u8>> = (0..10u8)
        .map(|i| client.seal(LINK, &[i; 3]).unwrap())
        .collect();
    for (i, d) in sent.iter().enumerate().rev() {
        assert_eq!(receive(&mut server, d), Some(vec![i as u8; 3]));
    }
    for d in &sent {
        assert_eq!(receive(&mut server, d), None);
    }
}

#[test]
fn the_last_handshake_message_is_acknowledged_until_the_peer_speaks() {
    let target = node_id_of(&server_kp());
    let mut dialer = Dialer::start(&client_kp(), target).unwrap();
    let listener = Listener::start(&server_kp()).unwrap();
    let msg1 = dialer.poll().unwrap();
    assert_eq!(msg1[0], TAG_MSG1);
    let Heard::Answering(mut answering) = listener.on_datagram(&msg1) else {
        panic!("message 1 opens the handshake");
    };
    let msg2 = answering.poll().unwrap();
    assert_eq!(msg2[0], TAG_MSG2);
    let Dialed::Finishing(mut finishing) = dialer.on_datagram(&msg2) else {
        panic!("message 2 authenticates the listener");
    };
    let msg3 = finishing.poll().unwrap();
    assert_eq!(msg3[0], TAG_MSG3);
    let Answered::Done(mut server, _, ack) = answering.on_datagram(&msg3) else {
        panic!("message 3 authenticates the dialer");
    };
    assert_eq!(server.open(&msg3, LINK), Opened::Repeat(ack.clone()));
    assert_eq!(server.open(&msg3, LINK), Opened::Repeat(ack.clone()));
    let Finished::Done(mut client) = finishing.on_datagram(&ack) else {
        panic!("the acknowledgment ends the handshake");
    };
    let hello = client.seal(LINK, b"hello").unwrap();
    assert_eq!(server.open(&hello, LINK), Opened::Payload(b"hello".to_vec()));
    assert_eq!(server.open(&msg3, LINK), Opened::Ignored);
}

#[test]
fn retries_run_out_with_a_reason() {
    let target = node_id_of(&server_kp());
    let mut dialer = Dialer::start(&client_kp(), target).unwrap();
    let first = dialer.poll().unwrap();
    for _ in 1..HS_RETRIES {
        assert_eq!(dialer.poll().unwrap(), first);
    }
    assert_eq!(
        dialer.poll(),
        Err(NoiseError::TimedOut(
            "Noise handshake: no response (message 2)"
        ))
    );

    let mut listener = Listener::start(&server_kp()).unwrap();
    for _ in 0..HS_RETRIES {
        assert_eq!(listener.poll(), Ok(()));
    }
    assert_eq!(
        listener.poll(),
        Err(NoiseError::TimedOut(
            "Noise handshake: no opener (message 1)"
        ))
    );

    let Heard::Answering(mut answering) = listener.on_datagram(&first) else {
        panic!("message 1 opens the handshake");
    };
    let msg2 = answering.poll().unwrap();
    for _ in 1..HS_RETRIES {
        assert_eq!(answering.poll().unwrap(), msg2);
    }
    assert_eq!(
        answering.poll(),
        Err(NoiseError::TimedOut(
            "Noise handshake: no finish (message 3)"
        ))
    );

    let Dialed::Finishing(mut finishing) = dialer.on_datagram(&msg2) else {
        panic!("message 2 authenticates the listener");
    };
    for _ in 0..HS_RETRIES {
        finishing.poll().unwrap();
    }
    assert_eq!(
        finishing.poll(),
        Err(NoiseError::TimedOut(
            "Noise handshake: no completion acknowledgment"
        ))
    );
}

#[test]
fn a_garbled_handshake_message_fails_the_handshake() {
    let target = node_id_of(&server_kp());
    let dialer = Dialer::start(&client_kp(), target).unwrap();
    let Dialed::Failed(e) = dialer.on_datagram(&tagged(TAG_MSG2, &[7; 90])) else {
        panic!("garbage is no message 2");
    };
    assert_eq!(e, NoiseError::Noise);
    let listener = Listener::start(&server_kp()).unwrap();
    let Heard::Failed(e) = listener.on_datagram(&tagged(TAG_MSG1, &[])) else {
        panic!("an empty message is no message 1");
    };
    assert_eq!(e, NoiseError::Noise);
    // A message that is not the one waited for is ignored.
    let listener = Listener::start(&server_kp()).unwrap();
    assert!(matches!(
        listener.on_datagram(&tagged(TAG_MSG3, &[1, 2, 3])),
        Heard::Waiting(_)
    ));
}

#[test]
fn payloads_are_held_to_the_link() {
    assert_eq!(max_payload(1200), 1175);
    assert_eq!(max_payload(10), 0);
    let (mut client, _) = pair();
    let largest = vec![1u8; max_payload(LINK)];
    assert_eq!(client.seal(LINK, &largest).unwrap().len(), LINK);
    let over = vec![1u8; max_payload(LINK) + 1];
    assert_eq!(
        client.seal(LINK, &over),
        Err(NoiseError::InvalidInput(
            "Noise transport payload exceeds the inner link MTU"
        ))
    );
    // A payload that was refused took no nonce.
    let next = client.seal(LINK, b"x").unwrap();
    assert_eq!(split_transport(&next).unwrap().0, 1);
}

#[test]
fn transport_datagrams_have_one_exact_layout() {
    let d = frame_transport(0x0102_0304_0506_0708, &[0xaa; 16]);
    assert_eq!(d[..9], [4, 8, 7, 6, 5, 4, 3, 2, 1]);
    assert_eq!(
        split_transport(&d),
        Some((0x0102_0304_0506_0708, &[0xaa; 16][..]))
    );
    assert_eq!(split_transport(&d[..24]), None);
    let mut other = d.clone();
    other[0] = 3;
    assert_eq!(split_transport(&other), None);
    assert!(acknowledges(0, b"warren-noise-ack-v1"));
    assert!(!acknowledges(1, &ACK));
    assert!(!acknowledges(0, b"warren-noise-ack-v2"));
}

fn cert(role: Role) -> NodeCert {
    NodeCert::create(&server_kp(), &[5; 32], role).unwrap()
}

#[test]
fn a_certificate_is_bound_to_key_and_role() {
    let c = cert(Role::Responder);
    assert_eq!(c.verify(&[5; 32], Role::Responder), Ok(()));
    assert_eq!(c.node_id(), node_id_of(&server_kp()));
    let back = NodeCert::decode(&c.encode()).unwrap();
    assert_eq!(back.ed_pub, c.ed_pub);
    assert_eq!(back.noise_static_pub, [5; 32]);
    assert_eq!(back.sig, c.sig);
    assert_eq!(
        c.verify(&[6; 32], Role::Responder),
        Err(NoiseError::PermissionDenied(
            "node cert static key does not match the Noise-authenticated key"
        ))
    );
    assert_eq!(
        c.verify(&[5; 32], Role::Initiator),
        Err(NoiseError::PermissionDenied(
            "node cert signature verification failed"
        ))
    );
    let mut broken = c;
    broken.ed_pub = invalid_key();
    assert_eq!(
        broken.verify(&[5; 32], Role::Responder),
        Err(NoiseError::PermissionDenied(
            "node cert has an invalid Ed25519 public key"
        ))
    );
    assert_eq!(
        NodeCert::create(&server_kp(), &[5; 31], Role::Initiator).map(|c| c.sig),
        Err(NoiseError::InvalidData("noise static key is not 32 bytes"))
    );
    assert_eq!(
        NodeCert::decode(&c.encode()[..127]).map(|c| c.sig),
        Err(NoiseError::InvalidData("node cert has the wrong length"))
    );
}

/// Bytes that are no public key.
fn invalid_key() -> [u8; 32] {
    (0..=255u8)
        .map(|b| [b; 32])
        .find(|k| ed25519_dalek::VerifyingKey::from_bytes(k).is_err())
        .unwrap()
}

#[test]
fn certificates_are_judged_by_what_was_found() {
    let c = cert(Role::Initiator);
    assert_eq!(c.judge(&[5; 32], true, true), Ok(()));
    assert!(c.judge(&[4; 32], true, true).is_err());
    assert!(c.judge(&[5; 32], false, true).is_err());
    assert!(c.judge(&[5; 32], true, false).is_err());
    let id = node_id_of(&server_kp());
    assert_eq!(pin(Ok(()), id, id), Ok(()));
    assert!(pin(Ok(()), id, node_id_of(&client_kp())).is_err());
}

#[test]
fn a_peer_is_checked_against_the_key_of_the_handshake() {
    let payload = cert(Role::Responder).encode();
    let id = node_id_of(&server_kp());
    assert_eq!(check_responder(&payload, &Some(vec![5; 32]), id), Ok(()));
    assert_eq!(
        check_responder(&payload, &None, id),
        Err(NoiseError::InvalidData(
            "Noise handshake does not expose a remote static key"
        ))
    );
    assert_eq!(
        check_responder(&payload, &Some(vec![5; 31]), id),
        Err(NoiseError::InvalidData(
            "Noise remote static key is not 32 bytes"
        ))
    );
    assert!(check_peer(&payload, &Some(vec![5; 32]), Role::Initiator).is_err());
    assert!(check_peer(&payload[1..], &Some(vec![5; 32]), Role::Responder).is_err());
}

#[test]
fn a_datagram_brings_what_its_ciphertext_opened_as() {
    let d = frame_transport(7, &[0xaa; 18]);
    assert_eq!(unsealed(&d, Some(b"hi".to_vec())), Some((7, b"hi".to_vec())));
    assert_eq!(unsealed(&d, None), None);
    assert_eq!(unsealed(&d[..24], Some(b"hi".to_vec())), None);
}
