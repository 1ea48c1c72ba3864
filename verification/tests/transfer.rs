//! Transfers over a lossy link, datagram by datagram.
use ed25519_dalek::{Signature, Verifier, VerifyingKey};
use warren::blob::{Manifest, Store, CHUNK_SIZE};
use warren::blob_download::{serve_blob, BlobDownload};
use warren::crypto::{Digest, Keypair};
use warren::feed::{Head, Proof};
use warren::feed_window::FeedWindow;
use warren::frame::MAX_MESSAGE;
use warren::id::NodeId;
use warren::noise_link::{
    Answered, Dialed, Dialer, Finished, Heard, Listener, Opened, Session,
};
use warren::plan::{Holdings, Selection};
use warren::serving::{keepalive, Action, Event, Serving};
use warren::subscribe::Subscription;
use warren::swarm::{
    haveset_reply, manifest_checked, manifest_reply, reached_by, stream_window, ChunkFetch,
    Delivery, ManifestSearch, Reached, Swarm, STEAL_BATCH,
};
use warren::sync::{serve_feed, FeedDownload, FeedState, HeldBlock};
use warren::sync_msg::{Message, SyncError};
use warren::transfer::{
    Config, Cursor, Elapsed, Exchange, IoKind, Recv, TransferError, Wire, FRAGMENT,
    MIN_PACING_SLEEP,
};

fn hash(bytes: &[u8]) -> Digest {
    *blake3::hash(bytes).as_bytes()
}

fn root_of(nodes: &[Digest]) -> Digest {
    hash(&nodes.concat())
}

fn signed_bytes(len: u64, root: &Digest) -> Vec<u8> {
    let mut bytes = len.to_le_bytes().to_vec();
    bytes.extend_from_slice(root);
    bytes
}

/// What a server can show of a feed: its root is the hash of the block hashes,
/// which a block's proof lists.
fn feed_of(key: &Keypair, blocks: &[Vec<u8>]) -> FeedState {
    let nodes: Vec<Digest> = blocks.iter().map(|b| hash(b)).collect();
    let root = root_of(&nodes);
    let len = blocks.len() as u64;
    FeedState {
        head: Head {
            len,
            root,
            signature: key.sign(&signed_bytes(len, &root)),
        },
        blocks: blocks
            .iter()
            .enumerate()
            .map(|(i, data)| HeldBlock {
                index: i as u64,
                data: data.clone(),
                proof: Proof {
                    nodes: nodes.clone(),
                },
            })
            .collect(),
        peaks: vec![(0, root)],
        ranges: vec![(0, len)],
    }
}

/// What the key and the head say of a response.
fn verdict(key: &[u8; 32], head: Option<Head>, m: &Message) -> bool {
    match (m, head) {
        (Message::Head(h), _) => VerifyingKey::from_bytes(key).is_ok_and(|k| {
            k.verify(
                &signed_bytes(h.len, &h.root),
                &Signature::from_bytes(&h.signature),
            )
            .is_ok()
        }),
        (Message::Block { index, data, proof }, Some(h)) => {
            proof.nodes.len() as u64 == h.len
                && root_of(&proof.nodes) == h.root
                && *index < h.len
                && proof.nodes[*index as usize] == hash(data)
        }
        (Message::Peaks { nodes }, Some(h)) => nodes.len() == 1 && nodes[0].1 == h.root,
        _ => false,
    }
}

fn fast_cfg() -> Config {
    Config {
        request_timeout: 60_000_000,
        retries: 4,
        idle: 300_000_000,
        initial_rtt: 1_000_000,
    }
}

/// One way of a link, which loses the datagrams at these positions.
struct Lossy {
    sent: usize,
    lose: Vec<usize>,
}

impl Lossy {
    fn new(lose: &[usize]) -> Self {
        Lossy {
            sent: 0,
            lose: lose.to_vec(),
        }
    }

    fn carry(&mut self, datagrams: Vec<Vec<u8>>) -> Vec<Vec<u8>> {
        let mut out = Vec::new();
        for d in datagrams {
            if !self.lose.contains(&self.sent) {
                out.push(d);
            }
            self.sent += 1;
        }
        out
    }
}

/// What a server sends when a datagram brings something, and whether it is a
/// repair.
fn answer(
    serving: &mut Serving,
    wire: &mut Wire,
    recv: Recv,
    respond: &dyn Fn(&Message) -> Message,
) -> (Vec<Vec<u8>>, bool) {
    let event = match recv {
        Recv::Message(m) => Event::Message(m),
        Recv::Nack { id, indices } => Event::Nack { id, indices },
    };
    let mut action = serving.step(wire, event, 0);
    if let Action::Ask(request) = action {
        action = serving.step(wire, Event::Response(respond(&request)), 0);
    }
    match action {
        Action::Reply(datagrams) => {
            assert!(matches!(serving.step(wire, Event::Sent, 0), Action::Wait));
            (datagrams, false)
        }
        Action::Resend(datagrams) => {
            assert!(matches!(serving.step(wire, Event::Sent, 0), Action::Wait));
            (datagrams, true)
        }
        Action::Wait => (Vec::new(), false),
        _ => panic!("the server fell out of step"),
    }
}

/// A client and a server, with a link between them.
struct Pair {
    client: Wire,
    server: Wire,
    serving: Serving,
    up: Lossy,
    down: Lossy,
    repaired: usize,
}

impl Pair {
    fn new(up: &[usize], down: &[usize]) -> Self {
        let cfg = fast_cfg();
        let wire = || {
            Wire::new(
                cfg.initial_rtt,
                cfg.request_timeout,
                Cursor::default(),
                FRAGMENT,
            )
        };
        Pair {
            client: wire(),
            server: wire(),
            serving: Serving::new(cfg.idle, false, 0),
            up: Lossy::new(up),
            down: Lossy::new(down),
            repaired: 0,
        }
    }

    /// Hand datagrams to the server; what it sends back and the link delivers.
    fn serve(
        &mut self,
        datagrams: Vec<Vec<u8>>,
        respond: &dyn Fn(&Message) -> Message,
    ) -> Vec<Vec<u8>> {
        let mut back = Vec::new();
        for d in self.up.carry(datagrams) {
            if let Some(recv) = self.server.on_datagram(&d) {
                let (out, repair) = answer(&mut self.serving, &mut self.server, recv, respond);
                if repair {
                    self.repaired += out.len();
                }
                back.extend(out);
            }
        }
        self.down.carry(back)
    }

    /// Send a request and wait for the response.
    fn exchange(
        &mut self,
        request: &Message,
        respond: &dyn Fn(&Message) -> Message,
    ) -> Result<Message, TransferError> {
        let cfg = fast_cfg();
        let mut outgoing = self.client.send(request)?;
        let mut e = Exchange::begin(&self.client, &cfg);
        loop {
            let sent = std::mem::take(&mut outgoing);
            for d in self.serve(sent, respond) {
                if let Some(recv) = self.client.on_datagram(&d) {
                    if let Some(m) = Exchange::on_recv(recv) {
                        return Ok(m);
                    }
                }
            }
            match e.on_elapsed(&self.client) {
                Elapsed::Wait => {}
                Elapsed::Repair { datagram, give_up } => {
                    if give_up {
                        return Err(TransferError::Timeout);
                    }
                    outgoing.push(datagram);
                }
                Elapsed::Ask { give_up } => {
                    if give_up {
                        return Err(TransferError::Timeout);
                    }
                    outgoing = self.client.send(request)?;
                }
            }
        }
    }

    fn download_feed(&mut self, key: [u8; 32], source: &FeedState) -> Vec<Vec<u8>> {
        let mut dl = FeedDownload::new(key);
        while let Some(request) = dl.poll_request() {
            let m = self
                .exchange(&request, &|r| serve_feed(r, source))
                .unwrap();
            let verified = verdict(&key, dl.head(), &m);
            dl.handle_response(&m, verified).unwrap();
        }
        assert!(dl.is_complete());
        dl.into_blocks()
    }
}

#[test]
fn selective_repeat_recovers_a_lossy_feed_download() {
    let key = Keypair::from_seed(&[7u8; 32]);
    let expected: Vec<Vec<u8>> = (0..3u8).map(|i| vec![i; 30_000]).collect();
    let source = feed_of(&key, &expected);
    // Drop a scattered handful of the server's data fragments (the head reply
    // is a single fragment, index 0; the rest are big block replies).
    let mut pair = Pair::new(&[], &[3, 5, 8, 13, 21]);
    assert_eq!(pair.download_feed(key.public(), &source), expected);
    assert_eq!(pair.repaired, 5, "only what was lost is sent again");
}

#[test]
fn a_lossless_link_needs_no_repair() {
    let key = Keypair::from_seed(&[8u8; 32]);
    let expected: Vec<Vec<u8>> = (0..4u8).map(|i| vec![i; 5_000]).collect();
    let source = feed_of(&key, &expected);
    let mut pair = Pair::new(&[], &[]);
    assert_eq!(pair.download_feed(key.public(), &source), expected);
    assert_eq!(pair.repaired, 0);
}

#[test]
fn a_lost_request_is_asked_again() {
    let key = Keypair::from_seed(&[8u8; 32]);
    let expected = vec![vec![1u8; 10]];
    let source = feed_of(&key, &expected);
    let mut pair = Pair::new(&[0, 2], &[1]);
    assert_eq!(pair.download_feed(key.public(), &source), expected);
}

#[test]
fn a_silent_peer_is_given_up_on() {
    let mut pair = Pair::new(&(0..100).collect::<Vec<_>>(), &[]);
    assert_eq!(
        pair.exchange(&Message::GetHead, &|_| Message::Absent),
        Err(TransferError::Timeout)
    );
    assert_eq!(pair.up.sent, 5, "the request, and four retries");
}

#[test]
fn an_over_large_message_is_refused_up_front() {
    let mut wire = Wire::new(1, 1, Cursor::default(), FRAGMENT);
    let big = Message::Chunk {
        data: vec![0; MAX_MESSAGE],
    };
    let size = big.encode().len();
    assert_eq!(
        wire.send(&big),
        Err(TransferError::MessageTooLarge(size))
    );
    assert!(!wire.has_sent());
    assert_eq!(wire.cursor(), Cursor::default());
}

#[test]
fn a_session_is_carried_from_wire_to_wire() {
    let mut first = Wire::new(1, 1, Cursor::default(), FRAGMENT);
    let mut peer = Wire::new(1, 1, Cursor::default(), FRAGMENT);
    let request = first.send(&Message::GetHead).unwrap();
    assert!(matches!(
        peer.on_datagram(&request[0]),
        Some(Recv::Message(Message::GetHead))
    ));
    let cursor = first.cursor();
    assert_eq!(cursor.next_id, 1);
    let mut second = Wire::new(1, 1, cursor, FRAGMENT);
    let again = second.send(&Message::GetPeaks).unwrap();
    assert!(matches!(
        peer.on_datagram(&again[0]),
        Some(Recv::Message(Message::GetPeaks))
    ));
    // A wire that forgot its session sends what the peer has seen.
    let mut forgot = Wire::new(1, 1, Cursor::default(), FRAGMENT);
    let stale = forgot.send(&Message::GetHead).unwrap();
    assert_eq!(peer.on_datagram(&stale[0]), None);
}

#[test]
fn a_server_paces_and_backs_off() {
    let rtt = 10_000_000u128;
    let wire = Wire::new(rtt, 10 * rtt, Cursor::default(), FRAGMENT);
    // Ten fragments a round trip: one a millisecond, the shortest pause there is.
    let pauses = wire.pauses(25);
    assert_eq!(pauses.len(), 25);
    assert_eq!(pauses.iter().filter(|p| **p > 0).count(), 24);
    assert!(pauses.iter().all(|p| *p == 0 || *p >= MIN_PACING_SLEEP));

    let mut wire = Wire::new(rtt, 10 * rtt, Cursor::default(), FRAGMENT);
    let mut serving = Serving::new(1_000, false, 5);
    assert_eq!(serving.deadline(), 1_005);
    assert!(matches!(
        serving.step(&mut wire, Event::Message(Message::GetHead), 10),
        Action::Ask(Message::GetHead)
    ));
    // Nothing but the response is waited for now.
    assert!(matches!(
        serving.step(&mut wire, Event::Silence, 9_999),
        Action::Ignore
    ));
    let Action::Reply(reply) = serving.step(&mut wire, Event::Response(Message::Absent), 20) else {
        panic!("a request draws a reply");
    };
    assert_eq!(reply.len(), 1);
    assert_eq!(serving.deadline(), 1_005);
    assert!(matches!(
        serving.step(&mut wire, Event::Sent, 30),
        Action::Wait
    ));
    assert_eq!(serving.deadline(), 1_030);
    // A response is not answered, and extends nothing.
    assert!(matches!(
        serving.step(&mut wire, Event::Message(Message::Absent), 40),
        Action::Wait
    ));
    // A request to resend a message that was not sent resends nothing.
    let stale = Event::Nack {
        id: 9,
        indices: vec![0],
    };
    assert!(matches!(serving.step(&mut wire, stale, 50), Action::Wait));
    assert_eq!(serving.deadline(), 1_030);
    let missing = Event::Nack {
        id: 0,
        indices: vec![0, 0, 7],
    };
    let Action::Resend(again) = serving.step(&mut wire, missing, 60) else {
        panic!("a fragment of the last reply is resent");
    };
    assert_eq!(again, reply);
    let before = wire.pauses(25);
    assert!(matches!(
        serving.step(&mut wire, Event::Sent, 70),
        Action::Wait
    ));
    assert_eq!(serving.deadline(), 1_070);
    // The loss slows the wire down.
    assert!(wire.pauses(25).iter().sum::<u128>() > before.iter().sum::<u128>());
    assert!(matches!(
        serving.step(&mut wire, Event::Silence, 1_069),
        Action::Wait
    ));
    assert!(matches!(
        serving.step(&mut wire, Event::Silence, 1_070),
        Action::End
    ));
}

#[test]
fn a_held_poll_is_answered_once() {
    let key = Keypair::from_seed(&[8u8; 32]);
    let old = Message::Head(feed_of(&key, &[vec![1]]).head);
    let new = Message::Head(feed_of(&key, &[vec![1], vec![2]]).head);
    let poll = Message::Tail { have: 1 };
    let mut wire = Wire::new(1, 1, Cursor::default(), FRAGMENT);
    let mut peer = Wire::new(1, 1, Cursor::default(), FRAGMENT);
    let mut serving = Serving::new(1_000, true, 0);

    // The keepalive elapses: the unchanged head goes out.
    assert!(matches!(
        serving.step(&mut wire, Event::Message(poll.clone()), 1),
        Action::Ask(_)
    ));
    assert!(matches!(
        serving.step(&mut wire, Event::Response(old.clone()), 2),
        Action::Watch(_)
    ));
    assert!(matches!(
        serving.step(&mut wire, Event::Response(old.clone()), 3),
        Action::Hold
    ));
    let Action::Reply(reply) = serving.step(&mut wire, Event::Kept, 4) else {
        panic!("the keepalive is a reply");
    };
    assert_eq!(
        peer.on_datagram(&reply[0]),
        Some(Recv::Message(old.clone()))
    );
    assert!(matches!(
        serving.step(&mut wire, Event::Sent, 5),
        Action::Wait
    ));

    // An append ends the wait: the feed is read again.
    assert!(matches!(
        serving.step(&mut wire, Event::Message(Message::GetHead), 6),
        Action::Ask(_)
    ));
    assert!(matches!(
        serving.step(&mut wire, Event::Response(old.clone()), 7),
        Action::Reply(_)
    ));
    assert!(matches!(
        serving.step(&mut wire, Event::Sent, 8),
        Action::Wait
    ));
    assert!(matches!(
        serving.step(&mut wire, Event::Message(poll), 9),
        Action::Ask(_)
    ));
    assert!(matches!(
        serving.step(&mut wire, Event::Response(old.clone()), 10),
        Action::Watch(_)
    ));
    assert!(matches!(
        serving.step(&mut wire, Event::Response(old), 11),
        Action::Hold
    ));
    assert!(matches!(
        serving.step(&mut wire, Event::Appended, 12),
        Action::Ask(Message::Tail { have: 1 })
    ));
    let Action::Reply(reply) = serving.step(&mut wire, Event::Response(new.clone()), 13) else {
        panic!("the new head goes out at once");
    };
    assert_eq!(peer.on_datagram(&reply[0]), Some(Recv::Message(new)));
}

#[test]
fn a_poll_is_held_only_at_the_head() {
    let key = Keypair::from_seed(&[8u8; 32]);
    let source = feed_of(&key, &[vec![1], vec![2]]);
    let head = Message::Head(source.head);
    assert!(Serving::holds(&Message::Tail { have: 2 }, &head));
    assert!(!Serving::holds(&Message::Tail { have: 1 }, &head));
    assert!(!Serving::holds(&Message::Tail { have: 3 }, &head));
    assert!(!Serving::holds(&Message::GetHead, &head));
    assert_eq!(keepalive(&Config::default()), 1_000_000_000);
}

#[test]
fn windowed_download_fetches_head_peaks_and_the_window() {
    let key = Keypair::from_seed(&[0x5c; 32]);
    let blocks: Vec<Vec<u8>> = (0..20u8)
        .map(|i| vec![i; (i as usize % 5) + 1])
        .collect();
    let source = feed_of(&key, &blocks);
    let mut pair = Pair::new(&[], &[]);
    let want = vec![3u64, 4, 17];
    let mut w = FeedWindow::new(key.public(), want.clone());
    while let Some(request) = w.poll_request() {
        let m = pair
            .exchange(&request, &|r| serve_feed(r, &source))
            .unwrap();
        let verified = verdict(&key.public(), w.head(), &m);
        w.handle_response(&m, verified).unwrap();
    }
    assert!(w.missing().is_empty(), "a full log serves the whole window");
    let window = w.into_window().unwrap();
    assert_eq!(window.head, source.head, "the verified head round-trips");
    assert_eq!(window.peaks, source.peaks);
    assert_eq!(
        window.blocks.iter().map(|(i, _, _)| *i).collect::<Vec<_>>(),
        want,
        "fetched exactly the requested indices, ascending"
    );
    for (i, data, _) in &window.blocks {
        assert_eq!(data, &blocks[*i as usize]);
    }
}

#[test]
fn a_window_past_the_head_is_missing() {
    let key = Keypair::from_seed(&[9u8; 32]);
    let blocks: Vec<Vec<u8>> = (0..12u8).map(|i| vec![i; 3_000]).collect();
    let source = feed_of(&key, &blocks);
    let mut pair = Pair::new(&[], &[4, 6]);
    let mut w = FeedWindow::new(key.public(), vec![2, 5, 40]);
    while let Some(request) = w.poll_request() {
        let m = pair
            .exchange(&request, &|r| serve_feed(r, &source))
            .unwrap();
        let verified = verdict(&key.public(), w.head(), &m);
        w.handle_response(&m, verified).unwrap();
    }
    assert_eq!(w.missing(), vec![40]);
    let window = w.into_window().unwrap();
    assert_eq!(window.head, source.head);
    assert_eq!(window.peaks, source.peaks);
    let got: Vec<(u64, Vec<u8>)> = window
        .blocks
        .iter()
        .map(|(i, d, _)| (*i, d.clone()))
        .collect();
    assert_eq!(got, vec![(2, blocks[2].clone()), (5, blocks[5].clone())]);
}

/// One round of a subscription; the blocks it delivers.
fn follow(
    pair: &mut Pair,
    s: &mut Subscription,
    key: &[u8; 32],
    source: &FeedState,
) -> Result<Vec<Vec<u8>>, SyncError> {
    while let Some(request) = s.poll_request() {
        let m = pair
            .exchange(&request, &|r| serve_feed(r, source))
            .unwrap();
        let verified = verdict(key, s.head(), &m);
        s.handle_response(&m, verified)?;
    }
    Ok(s.finish_round())
}

#[test]
fn subscribe_receives_live_appends() {
    let key = Keypair::from_seed(&[9u8; 32]);
    // Two blocks exist before anyone subscribes.
    let mut blocks = vec![vec![0u8; 100], vec![1u8; 100]];
    let mut pair = Pair::new(&[], &[]);
    let mut s = Subscription::new(key.public(), 0);
    let mut receive = |blocks: &[Vec<u8>]| -> Vec<(u64, Vec<u8>)> {
        let from = s.cursor();
        follow(&mut pair, &mut s, &key.public(), &feed_of(&key, blocks))
            .unwrap()
            .into_iter()
            .enumerate()
            .map(|(i, b)| (from + i as u64, b))
            .collect()
    };
    // The two existing blocks arrive.
    assert_eq!(
        receive(&blocks),
        vec![(0, vec![0u8; 100]), (1, vec![1u8; 100])]
    );
    // A block appended after subscribing arrives, without the earlier ones.
    blocks.push(vec![2u8; 100]);
    assert_eq!(receive(&blocks), vec![(2, vec![2u8; 100])]);
    // And another, to confirm the tail keeps flowing.
    blocks.push(vec![3u8; 100]);
    assert_eq!(receive(&blocks), vec![(3, vec![3u8; 100])]);
}

#[test]
fn a_subscriber_follows_over_a_lossy_link() {
    let key = Keypair::from_seed(&[3u8; 32]);
    let mut blocks: Vec<Vec<u8>> = (0..3u8).map(|i| vec![i; 40]).collect();
    let mut pair = Pair::new(&[], &[2]);
    let mut s = Subscription::new(key.public(), 1);
    let mut seen = Vec::new();
    for more in 0..3 {
        let source = feed_of(&key, &blocks);
        let from = s.cursor();
        for (i, b) in follow(&mut pair, &mut s, &key.public(), &source)
            .unwrap()
            .into_iter()
            .enumerate()
        {
            seen.push((from + i as u64, b));
        }
        blocks.push(vec![100 + more; 2000]);
    }
    let expected: Vec<(u64, Vec<u8>)> = (1..5u64)
        .map(|i| (i, blocks[i as usize].clone()))
        .collect();
    assert_eq!(seen, expected);
    assert_eq!(s.cursor(), 5);
}

#[test]
fn a_subscriber_never_goes_back() {
    let key = Keypair::from_seed(&[3u8; 32]);
    let short = feed_of(&key, &[vec![1], vec![2]]);
    let mut pair = Pair::new(&[], &[]);
    let mut s = Subscription::new(key.public(), 5);
    assert!(follow(&mut pair, &mut s, &key.public(), &short)
        .unwrap()
        .is_empty());
    assert_eq!(s.cursor(), 5);
    // A head signed by another key is refused, and changes nothing.
    let other = Keypair::from_seed(&[4u8; 32]);
    let forged = feed_of(&other, &vec![vec![1]; 9]);
    assert_eq!(
        follow(&mut pair, &mut s, &key.public(), &forged),
        Err(SyncError::BadHead)
    );
    assert_eq!(s.poll_request(), Some(Message::Tail { have: 5 }));
}

fn split_with(data: &[u8], size: usize) -> (Manifest, Vec<Vec<u8>>) {
    let chunks: Vec<Vec<u8>> = data.chunks(size).map(|c| c.to_vec()).collect();
    let manifest = Manifest {
        chunks: chunks.iter().map(|c| hash(c)).collect(),
    };
    (manifest, chunks)
}

/// A store holding the whole blob: its chunks, and the manifest under its own
/// content address.
fn full_store(data: &[u8]) -> (Store, Digest) {
    let (manifest, chunks) = split_with(data, CHUNK_SIZE);
    let mut store = Store::new();
    for c in chunks {
        store.put(c);
    }
    let id = store.put(manifest.encode());
    assert_eq!(id, manifest.id());
    (store, id)
}

#[test]
fn downloads_a_feed_over_a_channel() {
    let key = Keypair::from_seed(&[1u8; 32]);
    let expected: Vec<Vec<u8>> = (0..15u8).map(|i| vec![i; (i as usize % 5) + 1]).collect();
    let source = feed_of(&key, &expected);
    let mut pair = Pair::new(&[], &[]);
    let mut dl = FeedDownload::new(key.public());
    while let Some(request) = dl.poll_request() {
        let m = pair
            .exchange(&request, &|r| serve_feed(r, &source))
            .unwrap();
        let verified = verdict(&key.public(), dl.head(), &m);
        dl.handle_response(&m, verified).unwrap();
    }
    assert_eq!(dl.into_blocks(), expected);
}

#[test]
fn downloads_a_blob_over_a_channel() {
    let data: Vec<u8> = (0..40_000).map(|i| i as u8).collect();
    let (manifest, chunks) = split_with(&data, 8 * 1024);
    let mut store = Store::new();
    for chunk in chunks {
        store.put(chunk);
    }
    let id = store.put(manifest.encode());
    let mut pair = Pair::new(&[], &[]);
    let mut dl = BlobDownload::new(id);
    while let Some(request) = dl.poll_request() {
        let m = pair
            .exchange(&request, &|r| serve_blob(r, &store))
            .unwrap();
        dl.handle_response(&m).unwrap();
    }
    assert_eq!(dl.reassemble(), Some(data));
}

#[test]
fn a_blob_survives_a_lossy_channel() {
    let data: Vec<u8> = (0..200_000u32).map(|i| i as u8).collect();
    let (store, id) = full_store(&data);
    let mut pair = Pair::new(&[1], &[0, 7, 30]);
    let mut dl = BlobDownload::new(id);
    while let Some(request) = dl.poll_request() {
        let m = pair
            .exchange(&request, &|r| serve_blob(r, &store))
            .unwrap();
        dl.handle_response(&m).unwrap();
    }
    assert_eq!(dl.reassemble(), Some(data));
}

/// Download a blob from several providers, some of which never answer.
fn swarm_download(
    stores: &[Option<Store>],
    id: Digest,
    selection: Selection,
) -> (Option<Vec<u8>>, Vec<Delivery>) {
    let mut pairs: Vec<Pair> = stores
        .iter()
        .map(|s| match s {
            Some(_) => Pair::new(&[], &[2]),
            None => Pair::new(&(0..10_000).collect::<Vec<_>>(), &[]),
        })
        .collect();
    let respond = |i: usize| {
        move |r: &Message| match &stores[i] {
            Some(s) => serve_blob(r, s),
            None => Message::Absent,
        }
    };
    let mut search = ManifestSearch::new(stores.len());
    let mut manifest = None;
    while let Some(i) = search.next() {
        let got = pairs[i].exchange(&Message::GetManifest { id }, &respond(i));
        let answer = match got {
            Ok(m) => match manifest_reply(&id, m) {
                Ok(m) => {
                    manifest = Some(m);
                    Reached::Served
                }
                Err(e) => reached_by(&TransferError::Sync(e)),
            },
            Err(e) => reached_by(&e),
        };
        search.on_answer(answer);
    }
    let manifest = manifest.expect("a provider serves the manifest");
    let mut swarm = Swarm::new(manifest.clone(), selection);
    for i in search.live() {
        if let Ok(m) = pairs[i].exchange(&Message::GetHave { id }, &respond(i)) {
            swarm.add_provider(i, haveset_reply(&m, &manifest));
        }
    }
    let mut delivered = Vec::new();
    loop {
        let batches = swarm.dispatch();
        if batches.is_empty() && swarm.is_idle() {
            break;
        }
        for b in batches {
            assert!(b.chunks.len() <= STEAL_BATCH);
            let mut fetch = ChunkFetch::new(b.chunks);
            while let Some(request) = fetch.poll_request() {
                match pairs[b.provider].exchange(&request, &respond(b.provider)) {
                    Ok(m) => fetch.on_reply(m),
                    Err(_) => fetch.on_failure(),
                }
            }
            let (fetched, alive) = fetch.into_outcome();
            delivered.extend(swarm.on_finished(b.provider, fetched, alive));
        }
    }
    assert!(swarm.all_delivered());
    (swarm.into_plan().reassemble(), delivered)
}

#[test]
fn swarm_downloads_from_several_full_providers() {
    let data: Vec<u8> = (0..400_000u32).map(|i| i as u8).collect();
    let (_, id) = full_store(&data);
    let stores: Vec<Option<Store>> = (0..3).map(|_| Some(full_store(&data).0)).collect();
    let (got, _) = swarm_download(&stores, id, Selection::RarestFirst);
    assert_eq!(got, Some(data));
}

#[test]
fn swarm_completes_despite_a_dead_provider() {
    let data: Vec<u8> = (0..300_000u32).map(|i| i as u8).collect();
    let (store, id) = full_store(&data);
    let (got, _) = swarm_download(&[Some(store), None], id, Selection::RarestFirst);
    assert_eq!(got, Some(data));
}

#[test]
fn a_stream_is_delivered_in_order_and_freed() {
    let data: Vec<u8> = (0..500_000u32).map(|i| (i / 7) as u8).collect();
    let (store, id) = full_store(&data);
    let (other, _) = full_store(&data);
    let (left, delivered) = swarm_download(
        &[Some(store), Some(other)],
        id,
        Selection::Streaming {
            window: stream_window(0),
        },
    );
    assert_eq!(left, None, "delivered chunks are freed");
    let indices: Vec<usize> = delivered.iter().map(|d| d.index).collect();
    assert_eq!(indices, (0..delivered.len()).collect::<Vec<_>>());
    let bytes: Vec<u8> = delivered.into_iter().flat_map(|d| d.data).collect();
    assert_eq!(bytes, data);
}

#[test]
fn a_lost_provider_gives_its_chunks_back() {
    let (manifest, chunks) = split_with(&[1, 2, 3, 4, 5, 6], 2);
    let mut swarm = Swarm::new(manifest.clone(), Selection::RarestFirst);
    swarm.add_provider(0, Holdings::Known(manifest.chunks.clone()));
    let batches = swarm.dispatch();
    assert_eq!(batches.len(), 1);
    assert_eq!(batches[0].chunks.len(), 3);
    swarm.on_lost(0);
    assert!(swarm.is_idle());
    swarm.add_provider(1, Holdings::unknown());
    let again = swarm.dispatch();
    assert_eq!(again[0].provider, 1);
    assert_eq!(again[0].chunks.len(), 3);
    // A chunk that is not what was asked for is not taken.
    let mut fetch = ChunkFetch::new(again[0].chunks.clone());
    fetch.on_reply(Message::Chunk {
        data: b"junk".to_vec(),
    });
    for wanted in &again[0].chunks[1..] {
        let data = chunks.iter().find(|c| hash(c) == *wanted).unwrap().clone();
        fetch.on_reply(Message::Chunk { data });
    }
    let (fetched, alive) = fetch.into_outcome();
    assert!(alive);
    assert_eq!(fetched.len(), 2);
}

#[test]
fn answers_of_providers_are_judged() {
    let (manifest, _) = split_with(&[1, 2, 3, 4], 2);
    let id = manifest.id();
    assert_eq!(
        manifest_reply(&id, Message::Manifest(manifest.clone())),
        Ok(manifest.clone())
    );
    assert_eq!(
        manifest_reply(&[0; 32], Message::Manifest(manifest.clone())),
        Err(SyncError::BadManifest)
    );
    assert_eq!(
        manifest_reply(&id, Message::Absent),
        Err(SyncError::Absent)
    );
    assert_eq!(
        manifest_checked(&id, Message::Manifest(manifest.clone()), &[9; 32]),
        Err(SyncError::BadManifest)
    );
    assert_eq!(reached_by(&TransferError::Timeout), Reached::Dead);
    assert_eq!(
        reached_by(&TransferError::Io(IoKind::BrokenPipe)),
        Reached::Dead
    );
    assert_eq!(
        reached_by(&TransferError::Sync(SyncError::BadManifest)),
        Reached::Refused
    );
    let have = haveset_reply(&Message::Have { bits: vec![0b10] }, &manifest);
    assert!(!have.can_serve(&manifest.chunks[0]));
    assert!(have.can_serve(&manifest.chunks[1]));
    assert!(haveset_reply(&Message::Absent, &manifest).is_unknown());
    assert!(haveset_reply(&Message::Have { bits: vec![] }, &manifest).is_unknown());
    let other = haveset_reply(&Message::GetHead, &manifest);
    assert!(!other.is_unknown() && !other.can_serve(&manifest.chunks[0]));
}

/// An authenticated pair of sessions.
fn sessions() -> (Session, Session) {
    let client_kp = Keypair::from_seed(&[0x11; 32]);
    let server_kp = Keypair::from_seed(&[0x22; 32]);
    let target = NodeId::from_bytes(hash(&server_kp.public()));
    let mut dialer = Dialer::start(&client_kp, target).unwrap();
    let listener = Listener::start(&server_kp).unwrap();
    let Heard::Answering(mut answering) = listener.on_datagram(&dialer.poll().unwrap()) else {
        panic!("message 1 opens the handshake");
    };
    let Dialed::Finishing(mut finishing) = dialer.on_datagram(&answering.poll().unwrap()) else {
        panic!("message 2 authenticates the listener");
    };
    let Answered::Done(server, _, ack) = answering.on_datagram(&finishing.poll().unwrap()) else {
        panic!("message 3 authenticates the dialer");
    };
    let Finished::Done(client) = finishing.on_datagram(&ack) else {
        panic!("the acknowledgment ends the handshake");
    };
    (client, server)
}

#[test]
fn noise_feed_transfer_survives_a_lossy_link() {
    let key = Keypair::from_seed(&[7u8; 32]);
    let expected: Vec<Vec<u8>> = (0..3u8).map(|i| vec![i; 30_000]).collect();
    let source = feed_of(&key, &expected);
    let (mut client, mut server) = sessions();
    let mtu = 1175;
    let cfg = fast_cfg();
    let mut near = Wire::new(cfg.initial_rtt, cfg.request_timeout, Cursor::default(), mtu);
    let mut far = Wire::new(cfg.initial_rtt, cfg.request_timeout, Cursor::default(), mtu);
    let mut serving = Serving::new(cfg.idle, false, 0);
    let mut down = Lossy::new(&[3, 5, 8, 13, 21]);

    let mut dl = FeedDownload::new(key.public());
    while let Some(request) = dl.poll_request() {
        let mut outgoing = near.send(&request).unwrap();
        let mut e = Exchange::begin(&near, &cfg);
        let response = 'wait: loop {
            let mut back = Vec::new();
            for d in outgoing.drain(..) {
                let sealed = client.seal(FRAGMENT, &d).unwrap();
                let Opened::Payload(d) = server.open(&sealed, FRAGMENT) else {
                    panic!("a genuine datagram opens");
                };
                if let Some(recv) = far.on_datagram(&d) {
                    back.extend(answer(&mut serving, &mut far, recv, &|r| serve_feed(r, &source)).0);
                }
            }
            let sealed: Vec<Vec<u8>> = back
                .iter()
                .map(|d| server.seal(FRAGMENT, d).unwrap())
                .collect();
            for d in down.carry(sealed) {
                let Opened::Payload(d) = client.open(&d, FRAGMENT) else {
                    panic!("a genuine datagram opens");
                };
                if let Some(m) = near.on_datagram(&d).and_then(Exchange::on_recv) {
                    break 'wait m;
                }
            }
            match e.on_elapsed(&near) {
                Elapsed::Wait => {}
                Elapsed::Repair { datagram, .. } => outgoing.push(datagram),
                Elapsed::Ask { .. } => outgoing = near.send(&request).unwrap(),
            }
        };
        let verified = verdict(&key.public(), dl.head(), &response);
        dl.handle_response(&response, verified).unwrap();
    }
    assert_eq!(dl.into_blocks(), expected);
}
