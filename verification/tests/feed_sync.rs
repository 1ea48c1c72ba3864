//! Feed sync: a client that verifies everything against a server that may lie.
//!
//! The feed here is signed with Ed25519 over its length and root; the root is the
//! hash of the block hashes, and a block's proof lists them.
use ed25519_dalek::{Signature, Verifier, VerifyingKey};
use warren::blob::Manifest;
use warren::crypto::{Digest, Keypair};
use warren::feed::{Head, Proof};
use warren::feed_window::{FeedWindow, WindowData};
use warren::sync::{serve_feed, FeedDownload, FeedState, HeldBlock, MAX_SYNC_BLOCKS};
use warren::sync_msg::{
    Message, SyncError, KIND_FEED_HAVE, KIND_PEAKS, MAX_HAVE_RANGES, MAX_PEAKS,
};
use warren::wire::Encoder;

fn hash(bytes: &[u8]) -> Digest {
    *blake3::hash(bytes).as_bytes()
}

/// The manifest of `data` as one chunk, and that chunk.
fn split(data: &[u8]) -> (Manifest, Vec<Vec<u8>>) {
    (
        Manifest {
            chunks: vec![hash(data)],
        },
        vec![data.to_vec()],
    )
}

/// A feed and what its server can show of it.
struct Server {
    key: Keypair,
    state: FeedState,
}

impl Server {
    fn public_key(&self) -> [u8; 32] {
        self.key.public()
    }
}

fn root_of(nodes: &[Digest]) -> Digest {
    hash(&nodes.concat())
}

fn signed_bytes(len: u64, root: &Digest) -> Vec<u8> {
    let mut bytes = len.to_le_bytes().to_vec();
    bytes.extend_from_slice(root);
    bytes
}

fn log_with(n: usize, seed: u8) -> Server {
    let key = Keypair::from_seed(&[seed; 32]);
    let blocks: Vec<Vec<u8>> = (0..n).map(|i| vec![i as u8; (i % 7) + 1]).collect();
    let nodes: Vec<Digest> = blocks.iter().map(|b| hash(b)).collect();
    let root = root_of(&nodes);
    let signature = key.sign(&signed_bytes(n as u64, &root));
    let state = FeedState {
        head: Head {
            len: n as u64,
            root,
            signature,
        },
        blocks: blocks
            .into_iter()
            .enumerate()
            .map(|(i, data)| HeldBlock {
                index: i as u64,
                data,
                proof: Proof {
                    nodes: nodes.clone(),
                },
            })
            .collect(),
        peaks: vec![(0, root)],
        ranges: vec![(0, n as u64)],
    };
    Server { key, state }
}

fn verify_head(key: &[u8; 32], head: &Head) -> bool {
    VerifyingKey::from_bytes(key).is_ok_and(|k| {
        k.verify(
            &signed_bytes(head.len, &head.root),
            &Signature::from_bytes(&head.signature),
        )
        .is_ok()
    })
}

fn verify_block(head: &Head, index: u64, data: &[u8], proof: &Proof) -> bool {
    proof.nodes.len() as u64 == head.len
        && root_of(&proof.nodes) == head.root
        && index < head.len
        && proof.nodes[index as usize] == hash(data)
}

fn verify_peaks(head: &Head, peaks: &[(u64, Digest)]) -> bool {
    peaks.len() == 1 && peaks[0].1 == head.root
}

/// What the key and the head say of a response.
fn verdict(key: &[u8; 32], head: Option<Head>, m: &Message) -> bool {
    match (m, head) {
        (Message::Head(h), _) => verify_head(key, h),
        (Message::Block { index, data, proof }, Some(h)) => verify_block(&h, *index, data, proof),
        (Message::Peaks { nodes }, Some(h)) => verify_peaks(&h, nodes),
        _ => false,
    }
}

fn take(dl: &mut FeedDownload, m: &Message) -> Result<(), SyncError> {
    let verified = verdict(&dl.public_key(), dl.head(), m);
    dl.handle_response(m, verified)
}

fn take_window(w: &mut FeedWindow, m: &Message) -> Result<(), SyncError> {
    let verified = verdict(&w.public_key(), w.head(), m);
    w.handle_response(m, verified)
}

/// Run a client download against a server log to completion, returning the
/// synced blocks.
fn sync(server: &Server) -> Vec<Vec<u8>> {
    let mut dl = FeedDownload::new(server.public_key());
    let mut steps: u64 = 0;
    while let Some(request) = dl.poll_request() {
        let response = serve_feed(&request, &server.state);
        take(&mut dl, &response).unwrap();
        steps += 1;
        assert!(steps <= MAX_SYNC_BLOCKS + 1, "sync should terminate");
    }
    assert!(dl.is_complete());
    dl.into_blocks()
}

#[test]
fn syncs_a_feed_end_to_end() {
    let server = log_with(20, 0xA1);
    let expected: Vec<Vec<u8>> = (0..20).map(|i| vec![i as u8; (i % 7) + 1]).collect();
    assert_eq!(sync(&server), expected);
}

#[test]
fn syncs_an_empty_feed() {
    let server = log_with(0, 0xB2);
    assert_eq!(sync(&server), Vec::<Vec<u8>>::new());
}

/// Run a resumed download (a live-tail round) from block `have`, returning only
/// the newly-fetched tail.
fn resume_sync(server: &Server, have: u64) -> Vec<Vec<u8>> {
    let mut dl = FeedDownload::resume(server.public_key(), have);
    while let Some(request) = dl.poll_request() {
        take(&mut dl, &serve_feed(&request, &server.state)).unwrap();
    }
    assert!(dl.is_complete());
    dl.into_blocks()
}

#[test]
fn resume_fetches_only_the_new_tail() {
    let server = log_with(8, 0x5A);
    // A subscriber that already holds 5 blocks fetches only 5, 6, 7 - the tail,
    // each still verified against the signed head.
    let expected: Vec<Vec<u8>> = (5..8).map(|i| vec![i as u8; (i % 7) + 1]).collect();
    assert_eq!(resume_sync(&server, 5), expected);
}

#[test]
fn resume_at_or_past_head_fetches_nothing() {
    let server = log_with(4, 0x6B);
    assert_eq!(resume_sync(&server, 4), Vec::<Vec<u8>>::new());
    // A cursor claiming more than exists is a harmless no-op (append-only).
    assert_eq!(resume_sync(&server, 9), Vec::<Vec<u8>>::new());
}

#[test]
fn tail_serves_the_current_head_and_roundtrips() {
    let server = log_with(3, 0x7C);
    // A live-tail poll answers with the current signed head, like GetHead.
    assert_eq!(
        serve_feed(&Message::Tail { have: 1 }, &server.state),
        Message::Head(server.state.head)
    );
    // And it survives the wire.
    let m = Message::Tail { have: 42 };
    assert_eq!(Message::decode(&m.encode()).unwrap(), m);
    assert!(m.is_request());
}

#[test]
fn rejects_a_head_signed_by_the_wrong_key() {
    let server = log_with(3, 0xC3);
    // Client expects a different key than the one that signed the head.
    let wrong = Keypair::from_seed(&[0xEE; 32]).public();
    let mut dl = FeedDownload::new(wrong);
    let head = serve_feed(&Message::GetHead, &server.state);
    assert_eq!(take(&mut dl, &head), Err(SyncError::BadHead));
}

#[test]
fn rejects_a_block_with_a_forged_proof() {
    let server = log_with(4, 0xD4);
    let mut dl = FeedDownload::new(server.public_key());
    take(&mut dl, &serve_feed(&Message::GetHead, &server.state))
        .unwrap();
    // A block whose bytes don't match its (real) proof.
    let mut bad = serve_feed(&Message::GetBlock { index: 1 }, &server.state);
    if let Message::Block { data, .. } = &mut bad {
        data.push(0xff);
    }
    assert_eq!(take(&mut dl, &bad), Err(SyncError::BadBlock));
}

#[test]
fn rejects_an_over_long_head() {
    let server = log_with(2, 0xE5);
    let mut dl = FeedDownload::new(server.public_key());
    let mut head = server.state.head;
    head.len = MAX_SYNC_BLOCKS + 1;
    assert_eq!(
        take(&mut dl, &Message::Head(head)),
        Err(SyncError::TooLong)
    );
}

#[test]
fn a_block_before_the_head_is_rejected() {
    let server = log_with(3, 0xF6);
    let mut dl = FeedDownload::new(server.public_key());
    let block = serve_feed(&Message::GetBlock { index: 0 }, &server.state);
    assert_eq!(take(&mut dl, &block), Err(SyncError::Unsolicited));
}

#[test]
fn a_later_head_cannot_abort_an_in_progress_download() {
    let server = log_with(3, 0x39);
    let mut dl = FeedDownload::new(server.public_key());
    take(&mut dl, &serve_feed(&Message::GetHead, &server.state))
        .unwrap();
    // A subsequent invalid head (over-long, or wrong key) is ignored, not an
    // error - the peer can't abort us after a good head.
    let mut overlong = server.state.head;
    overlong.len = MAX_SYNC_BLOCKS + 1;
    assert_eq!(take(&mut dl, &Message::Head(overlong)), Ok(()));
    // ...and the sync still completes against the first head.
    while let Some(request) = dl.poll_request() {
        take(&mut dl, &serve_feed(&request, &server.state)).unwrap();
    }
    assert!(dl.is_complete());
}

#[test]
fn absent_response_is_terminal() {
    let server = log_with(2, 0x4A);
    let mut dl = FeedDownload::new(server.public_key());
    take(&mut dl, &serve_feed(&Message::GetHead, &server.state))
        .unwrap();
    assert_eq!(take(&mut dl, &Message::Absent), Err(SyncError::Absent));
}

#[test]
fn a_request_message_as_response_is_unexpected() {
    let server = log_with(2, 0x5B);
    let mut dl = FeedDownload::new(server.public_key());
    assert_eq!(
        take(&mut dl, &Message::GetHead),
        Err(SyncError::Unexpected)
    );
}

#[test]
fn server_reports_absent_for_an_out_of_range_block() {
    let server = log_with(2, 0x17);
    assert_eq!(
        serve_feed(&Message::GetBlock { index: 5 }, &server.state),
        Message::Absent
    );
}

#[test]
fn is_request_classifies_by_direction() {
    let (manifest, _) = split(b"x");
    for req in [
        Message::GetHead,
        Message::GetBlock { index: 0 },
        Message::GetManifest {
            id: hash(b"i"),
        },
        Message::GetChunk {
            hash: hash(b"c"),
        },
    ] {
        assert!(req.is_request(), "{req:?} is a request");
    }
    for resp in [
        Message::Head(log_with(1, 0).state.head),
        serve_feed(&Message::GetBlock { index: 0 }, &log_with(1, 0).state),
        Message::Manifest(manifest),
        Message::Chunk { data: vec![1] },
        Message::Absent,
    ] {
        assert!(!resp.is_request(), "{resp:?} is a response");
    }
}

#[test]
fn messages_roundtrip() {
    let server = log_with(5, 0x28);
    let (manifest, _) = split(b"a blob to make a manifest from");
    let msgs = [
        Message::GetHead,
        Message::Head(server.state.head),
        Message::GetBlock { index: 3 },
        serve_feed(&Message::GetBlock { index: 2 }, &server.state),
        Message::GetManifest {
            id: hash(b"id"),
        },
        Message::Manifest(manifest),
        Message::GetChunk {
            hash: hash(b"chunk"),
        },
        Message::Chunk {
            data: b"chunk bytes".to_vec(),
        },
        Message::GetHave {
            id: hash(b"id"),
        },
        Message::Have {
            bits: vec![0b1010_1101, 0x00, 0xff],
        },
        Message::GetPeaks,
        Message::Peaks {
            nodes: vec![(30, hash(b"p0")), (15, hash(b"p1"))],
        },
        Message::GetFeedHave,
        Message::FeedHave {
            ranges: vec![(0, 16), (18, 20)],
        },
        Message::Absent,
    ];
    for m in msgs {
        assert_eq!(Message::decode(&m.encode()).unwrap(), m);
    }
}

#[test]
fn decode_rejects_too_many_peaks() {
    let mut enc = Encoder::new();
    enc.u8(KIND_PEAKS);
    enc.uint(MAX_PEAKS + 1);
    assert_eq!(
        Message::decode(&enc.into_vec()),
        Err(SyncError::Malformed("too many peaks"))
    );
}

#[test]
fn decode_rejects_too_many_ranges() {
    let mut enc = Encoder::new();
    enc.u8(KIND_FEED_HAVE);
    enc.uint(MAX_HAVE_RANGES + 1);
    assert_eq!(
        Message::decode(&enc.into_vec()),
        Err(SyncError::Malformed("too many ranges"))
    );
}

/// Drive a windowed download against a server source to completion, returning the
/// verified window.
fn window_sync(server: &Server, pk: [u8; 32], want: Vec<u64>) -> WindowData {
    let mut w = FeedWindow::new(pk, want);
    let mut steps = 0u64;
    while let Some(request) = w.poll_request() {
        take_window(&mut w, &serve_feed(&request, &server.state)).unwrap();
        steps += 1;
        assert!(steps <= MAX_SYNC_BLOCKS + 8, "window sync should terminate");
    }
    assert!(w.is_complete());
    w.into_window().unwrap()
}

#[test]
fn serve_answers_peaks_and_feed_have() {
    let server = log_with(20, 0x2C);
    assert_eq!(
        serve_feed(&Message::GetPeaks, &server.state),
        Message::Peaks {
            nodes: server.state.peaks.clone()
        }
    );
    // A full log is dense, so its holdings are the single range [0, 20).
    assert_eq!(
        serve_feed(&Message::GetFeedHave, &server.state),
        Message::FeedHave {
            ranges: vec![(0, 20)]
        }
    );
}

#[test]
fn windowed_sync_builds_a_verifying_sparse_replica() {
    let server = log_with(20, 0x91);
    let pk = server.public_key();
    let head = server.state.head;
    let want = vec![3u64, 4, 17];
    let window = window_sync(&server, pk, want.clone());

    assert_eq!(window.head, head);
    assert_eq!(
        window.blocks.iter().map(|(i, _, _)| *i).collect::<Vec<_>>(),
        want,
        "fetched exactly the requested window, ascending"
    );

    // Each block is the server's, and proves itself against the signed head.
    for (i, data, proof) in &window.blocks {
        assert_eq!(*data, server.state.blocks[*i as usize].data);
        assert!(verify_block(&head, *i, data, proof), "block {i} verifies");
    }
    assert!(verify_peaks(&head, &window.peaks));
}

#[test]
fn windowed_sync_skips_blocks_a_sparse_peer_lacks() {
    // An author feed of 20 blocks...
    let author = log_with(20, 0xA7);
    let pk = author.public_key();
    let head = author.state.head;

    // ...and a sparse *seeder* holding only the tail window [12, 20).
    let mut seeder = author.state.clone();
    seeder.blocks.retain(|b| b.index >= 12);
    seeder.ranges = vec![(12, 20)];

    // A subscriber wants 5, 13, 18 - the holdings hint prunes 5 before any block probe.
    let mut w = FeedWindow::new(pk, vec![5u64, 13, 18]);
    while let Some(req) = w.poll_request() {
        take_window(&mut w, &serve_feed(&req, &seeder)).unwrap();
    }
    assert!(w.is_complete());
    assert_eq!(w.missing(), vec![5], "the seeder can't serve block 5");
    let window = w.into_window().unwrap();
    assert_eq!(
        window.blocks.iter().map(|(i, _, _)| *i).collect::<Vec<_>>(),
        vec![13, 18]
    );
    // Every served block still verifies against the author's signed head.
    for (i, data, proof) in &window.blocks {
        assert!(verify_block(&head, *i, data, proof));
    }
}

#[test]
fn a_peer_declining_the_holdings_hint_falls_back_to_probing() {
    let server = log_with(6, 0x3D);
    let pk = server.public_key();
    let mut w = FeedWindow::new(pk, vec![1u64, 4]);

    take_window(&mut w, &serve_feed(&Message::GetHead, &server.state))
        .unwrap();
    assert_eq!(w.poll_request(), Some(Message::GetPeaks));
    take_window(&mut w, &serve_feed(&Message::GetPeaks, &server.state))
        .unwrap();
    // The peer declines the holdings hint; that's benign, not terminal.
    assert_eq!(w.poll_request(), Some(Message::GetFeedHave));
    take_window(&mut w, &Message::Absent).unwrap();
    // So the window falls back to probing each wanted block directly.
    assert_eq!(w.poll_request(), Some(Message::GetBlock { index: 1 }));
    take_window(&mut w, &serve_feed(&Message::GetBlock { index: 1 }, &server.state))
        .unwrap();
    assert_eq!(w.poll_request(), Some(Message::GetBlock { index: 4 }));
    take_window(&mut w, &serve_feed(&Message::GetBlock { index: 4 }, &server.state))
        .unwrap();
    assert!(w.is_complete());
    assert!(w.missing().is_empty());
}

#[test]
fn window_absent_before_the_head_is_terminal() {
    let pk = Keypair::from_seed(&[0x8E; 32]).public();
    let mut w = FeedWindow::new(pk, vec![0u64]);
    // A peer that doesn't even have the feed's head is unusable.
    assert_eq!(take_window(&mut w, &Message::Absent), Err(SyncError::Absent));
}

#[test]
fn window_rejects_a_block_with_a_forged_proof() {
    let server = log_with(5, 0x77);
    let pk = server.public_key();
    let mut w = FeedWindow::new(pk, vec![2u64]);
    take_window(&mut w, &serve_feed(&Message::GetHead, &server.state))
        .unwrap();
    take_window(&mut w, &serve_feed(&Message::GetPeaks, &server.state))
        .unwrap();
    take_window(&mut w, &serve_feed(&Message::GetFeedHave, &server.state))
        .unwrap();
    let mut bad = serve_feed(&Message::GetBlock { index: 2 }, &server.state);
    if let Message::Block { data, .. } = &mut bad {
        data.push(0xff);
    }
    assert_eq!(take_window(&mut w, &bad), Err(SyncError::BadBlock));
}

/// Drive a suffix-window sync to completion, returning the window.
fn suffix_sync(server: &Server, pk: [u8; 32], window: u64) -> WindowData {
    let mut w = FeedWindow::suffix(pk, window);
    while let Some(request) = w.poll_request() {
        take_window(&mut w, &serve_feed(&request, &server.state)).unwrap();
    }
    assert!(w.is_complete());
    w.into_window().unwrap()
}

#[test]
fn suffix_window_fetches_the_last_n_blocks() {
    // A suffix mirror doesn't know the length up front - it derives the window from the
    // head, then fetches exactly the last N.
    let server = log_with(20, 0x64);
    let window = suffix_sync(&server, server.public_key(), 5);
    assert_eq!(window.head.len, 20);
    assert_eq!(
        window.blocks.iter().map(|(i, _, _)| *i).collect::<Vec<_>>(),
        vec![15, 16, 17, 18, 19],
        "the last five blocks"
    );
}

#[test]
fn suffix_window_wider_than_the_feed_takes_all_of_it() {
    let server = log_with(3, 0x65);
    let window = suffix_sync(&server, server.public_key(), 100);
    assert_eq!(
        window.blocks.iter().map(|(i, _, _)| *i).collect::<Vec<_>>(),
        vec![0, 1, 2],
        "a window wider than the feed clamps to the whole feed"
    );
}

#[test]
fn suffix_window_zero_holds_no_blocks() {
    // window == 0 is a shape-only open: head + peaks, no blocks - enough to build a
    // sparse replica that ingests later.
    let server = log_with(8, 0x66);
    let window = suffix_sync(&server, server.public_key(), 0);
    assert_eq!(window.head.len, 8);
    assert!(window.blocks.is_empty());
    assert!(!window.peaks.is_empty(), "peaks are still fetched");
}

#[test]
fn a_wanted_block_beyond_the_feed_is_missing_with_or_without_the_hint() {
    let server = log_with(4, 0x3E);
    for declines in [false, true] {
        let mut w = FeedWindow::new(server.public_key(), vec![1u64, 9]);
        while let Some(request) = w.poll_request() {
            let reply = match request {
                Message::GetFeedHave if declines => Message::Absent,
                request => serve_feed(&request, &server.state),
            };
            take_window(&mut w, &reply).unwrap();
        }
        assert!(w.is_complete());
        assert_eq!(w.missing(), vec![9]);
        let window = w.into_window().unwrap();
        assert_eq!(window.blocks.len(), 1);
    }
}
