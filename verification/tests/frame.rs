//! Fragmenting, reassembling and repairing messages.
use std::collections::HashSet;
use warren::frame::{
    data_datagram, fragment, fragment_at, nack_datagram, Packet, Reassembler, MAX_FRAGMENTS,
    MAX_MESSAGE, TAG_DATA, TAG_NACK,
};
use warren::wire::Encoder;

const DGRAM: usize = 1024;

/// Push `frags` (in the given order) through a fresh reassembler, accepting
/// each completed message (as the Wire does after a successful decode) and
/// returning the last one completed.
fn reassemble(frags: &[Vec<u8>]) -> Option<Vec<u8>> {
    let mut r = Reassembler::new();
    let mut done = None;
    for f in frags {
        if let Some((id, msg)) = r.push(f) {
            r.accept(id);
            done = Some(msg);
        }
    }
    done
}

#[test]
fn a_small_message_is_one_fragment_and_roundtrips() {
    let payload = b"just the head, please".to_vec();
    let frags: Vec<Vec<u8>> = fragment(1, &payload, DGRAM);
    assert_eq!(frags.len(), 1);
    assert_eq!(reassemble(&frags), Some(payload));
}

#[test]
fn an_empty_payload_roundtrips_as_one_empty_fragment() {
    let frags: Vec<Vec<u8>> = fragment(7, &[], DGRAM);
    assert_eq!(frags.len(), 1);
    assert_eq!(reassemble(&frags), Some(Vec::new()));
}

#[test]
fn a_large_message_spans_many_fragments_and_roundtrips() {
    let payload: Vec<u8> = (0..50_000u32).map(|i| i as u8).collect();
    let frags: Vec<Vec<u8>> = fragment(2, &payload, DGRAM);
    assert!(frags.len() > 40, "should need many fragments");
    assert!(
        frags.iter().all(|f| f.len() <= DGRAM),
        "every fragment fits a datagram"
    );
    assert_eq!(reassemble(&frags), Some(payload));
}

#[test]
fn fragments_reassemble_out_of_order() {
    let payload: Vec<u8> = (0..10_000u32).map(|i| (i * 7) as u8).collect();
    let mut frags: Vec<Vec<u8>> = fragment(3, &payload, DGRAM);
    frags.reverse();
    assert_eq!(reassemble(&frags), Some(payload));
}

#[test]
fn duplicate_fragments_are_harmless() {
    let payload: Vec<u8> = (0..5_000u32).map(|i| i as u8).collect();
    let frags: Vec<Vec<u8>> = fragment(4, &payload, DGRAM);
    // Feed every fragment twice, interleaved.
    let mut doubled = Vec::new();
    for f in &frags {
        doubled.push(f.clone());
        doubled.push(f.clone());
    }
    assert_eq!(reassemble(&doubled), Some(payload));
}

#[test]
fn a_message_is_incomplete_until_every_fragment_arrives() {
    let payload: Vec<u8> = (0..8_000u32).map(|i| i as u8).collect();
    let frags: Vec<Vec<u8>> = fragment(5, &payload, DGRAM);
    assert!(frags.len() > 2);
    // Withhold the last fragment: never completes.
    let mut r = Reassembler::new();
    for f in &frags[..frags.len() - 1] {
        assert_eq!(r.push(f), None);
    }
    // The withheld one completes it, tagged with its message id.
    assert_eq!(r.push(frags.last().unwrap()), Some((5, payload)));
}

#[test]
fn missing_reports_the_gaps_then_none_when_whole() {
    let payload: Vec<u8> = (0..6_000u32).map(|i| i as u8).collect();
    let frags: Vec<Vec<u8>> = fragment(9, &payload, DGRAM);
    let n = frags.len();
    assert!(n >= 4, "need several fragments for a meaningful gap");

    let mut r = Reassembler::new();
    // Deliver all but indices 1 and 3.
    for (i, f) in frags.iter().enumerate() {
        if i != 1 && i != 3 {
            r.push(f);
        }
    }
    let missing = r.missing().expect("a message is in progress");
    assert_eq!(missing.id, 9);
    assert_eq!(missing.indices, vec![1, 3]);

    // Delivering the gaps completes it, and nothing is in progress after.
    r.push(&frags[1]);
    let (id, msg) = r.push(&frags[3]).expect("the last gap completes it");
    r.accept(id);
    assert_eq!(msg, payload);
    assert_eq!(r.missing(), None);
}

#[test]
fn a_newer_message_supersedes_an_incomplete_one() {
    let old: Vec<u8> = vec![0xAA; 5_000];
    let new: Vec<u8> = vec![0xBB; 5_000];
    let old_frags: Vec<Vec<u8>> = fragment(10, &old, DGRAM);
    let new_frags: Vec<Vec<u8>> = fragment(11, &new, DGRAM);
    let mut r = Reassembler::new();
    // A partial old message...
    for f in &old_frags[..old_frags.len() - 1] {
        assert_eq!(r.push(f), None);
    }
    // ...is abandoned when the newer message arrives in full.
    let mut done = None;
    for f in &new_frags {
        if let Some((_, msg)) = r.push(f) {
            done = Some(msg);
        }
    }
    assert_eq!(done, Some(new));
}

#[test]
fn stragglers_from_an_old_message_are_ignored() {
    let old: Vec<u8> = vec![0xAA; 3_000];
    let new: Vec<u8> = vec![0xBB; 3_000];
    let old_frags: Vec<Vec<u8>> = fragment(20, &old, DGRAM);
    let new_frags: Vec<Vec<u8>> = fragment(21, &new, DGRAM);
    let mut r = Reassembler::new();
    // Complete and accept the new message first.
    let mut done = None;
    for f in &new_frags {
        if let Some((id, msg)) = r.push(f) {
            r.accept(id);
            done = Some(msg);
        }
    }
    assert_eq!(done, Some(new));
    // Late fragments from the old message never resurrect it.
    for f in &old_frags {
        assert_eq!(r.push(f), None);
    }
}

#[test]
fn an_unaccepted_completion_does_not_wedge_later_messages() {
    // A datagram with a bogus, huge id (corruption or a hostile peer)
    // completes on its own but the caller can't decode it, so it's never
    // accepted. A later, lower-id legitimate message must still get through —
    // the watermark advances only on accept, so the bogus id can't wedge it.
    let mut r = Reassembler::new();
    let junk = data_datagram(u64::MAX, 0, 1, b"not a decodable message");
    let (jid, _) = r.push(&junk).expect("a one-fragment message completes");
    assert_eq!(jid, u64::MAX);
    // The caller's decode fails, so it does NOT accept(jid).

    // A normal message with a small id is still delivered.
    let real = b"the real payload".to_vec();
    let frags: Vec<Vec<u8>> = fragment(7, &real, DGRAM);
    let mut done = None;
    for f in &frags {
        if let Some((id, msg)) = r.push(f) {
            r.accept(id);
            done = Some(msg);
        }
    }
    assert_eq!(done, Some(real));
}

#[test]
fn push_data_rejects_abusive_framing() {
    let mut r = Reassembler::new();
    assert_eq!(r.push_data(1, 0, 0, b"x".to_vec()), None); // count == 0
    assert_eq!(r.push_data(1, 3, 2, b"x".to_vec()), None); // index past count
    assert_eq!(r.push_data(1, 0, MAX_FRAGMENTS + 1, b"x".to_vec()), None); // count past cap
}

#[test]
fn a_message_past_the_size_cap_never_completes() {
    // Two fragments whose payloads together exceed MAX_MESSAGE: the second is
    // refused, so the message never completes and the buffer stays bounded.
    let mut r = Reassembler::new();
    assert_eq!(r.push_data(1, 0, 2, vec![0u8; MAX_MESSAGE]), None); // fits the cap alone
    assert_eq!(r.push_data(1, 1, 2, b"one byte too many".to_vec()), None); // over the cap
}

#[test]
fn fragment_at_matches_fragment_and_bounds_the_index() {
    let payload: Vec<u8> = (0..7_000u32).map(|i| i as u8).collect();
    let all: Vec<Vec<u8>> = fragment(3, &payload, DGRAM);
    for (i, f) in all.iter().enumerate() {
        assert_eq!(fragment_at(3, &payload, DGRAM, i as u64).as_ref(), Some(f));
    }
    assert_eq!(fragment_at(3, &payload, DGRAM, all.len() as u64), None); // past the end
}

#[test]
fn packet_roundtrips() {
    let data = Packet::Data {
        id: 42,
        index: 3,
        count: 9,
        payload: b"some bytes".to_vec(),
    };
    assert_eq!(
        Packet::decode(&data_datagram(42, 3, 9, b"some bytes")),
        Some(data)
    );

    let nack = Packet::Nack {
        id: 42,
        indices: vec![1, 4, 5],
    };
    assert_eq!(Packet::decode(&nack_datagram(42, &[1, 4, 5])), Some(nack));
}

#[test]
fn a_truncated_or_unknown_packet_is_ignored() {
    assert_eq!(Packet::decode(&[]), None); // no tag
    assert_eq!(Packet::decode(&[TAG_DATA]), None); // tag but no header
    assert_eq!(Packet::decode(&[0x7f]), None); // unknown tag
                                               // A Nack claiming an absurd index count is refused before allocating.
    let mut enc = Encoder::new();
    enc.u8(TAG_NACK);
    enc.uint(1);
    enc.uint(MAX_FRAGMENTS + 1);
    assert_eq!(Packet::decode(&enc.into_vec()), None);
}

#[test]
fn push_never_panics_on_arbitrary_bytes() {
    // A crude fuzz: hostile datagrams must be dropped, never panic.
    let mut r = Reassembler::new();
    for seed in 0..2_000u32 {
        let len = (seed % 37) as usize;
        let bytes: Vec<u8> = (0..len)
            .map(|i| (seed.wrapping_mul(i as u32 + 1)) as u8)
            .collect();
        let _ = r.push(&bytes);
        let _ = Packet::decode(&bytes);
    }
}

/// A lossy pipe: `deliver` drops a datagram when its running index is in the
/// drop schedule, modelling a link that loses specific packets.
struct Lossy {
    sent: usize,
    drop: HashSet<usize>,
}
impl Lossy {
    fn new(drop: &[usize]) -> Self {
        Self {
            sent: 0,
            drop: drop.iter().copied().collect(),
        }
    }
    /// Returns the datagram if it survives, `None` if this one is dropped.
    fn deliver<'a>(&mut self, datagram: &'a [u8]) -> Option<&'a [u8]> {
        let n = self.sent;
        self.sent += 1;
        (!self.drop.contains(&n)).then_some(datagram)
    }
}

#[test]
fn selective_repeat_recovers_a_lossy_transfer() {
    // End-to-end repair, purely: a large message is fragmented and delivered
    // over a lossy pipe; the receiver NACKs the gaps and the sender resends
    // only those, until the message is whole — resending far fewer datagrams
    // than the whole message.
    let msg: Vec<u8> = (0..40_000u32).map(|i| (i * 31) as u8).collect();
    let id = 1;
    let all: Vec<Vec<u8>> = fragment(id, &msg, DGRAM);
    let total = all.len();
    assert!(total > 20, "want a message with many fragments");

    // Drop a scattered handful on the first delivery, and one NACK-repair
    // datagram too (so a fragment needs re-repairing).
    let mut link = Lossy::new(&[2, 5, 9, 14, 19, total]); // `total` = first repair pkt
    let mut r = Reassembler::new();
    let mut resent = 0;

    // First pass: send every fragment.
    let mut done = None;
    for f in &all {
        if let Some(d) = link.deliver(f) {
            if let Some((mid, bytes)) = r.push(d) {
                r.accept(mid);
                done = Some(bytes);
            }
        }
    }

    // Repair rounds: NACK the gaps, resend just those, until complete.
    let mut rounds = 0;
    while done.is_none() {
        rounds += 1;
        assert!(rounds < 100, "repair should converge");
        let missing = r.missing().expect("still in progress");
        assert_eq!(missing.id, id);
        // Sender resends exactly the requested fragments (as `resend` does).
        for &idx in &missing.indices {
            let f = fragment_at(id, &msg, DGRAM, idx).expect("index in range");
            resent += 1;
            if let Some(d) = link.deliver(&f) {
                if let Some((mid, bytes)) = r.push(d) {
                    r.accept(mid);
                    done = Some(bytes);
                }
            }
        }
    }

    assert_eq!(done, Some(msg));
    // Repair resent only a small fraction — not the whole message again.
    assert!(
        resent < total / 2,
        "repair resent {resent} of {total} fragments; expected only the lost few"
    );
}
