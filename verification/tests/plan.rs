//! Which chunk is asked of which provider.
use warren::blob::Manifest;
use warren::crypto::Digest;
use warren::plan::{Holdings, Plan, Selection};

fn hash(bytes: &[u8]) -> Digest {
    *blake3::hash(bytes).as_bytes()
}

/// A manifest + its chunks for `data`, split at `chunk_size`.
fn blob(data: &[u8], chunk_size: usize) -> (Manifest, Vec<(Digest, Vec<u8>)>) {
    let pairs: Vec<(Digest, Vec<u8>)> = data
        .chunks(chunk_size)
        .map(|c| (hash(c), c.to_vec()))
        .collect();
    let manifest = Manifest {
        chunks: pairs.iter().map(|(h, _)| *h).collect(),
    };
    (manifest, pairs)
}

/// Known holdings of every chunk — a full seeder.
fn full(chunks: &[(Digest, Vec<u8>)]) -> Holdings {
    Holdings::Known(chunks.iter().map(|(h, _)| *h).collect())
}

/// Known holdings of only the chunks at `indices`.
fn subset(chunks: &[(Digest, Vec<u8>)], indices: &[usize]) -> Holdings {
    Holdings::Known(indices.iter().map(|&i| chunks[i].0).collect())
}

/// Store every assigned chunk (looking its bytes up in `chunks`), simulating
/// each provider delivering its whole assignment. Relies on `assign` having
/// handed out only chunks a provider can serve.
fn deliver(plan: &mut Plan, assignment: &[Vec<Digest>], chunks: &[(Digest, Vec<u8>)]) {
    for chunk_list in assignment {
        for h in chunk_list {
            let data = chunks.iter().find(|(ch, _)| ch == h).unwrap().1.clone();
            plan.store(*h, data);
        }
    }
}

#[test]
fn assigns_all_distinct_chunks_then_completes() {
    let data: Vec<u8> = (0..1000u32).map(|i| i as u8).collect();
    let (manifest, chunks) = blob(&data, 100);
    let mut plan = Plan::new(manifest);
    let seeder = full(&chunks);

    assert!(!plan.is_complete());
    while plan.pending() > 0 {
        let assignment = plan.assign(&[&seeder], 1); // one chunk per round
        deliver(&mut plan, &assignment, &chunks);
    }
    assert!(plan.is_complete());
    assert_eq!(plan.reassemble().as_deref(), Some(&data[..]));
}

#[test]
fn never_assigns_a_provider_a_chunk_it_lacks() {
    // Three providers with disjoint holdings that together cover the blob.
    let data: Vec<u8> = (0..900u32).map(|i| i as u8).collect();
    let (manifest, chunks) = blob(&data, 100); // 9 chunks
    let a = subset(&chunks, &[0, 1, 2]);
    let b = subset(&chunks, &[3, 4, 5]);
    let c = subset(&chunks, &[6, 7, 8]);
    let mut plan = Plan::new(manifest);

    let assignment = plan.assign(&[&a, &b, &c], usize::MAX);
    for (i, held) in [&a, &b, &c].iter().enumerate() {
        for h in &assignment[i] {
            assert!(
                held.can_serve(h),
                "provider {i} was assigned a chunk it lacks"
            );
        }
    }
    // Between them the three cover everything, so one round assigns it all.
    assert_eq!(plan.pending(), 0);
    deliver(&mut plan, &assignment, &chunks);
    assert!(plan.is_complete());
}

#[test]
fn assigns_the_rarest_chunk_to_its_only_holder() {
    // All three providers hold chunks 0, 1, 2; only provider 2 also holds
    // chunk 3 — so chunk 3 is the rarest.
    let data: Vec<u8> = (0..400u32).map(|i| i as u8).collect();
    let (manifest, chunks) = blob(&data, 100); // 4 chunks
    let rare = chunks[3].0;
    let a = subset(&chunks, &[0, 1, 2]);
    let b = subset(&chunks, &[0, 1, 2]);
    let c = full(&chunks); // holds the rare chunk too
    let mut plan = Plan::new(manifest);

    // Cap 1: each provider gets exactly one chunk this round. The rarest
    // (chunk 3, held only by provider 2) must be the one provider 2 gets.
    let assignment = plan.assign(&[&a, &b, &c], 1);
    assert_eq!(
        assignment[2],
        vec![rare],
        "the sole holder must get the rare chunk"
    );
}

#[test]
fn a_chunk_no_one_holds_stays_pending() {
    let data: Vec<u8> = (0..300u32).map(|i| i as u8).collect();
    let (manifest, chunks) = blob(&data, 100); // 3 chunks
                                               // Providers hold chunks 0 and 1 but nobody holds chunk 2.
    let a = subset(&chunks, &[0]);
    let b = subset(&chunks, &[1]);
    let mut plan = Plan::new(manifest);

    plan.assign(&[&a, &b], usize::MAX);
    // Chunk 2 (held by no one) is the only thing still pending.
    assert_eq!(plan.pending(), 1);
    assert!(plan.pending_contains(chunks[2].0));
    assert!(!plan.is_complete());
}

#[test]
fn a_known_holder_is_preferred_over_an_unknown_provider() {
    // One chunk, cap 1, with the Unknown (speculative) provider listed *before*
    // the real holder. It must go to the known holder, not be wasted on the
    // Unknown — the regression this ordering guards against.
    let data: Vec<u8> = (0..100u32).map(|i| i as u8).collect();
    let (manifest, chunks) = blob(&data, 100); // 1 chunk
    let only = chunks[0].0;
    let unknown = Holdings::unknown();
    let holder = subset(&chunks, &[0]);
    let mut plan = Plan::new(manifest);

    let assignment = plan.assign(&[&unknown, &holder], 1);
    assert!(
        assignment[0].is_empty(),
        "the unknown provider must not get it"
    );
    assert_eq!(assignment[1], vec![only], "the known holder must get it");
}

#[test]
fn an_unknown_provider_is_used_as_a_last_resort() {
    // No one *reports* holding the chunk, so the only hope is to probe the
    // Unknown provider optimistically.
    let data: Vec<u8> = (0..100u32).map(|i| i as u8).collect();
    let (manifest, chunks) = blob(&data, 100);
    let only = chunks[0].0;
    let unknown = Holdings::unknown();
    let mut plan = Plan::new(manifest);

    let assignment = plan.assign(&[&unknown], usize::MAX);
    assert_eq!(assignment[0], vec![only]);
}

#[test]
fn streaming_window_gates_and_slides_with_the_frontier() {
    // 10 chunks, window 3: only chunks within `window` positions of the
    // frontier are eligible to fetch (in playback order); nothing further
    // ahead, so memory stays bounded. As the frontier advances, the window
    // slides.
    let data: Vec<u8> = (0..1000u32).map(|i| i as u8).collect();
    let (manifest, chunks) = blob(&data, 100); // 10 distinct chunks
    let seeder = full(&chunks);
    let mut plan = Plan::new(manifest);
    plan.set_selection(Selection::Streaming { window: 3 });

    // Frontier at 0 → assign offers only 0,1,2, in playback order.
    let a = plan.assign(&[&seeder], usize::MAX);
    assert_eq!(a[0], vec![chunks[0].0, chunks[1].0, chunks[2].0]);

    // Fetch + deliver them; the frontier advances to 3.
    for (h, d) in chunks.iter().take(3) {
        plan.store(*h, d.clone());
        plan.advance_delivery(true);
    }
    assert_eq!(plan.frontier(), 3);

    // The window has slid: now only 3,4,5 are eligible.
    let a = plan.assign(&[&seeder], usize::MAX);
    assert_eq!(a[0], vec![chunks[3].0, chunks[4].0, chunks[5].0]);
}

#[test]
fn streaming_drops_each_chunk_after_its_last_delivery() {
    // Four distinct chunks: delivering each (with dropping on) frees exactly
    // one, so memory shrinks to zero — not the whole blob retained.
    let data: Vec<u8> = (0..400u32).map(|i| i as u8).collect();
    let (manifest, chunks) = blob(&data, 100); // 4 distinct chunks
    let mut plan = Plan::new(manifest);
    for (h, d) in &chunks {
        plan.store(*h, d.clone());
    }
    assert_eq!(plan.stored_count(), 4);

    for i in 0..4 {
        plan.advance_delivery(true);
        assert_eq!(plan.stored_count(), 4 - (i + 1));
    }
    assert!(plan.all_delivered());
    assert_eq!(plan.stored_count(), 0);
}

#[test]
fn a_deduplicated_chunk_is_dropped_only_after_its_last_position() {
    // Three identical chunks: the manifest lists one hash at indices 0,1,2. It
    // must survive delivery of 0 and 1 and be freed only at 2.
    let data = vec![0x5au8; 300];
    let (manifest, chunks) = blob(&data, 100); // 1 distinct chunk, 3 positions
    let mut plan = Plan::new(manifest);
    plan.store(chunks[0].0, chunks[0].1.clone());
    assert_eq!(plan.stored_count(), 1);

    plan.advance_delivery(true); // index 0 — not the last position, kept
    assert_eq!(plan.stored_count(), 1);
    plan.advance_delivery(true); // index 1 — still not last, kept
    assert_eq!(plan.stored_count(), 1);
    plan.advance_delivery(true); // index 2 — last position, dropped
    assert_eq!(plan.stored_count(), 0);
    assert!(plan.all_delivered());
}

#[test]
fn a_refused_chunk_is_not_offered_to_that_provider_again() {
    // The livelock guard for work-stealing: once a provider refuses a chunk
    // (answered Absent), assign must never offer it that chunk again.
    let data: Vec<u8> = (0..200u32).map(|i| i as u8).collect();
    let (manifest, chunks) = blob(&data, 100); // 2 chunks
    let (c0, c1) = (chunks[0].0, chunks[1].0);

    // A known holder of both and an unknown provider — both refuse chunk 0.
    let mut known = full(&chunks);
    known.refuse(&c0);
    let mut unknown = Holdings::unknown();
    unknown.refuse(&c0);
    let mut plan = Plan::new(manifest);

    let assignment = plan.assign(&[&known, &unknown], usize::MAX);
    // No one is offered chunk 0, so it stays pending...
    assert!(plan.pending_contains(c0));
    for a in &assignment {
        assert!(!a.contains(&c0), "a refused chunk must not be re-offered");
    }
    // ...while chunk 1 (refused by no one) goes to the known holder.
    assert_eq!(assignment[0], vec![c1]);
}

#[test]
fn cap_bounds_and_balances_per_provider() {
    // Two full seeders, four chunks, cap 1: each gets one this round, the
    // other two stay pending for the next.
    let data: Vec<u8> = (0..400u32).map(|i| i as u8).collect();
    let (manifest, chunks) = blob(&data, 100);
    let a = full(&chunks);
    let b = full(&chunks);
    let mut plan = Plan::new(manifest);

    let assignment = plan.assign(&[&a, &b], 1);
    assert_eq!(assignment[0].len(), 1);
    assert_eq!(assignment[1].len(), 1);
    assert_eq!(plan.pending(), 2);
}

#[test]
fn requeued_chunks_are_assigned_again() {
    let data: Vec<u8> = (0..500u32).map(|i| i as u8).collect();
    let (manifest, chunks) = blob(&data, 100);
    let seeder = full(&chunks);
    let mut plan = Plan::new(manifest);

    // Provider takes everything but delivers nothing (dead); requeue it all.
    let assignment = plan.assign(&[&seeder], usize::MAX);
    assert_eq!(plan.pending(), 0);
    plan.requeue(&assignment.into_iter().flatten().collect());
    assert!(plan.pending() > 0);

    // A live seeder now gets them and completes.
    let assignment = plan.assign(&[&seeder], usize::MAX);
    deliver(&mut plan, &assignment, &chunks);
    assert!(plan.is_complete());
    assert_eq!(plan.reassemble().as_deref(), Some(&data[..]));
}

#[test]
fn a_chunk_that_arrived_elsewhere_is_not_requeued() {
    let data: Vec<u8> = (0..300u32).map(|i| i as u8).collect();
    let (manifest, chunks) = blob(&data, 100);
    let seeder = full(&chunks);
    let mut plan = Plan::new(manifest);

    let assignment = plan.assign(&[&seeder], usize::MAX);
    // One of the assigned chunks arrives from another provider...
    let (h0, d0) = (chunks[0].0, chunks[0].1.clone());
    assert!(plan.store(h0, d0));
    // ...so requeuing the whole assignment doesn't re-add that one.
    plan.requeue(&assignment.into_iter().flatten().collect());
    assert!(!plan.pending_contains(h0));
}

#[test]
fn rejects_junk_and_foreign_chunks() {
    let data: Vec<u8> = (0..300u32).map(|i| i as u8).collect();
    let (manifest, chunks) = blob(&data, 100);
    let real = chunks[0].0;
    let mut plan = Plan::new(manifest);

    // Wrong bytes for a real hash: rejected.
    assert!(!plan.store(real, b"not the chunk".to_vec()));
    // A hash that isn't part of the blob: rejected even if self-consistent.
    let foreign = hash(b"foreign");
    assert!(!plan.store(foreign, b"foreign".to_vec()));
    assert!(!plan.is_complete());
}

#[test]
fn duplicate_chunks_are_fetched_once() {
    // A blob of three identical chunks: the manifest lists one hash thrice,
    // so only one distinct chunk is ever pending.
    let data = vec![0x5au8; 300];
    let (manifest, chunks) = blob(&data, 100);
    let seeder = full(&chunks);
    let mut plan = Plan::new(manifest);
    assert_eq!(plan.pending(), 1, "identical chunks dedup to one");
    let assignment = plan.assign(&[&seeder], usize::MAX);
    deliver(&mut plan, &assignment, &chunks);
    assert!(plan.is_complete());
    assert_eq!(plan.reassemble(), Some(data));
}

#[test]
fn a_chunk_waits_only_for_providers_that_are_busy() {
    // Four chunks: the first two are with the holder, anything may be with the other.
    let data: Vec<u8> = (0..400u32).map(|i| (i / 100) as u8).collect();
    let (manifest, chunks) = blob(&data, 100);
    let holder = subset(&chunks, &[0, 1]);
    let unknown = Holdings::unknown();
    let mut plan = Plan::new(manifest);

    let assignment = plan.assign(&[&holder, &unknown], 1);
    // Everyone has as much as may be given, and what is left over waits.
    assert_eq!(assignment[0].len(), 1);
    assert_eq!(assignment[1].len(), 1);
    let again = plan.assign(&[&holder, &unknown], 4);
    let given: usize = again.iter().map(|list| list.len()).sum();
    assert_eq!(given, 2, "nothing is held back while there is room");
}
