//! Blob sync: manifests and chunks fetched by their hashes.
use warren::blob::{Manifest, Store, CHUNK_SIZE};
use warren::blob_download::{serve_blob, BlobDownload};
use warren::crypto::Digest;
use warren::sync_msg::{Message, SyncError};

fn hash(bytes: &[u8]) -> Digest {
    *blake3::hash(bytes).as_bytes()
}

fn split_with(data: &[u8], size: usize) -> (Manifest, Vec<Vec<u8>>) {
    let chunks: Vec<Vec<u8>> = data.chunks(size).map(|c| c.to_vec()).collect();
    let manifest = Manifest {
        chunks: chunks.iter().map(|c| hash(c)).collect(),
    };
    (manifest, chunks)
}

fn split(data: &[u8]) -> (Manifest, Vec<Vec<u8>>) {
    split_with(data, CHUNK_SIZE)
}

/// Put the chunks of `data` into a store.
fn add(store: &mut Store, data: &[u8]) -> Manifest {
    let (manifest, chunks) = split(data);
    for chunk in chunks {
        store.put(chunk);
    }
    manifest
}

/// Publish a blob into a store the server can serve: chunks plus the manifest
/// under its own content address. Returns the store and the blob's id.
fn blob_store_with(data: &[u8]) -> (Store, Digest) {
    let mut store = Store::new();
    let manifest = add(&mut store, data);
    let id = store.put(manifest.encode());
    (store, id)
}

fn fetch_blob(server: &Store, id: Digest) -> Option<Vec<u8>> {
    let mut dl = BlobDownload::new(id);
    let mut steps: u64 = 0;
    while let Some(request) = dl.poll_request() {
        dl.handle_response(&serve_blob(&request, server)).unwrap();
        steps += 1;
        assert!(steps < 100_000, "blob sync should terminate");
    }
    assert!(dl.is_complete());
    dl.reassemble()
}

#[test]
fn syncs_a_blob_end_to_end() {
    let data: Vec<u8> = (0..CHUNK_SIZE * 2 + 50).map(|i| i as u8).collect();
    let (server, id) = blob_store_with(&data);
    assert_eq!(fetch_blob(&server, id), Some(data));
}

#[test]
fn syncs_a_blob_with_duplicate_chunks() {
    // Identical chunks dedup: the manifest lists one hash repeatedly, and the
    // download fetches it once.
    let data = vec![0x5au8; CHUNK_SIZE * 3];
    let (server, id) = blob_store_with(&data);
    assert_eq!(fetch_blob(&server, id), Some(data));
}

#[test]
fn rejects_a_manifest_with_a_mismatched_id() {
    let (manifest, _) = split(b"hello world");
    // The client is downloading a different content address.
    let mut dl = BlobDownload::new(hash(b"a different id"));
    assert_eq!(
        dl.handle_response(&Message::Manifest(manifest)),
        Err(SyncError::BadManifest)
    );
}

#[test]
fn rejects_a_chunk_not_in_the_blob() {
    let (manifest, _) = split(b"hello world");
    let mut dl = BlobDownload::new(manifest.id());
    dl.handle_response(&Message::Manifest(manifest)).unwrap();
    assert_eq!(
        dl.handle_response(&Message::Chunk {
            data: b"junk that is not part of the blob".to_vec()
        }),
        Err(SyncError::BadChunk)
    );
}

#[test]
fn a_chunk_before_the_manifest_is_rejected() {
    let mut dl = BlobDownload::new(hash(b"x"));
    assert_eq!(
        dl.handle_response(&Message::Chunk {
            data: b"any".to_vec()
        }),
        Err(SyncError::Unsolicited)
    );
}

#[test]
fn blob_server_reports_absent_for_unknown_items() {
    let (server, _id) = blob_store_with(b"present");
    let missing = hash(b"absent");
    assert_eq!(
        serve_blob(&Message::GetManifest { id: missing }, &server),
        Message::Absent
    );
    assert_eq!(
        serve_blob(&Message::GetChunk { hash: missing }, &server),
        Message::Absent
    );
    // No manifest for this blob -> can't enumerate its chunks -> Absent.
    assert_eq!(
        serve_blob(&Message::GetHave { id: missing }, &server),
        Message::Absent
    );
}

#[test]
fn get_have_reports_a_holdings_bitfield() {
    // A blob of 10 distinct chunks; a store holding the manifest plus only the
    // even-indexed chunks reports a bitfield that matches exactly what it holds.
    let data: Vec<u8> = (0..1000u32).map(|i| i as u8).collect();
    let (manifest, chunks) = split_with(&data, 100);
    assert_eq!(manifest.chunks.len(), 10);
    let id = manifest.id();

    let mut store = Store::new();
    store.put(manifest.encode());
    for (i, chunk) in chunks.iter().enumerate() {
        if i % 2 == 0 {
            store.put(chunk.clone());
        }
    }

    let Message::Have { bits } = serve_blob(&Message::GetHave { id }, &store) else {
        panic!("a store holding the manifest should report a Have bitfield");
    };
    for (i, hash) in manifest.chunks.iter().enumerate() {
        let bit_set = bits[i / 8] & (1 << (i % 8)) != 0;
        assert_eq!(bit_set, store.has(hash), "bitfield disagrees at chunk {i}");
    }
    // The partial store genuinely holds some and lacks some.
    assert!(store.has(&manifest.chunks[0]) && !store.has(&manifest.chunks[1]));
}
