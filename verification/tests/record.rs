//! Signed announcements and who may write them.
use warren::addr::{IpAddr, SocketAddr};
use warren::crypto::Keypair;
use warren::id::NodeId;
use warren::record::{
    AnnouncementStore, CapabilityIssuer, RecordError, SignedAnnouncement, WriteCapability,
    MAX_RECORD_LIFETIME_MS,
};
use warren::routing::Contact;

fn key(n: u8) -> Keypair {
    Keypair::from_seed(&[n; 32])
}
fn topic(n: u8) -> NodeId {
    NodeId::from_bytes([n; 32])
}
fn cap(n: u8) -> WriteCapability {
    WriteCapability::from_bytes([n; 32])
}
fn source(port: u16) -> SocketAddr {
    SocketAddr::new(IpAddr::V4([192, 0, 2, 1]), port)
}

#[test]
fn signed_record_round_trips_and_verifies() {
    let record = SignedAnnouncement::sign(&key(1), topic(2), 3, 1_000, cap(4));
    let decoded = SignedAnnouncement::decode(&record.encode()).unwrap();
    assert_eq!(decoded, record);
    decoded.verify(999).unwrap();
}

#[test]
fn tampering_and_excessive_lifetimes_are_rejected() {
    let record = SignedAnnouncement::sign(&key(1), topic(2), 3, 1_000, cap(4));
    let mut bytes = record.encode();
    bytes[32] ^= 1;
    assert!(SignedAnnouncement::decode(&bytes)
        .unwrap()
        .verify(999)
        .is_err());
    let long_lived =
        SignedAnnouncement::sign(&key(1), topic(2), 4, MAX_RECORD_LIFETIME_MS + 1, cap(4));
    assert_eq!(long_lived.verify(0), Err(RecordError::InvalidExpiry));
}

#[test]
fn store_rejects_replay_and_uses_observed_source() {
    let mut store = AnnouncementStore::default();
    let first = SignedAnnouncement::sign(&key(1), topic(2), 1, 1_000, cap(4));
    store.accept(&first, source(1000), 999).unwrap();
    assert_eq!(
        store.accept(&first, source(2000), 999),
        Err(RecordError::StaleSequence)
    );
    let fresh = SignedAnnouncement::sign(&key(1), topic(2), 2, 1_000, cap(4));
    store.accept(&fresh, source(2000), 999).unwrap();
    assert_eq!(
        store.contacts(topic(2)),
        vec![Contact::new(fresh.owner_id(), source(2000))]
    );
}

#[test]
fn capability_is_scoped_to_one_owner_topic_and_lease() {
    let issuer_key = key(9);
    let mut issuer = CapabilityIssuer::new(issuer_key);
    let mut store = AnnouncementStore::default();
    let grant = issuer.issue(
        topic(2),
        NodeId::from_bytes(*blake3::hash(&key(1).public()).as_bytes()),
        1_000,
    );
    let allowed = SignedAnnouncement::sign(&key(1), topic(2), 1, 1_000, grant);
    store
        .accept_authorized(&issuer, &allowed, source(1000), 999)
        .unwrap();

    let wrong_topic = SignedAnnouncement::sign(&key(1), topic(3), 1, 1_000, grant);
    assert_eq!(
        store.accept_authorized(&issuer, &wrong_topic, source(1000), 999),
        Err(RecordError::UnauthorizedCapability)
    );
    let wrong_owner = SignedAnnouncement::sign(&key(2), topic(2), 1, 1_000, grant);
    assert_eq!(
        store.accept_authorized(&issuer, &wrong_owner, source(1000), 999),
        Err(RecordError::UnauthorizedCapability)
    );
}
