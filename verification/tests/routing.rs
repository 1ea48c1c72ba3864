//! The routing table: what it keeps, and what it lets go.
use warren::addr::{IpAddr, SocketAddr};
use warren::id::{NodeId, ID_LEN};
use warren::routing::{
    Admission, Contact, RoutingTable, EVICTION_THRESHOLD, K, MAX_PER_PREFIX,
};

fn id(first: u8) -> NodeId {
    let mut b = [0u8; ID_LEN];
    b[0] = first;
    NodeId::from_bytes(b)
}

fn addr(port: u16) -> SocketAddr {
    SocketAddr::new(IpAddr::V4([127, 0, 0, 1]), port)
}

fn public_addr(host: [u8; 4], port: u16) -> SocketAddr {
    SocketAddr::new(IpAddr::V4(host), port)
}

#[test]
fn does_not_store_self() {
    let me = id(0x01);
    let mut t = RoutingTable::new(me);
    assert!(!t.insert(Contact::new(me, addr(1))));
    assert_eq!(t.len(), 0);
}

#[test]
fn insert_and_contains() {
    let mut t = RoutingTable::new(id(0x00));
    let c = Contact::new(id(0x42), addr(1));
    assert!(t.insert(c));
    assert!(t.contains(&id(0x42)));
    assert_eq!(t.len(), 1);
}

#[test]
fn reinsert_refreshes_address_not_count() {
    let mut t = RoutingTable::new(id(0x00));
    assert!(t.insert(Contact::new(id(0x42), addr(1))));
    assert!(t.insert(Contact::new(id(0x42), addr(2))));
    assert_eq!(t.len(), 1);
    let c = t.closest(&id(0x42), 1);
    assert_eq!(c[0].addr, addr(2));
}

#[test]
fn closest_returns_nearest_first() {
    let mut t = RoutingTable::new(id(0x00));
    for b in [0x01u8, 0x02, 0x04, 0x08, 0x80, 0xff] {
        t.insert(Contact::new(id(b), addr(b as u16)));
    }
    let got = t.closest(&id(0x00), 3);
    assert_eq!(got.len(), 3);
    // Distances to 0x00 are the ids themselves; nearest is 0x01.
    assert_eq!(got[0].id, id(0x01));
    assert_eq!(got[1].id, id(0x02));
    assert_eq!(got[2].id, id(0x04));
}

#[test]
fn full_bucket_keeps_existing_contacts() {
    // To land many contacts in one bucket they must share a prefix length
    // with local. Local is all-zero; setting the top bit (byte0 = 0x80)
    // makes the XOR distance have zero leading zeros, so every such contact
    // falls in bucket 0. We then vary a later byte to make distinct ids.
    let mut t = RoutingTable::new(NodeId::from_bytes([0u8; ID_LEN]));
    let mut inserted = Vec::new();
    for i in 1..=(K as u16 + 5) {
        let mut b = [0u8; ID_LEN];
        b[0] = 0x80;
        b[1] = i as u8;
        let c = Contact::new(NodeId::from_bytes(b), addr(i));
        if t.insert(c) {
            inserted.push(c.id);
        }
    }
    // Exactly K land in that single bucket; the rest are rejected.
    assert_eq!(t.len(), K);
    assert_eq!(inserted.len(), K);
    // The first K inserted are the retained ones.
    for retained in &inserted {
        assert!(t.contains(retained));
    }
}

#[test]
fn full_bucket_keeps_bounded_replacement_and_names_lru_for_probe() {
    let mut t = RoutingTable::new(NodeId::from_bytes([0u8; ID_LEN]));
    let mut first = None;
    for i in 1..=K {
        let mut b = [0u8; ID_LEN];
        b[0] = 0x80;
        b[1] = i as u8;
        let c = Contact::new(NodeId::from_bytes(b), addr(i as u16));
        if i == 1 {
            first = Some(c);
        }
        assert_eq!(t.admit_contact(c), Admission::Inserted);
    }
    let mut b = [0u8; ID_LEN];
    b[0] = 0x80;
    b[1] = 99;
    let candidate = Contact::new(NodeId::from_bytes(b), addr(99));
    assert_eq!(t.admit_contact(candidate), Admission::Probe(first.unwrap()));
    assert_eq!(t.replace_unresponsive(&first.unwrap().id), Some(candidate));
    assert!(!t.contains(&first.unwrap().id));
    assert!(t.contains(&candidate.id));
}

#[test]
fn limits_public_v4_prefixes_but_not_private_test_addresses() {
    let mut t = RoutingTable::new(id(0));
    for i in 1..=MAX_PER_PREFIX {
        let mut b = [0u8; ID_LEN];
        b[0] = 0x40;
        b[1] = i as u8;
        assert_eq!(
            t.admit_contact(Contact::new(
                NodeId::from_bytes(b),
                public_addr([8, 8, 8, i as u8], i as u16)
            )),
            Admission::Inserted
        );
    }
    let mut b = [0u8; ID_LEN];
    b[0] = 0x40;
    b[1] = 99;
    assert_eq!(
        t.admit_contact(Contact::new(
            NodeId::from_bytes(b),
            public_addr([8, 8, 8, 99], 99)
        )),
        Admission::Rejected
    );
    assert_eq!(t.len(), MAX_PER_PREFIX);

    // Private/LAN contacts are intentionally exempt from this public
    // internet eclipse guard.
    b[1] = 100;
    assert_eq!(
        t.admit_contact(Contact::new(NodeId::from_bytes(b), addr(100))),
        Admission::Inserted
    );
}

#[test]
fn failures_below_threshold_retain_contact() {
    let mut t = RoutingTable::new(id(0x00));
    let c = Contact::new(id(0x42), addr(1));
    t.insert(c);
    for _ in 0..(EVICTION_THRESHOLD - 1) {
        assert!(
            !t.record_failure(&c.id),
            "should not evict before threshold"
        );
    }
    assert!(t.contains(&c.id));
}

#[test]
fn sustained_failures_evict() {
    let mut t = RoutingTable::new(id(0x00));
    let c = Contact::new(id(0x42), addr(1));
    t.insert(c);
    let mut evicted = false;
    for _ in 0..EVICTION_THRESHOLD {
        evicted = t.record_failure(&c.id);
    }
    assert!(evicted, "the threshold-th failure returns true");
    assert!(!t.contains(&c.id), "the departed contact is gone");
    assert_eq!(t.len(), 0);
}

#[test]
fn success_resets_failure_count() {
    // A live-but-lossy server: it accumulates failures, but a single fresh
    // sighting between them clears the count, so it is never evicted.
    let mut t = RoutingTable::new(id(0x00));
    let c = Contact::new(id(0x42), addr(1));
    t.insert(c);
    for _ in 0..(EVICTION_THRESHOLD - 1) {
        t.record_failure(&c.id);
    }
    t.insert(c); // a packet arrives — proof of life, resets the counter
    for _ in 0..(EVICTION_THRESHOLD - 1) {
        assert!(!t.record_failure(&c.id));
    }
    assert!(
        t.contains(&c.id),
        "reset means the second failure run also stays below threshold"
    );
}

#[test]
fn record_failure_unknown_id_is_noop() {
    let mut t = RoutingTable::new(id(0x00));
    assert!(!t.record_failure(&id(0x99)));
    assert_eq!(t.len(), 0);
}
