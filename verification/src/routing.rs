//! Kademlia k-bucket routing table.
//!
//! Contacts are filed into 256 buckets by the shared-prefix length between the
//! contact's id and our own. Each bucket holds up to [`K`] contacts,
//! most-recently-seen last, and a full bucket keeps its existing (older,
//! presumed-live) contacts.
//!
//! Departed servers are evicted by a consecutive-failure count:
//! [`RoutingTable::record_failure`] bumps a per-contact counter,
//! [`RoutingTable::insert`] (a fresh sighting) clears it, and a contact reaching
//! [`EVICTION_THRESHOLD`] failures is dropped.
use crate::addr::{network_of, same_network, IpAddr, SocketAddr};
use crate::id::{closer, dist, law_distance_zero, xor, zero_bits, NodeId};
use vstd::prelude::*;

verus! {

/// Bucket capacity: the Kademlia replication parameter.
pub const K: usize = 20;

/// Maximum number of globally-routable contacts from one IPv4 /24 or IPv6 /64
/// that are let into a bucket. Private and loopback addresses are exempt.
pub const MAX_PER_PREFIX: usize = 2;

/// Consecutive unanswered requests (with no intervening packet from the peer)
/// after which a contact is evicted.
pub const EVICTION_THRESHOLD: u8 = 3;

/// How many buckets there are.
pub const BUCKETS: usize = 256;

/// A known peer: its id and where to reach it.
#[derive(Clone, Copy, Debug, PartialEq, Eq)]
pub struct Contact {
    /// The peer's node id.
    pub id: NodeId,
    /// The peer's socket address.
    pub addr: SocketAddr,
}

impl Contact {
    /// Create a contact.
    pub fn new(id: NodeId, addr: SocketAddr) -> (r: Self)
        ensures
            r == (Contact { id, addr }),
    {
        Contact { id, addr }
    }
}

/// A stored contact and how many requests in a row it has left unanswered.
#[derive(Clone, Copy, Debug)]
pub struct Entry {
    /// The contact.
    pub contact: Contact,
    /// Consecutive unanswered requests; cleared by any fresh sighting.
    pub failures: u8,
}

/// Result of attempting to take a contact into the table.
#[derive(Clone, Copy, Debug, PartialEq, Eq)]
pub enum Admission {
    /// The contact is new and now in the table.
    Inserted,
    /// The contact was known and has been refreshed.
    Refreshed,
    /// The candidate is retained in a bounded replacement cache; the caller
    /// should ping the least-recently-seen incumbent before replacing it.
    Probe(Contact),
    /// The contact was turned away.
    Rejected,
}

/// A [`RoutingTable`] as a mathematical value.
#[verifier::ext_equal]
pub struct TableView {
    /// The id of the node that owns the table.
    pub local: NodeId,
    /// The contacts of each bucket, least recently seen first.
    pub buckets: Seq<Seq<Entry>>,
    /// The candidates waiting for a slot in each bucket, newest last.
    pub replacements: Seq<Seq<Contact>>,
}

/// The bucket an id belongs to; [`BUCKETS`] for the owner's own id, which has
/// none.
pub open spec fn bucket_of(local: NodeId, id: NodeId) -> int {
    zero_bits(xor(local@, id@)) as int
}

/// Whether the bucket holds the id.
pub open spec fn has_id(b: Seq<Entry>, id: NodeId) -> bool {
    exists|i: int| 0 <= i < b.len() && #[trigger] b[i].contact.id == id
}

/// Where the bucket holds the id.
pub open spec fn place(b: Seq<Entry>, id: NodeId) -> int {
    choose|i: int| 0 <= i < b.len() && #[trigger] b[i].contact.id == id
}

/// The contacts with another id than the given one.
pub open spec fn without(s: Seq<Contact>, id: NodeId) -> Seq<Contact>
    decreases s.len(),
{
    if s.len() == 0 {
        Seq::empty()
    } else if s.last().id == id {
        without(s.drop_last(), id)
    } else {
        without(s.drop_last(), id).push(s.last())
    }
}

/// How many contacts of the bucket share a network with an address.
pub open spec fn neighbours(b: Seq<Entry>, ip: IpAddr) -> nat
    decreases b.len(),
{
    if b.len() == 0 {
        0
    } else {
        neighbours(b.drop_last(), ip) + if network_of(b.last().contact.addr.ip) == network_of(ip) {
            1nat
        } else {
            0
        }
    }
}

/// Whether the bucket may take another contact at an address.
pub open spec fn diverse(b: Seq<Entry>, ip: IpAddr) -> bool {
    network_of(ip) is None || neighbours(b, ip) < MAX_PER_PREFIX
}

/// What taking in a contact does to its bucket and the candidates behind it.
pub open spec fn bucket_admits(b: Seq<Entry>, r: Seq<Contact>, c: Contact) -> (
    Seq<Entry>,
    Seq<Contact>,
    Admission,
) {
    let entry = Entry { contact: c, failures: 0 };
    if has_id(b, c.id) {
        (b.remove(place(b, c.id)).push(entry), without(r, c.id), Admission::Refreshed)
    } else if b.len() < K && diverse(b, c.addr.ip) {
        (b.push(entry), r, Admission::Inserted)
    } else if b.len() == K {
        let waiting = without(r, c.id).push(c);
        (
            b,
            if waiting.len() > K {
                waiting.drop_first()
            } else {
                waiting
            },
            Admission::Probe(b[0].contact),
        )
    } else {
        (b, r, Admission::Rejected)
    }
}

/// What filling a free slot does: the newest candidate that may come in does,
/// and those newer than it are dropped.
pub open spec fn bucket_promotes(b: Seq<Entry>, r: Seq<Contact>) -> (
    Seq<Entry>,
    Seq<Contact>,
    Option<Contact>,
)
    decreases r.len(),
{
    if r.len() == 0 {
        (b, r, None)
    } else if diverse(b, r.last().addr.ip) {
        (
            b.push(Entry { contact: r.last(), failures: 0 }),
            r.drop_last(),
            Some(r.last()),
        )
    } else {
        bucket_promotes(b, r.drop_last())
    }
}

/// The table with one bucket and its candidates replaced.
pub open spec fn with_bucket(
    t: TableView,
    i: int,
    b: Seq<Entry>,
    r: Seq<Contact>,
) -> TableView {
    TableView {
        buckets: t.buckets.update(i, b),
        replacements: t.replacements.update(i, r),
        ..t
    }
}

/// What taking in a contact does to the table.
pub open spec fn admitted(t: TableView, c: Contact) -> (TableView, Admission) {
    let i = bucket_of(t.local, c.id);
    if i >= BUCKETS {
        (t, Admission::Rejected)
    } else {
        let (b, r, admission) = bucket_admits(t.buckets[i], t.replacements[i], c);
        (with_bucket(t, i, b, r), admission)
    }
}

/// What removing a contact and filling its slot does to the table.
pub open spec fn replaced(t: TableView, id: NodeId) -> (TableView, Option<Contact>) {
    let i = bucket_of(t.local, id);
    if i >= BUCKETS || !has_id(t.buckets[i], id) {
        (t, None)
    } else {
        let (b, r, promoted) = bucket_promotes(
            t.buckets[i].remove(place(t.buckets[i], id)),
            t.replacements[i],
        );
        (with_bucket(t, i, b, r), promoted)
    }
}

/// What an unanswered request does to the table, and whether it evicts.
pub open spec fn failed(t: TableView, id: NodeId) -> (TableView, bool) {
    let i = bucket_of(t.local, id);
    if i >= BUCKETS || !has_id(t.buckets[i], id) {
        (t, false)
    } else {
        let b = t.buckets[i];
        let p = place(b, id);
        if b[p].failures + 1 >= EVICTION_THRESHOLD {
            (replaced(t, id).0, true)
        } else {
            (
                with_bucket(
                    t,
                    i,
                    b.update(p, Entry { failures: (b[p].failures + 1) as u8, ..b[p] }),
                    t.replacements[i],
                ),
                false,
            )
        }
    }
}

/// Whether the table holds an id.
pub open spec fn holds_id(t: TableView, id: NodeId) -> bool {
    bucket_of(t.local, id) < BUCKETS && has_id(t.buckets[bucket_of(t.local, id)], id)
}

/// The contacts of a bucket.
pub open spec fn contacts_of(b: Seq<Entry>) -> Seq<Contact> {
    Seq::new(b.len(), |i: int| b[i].contact)
}

/// The contacts of the first `n` buckets.
pub open spec fn contacts_below(t: TableView, n: nat) -> Seq<Contact>
    decreases n,
{
    if n == 0 {
        Seq::empty()
    } else {
        contacts_below(t, (n - 1) as nat) + contacts_of(t.buckets[n - 1])
    }
}

/// The table of a node that knows nobody.
pub open spec fn empty_table(local: NodeId) -> TableView {
    TableView {
        local,
        buckets: Seq::new(BUCKETS as nat, |i: int| Seq::<Entry>::empty()),
        replacements: Seq::new(BUCKETS as nat, |i: int| Seq::<Contact>::empty()),
    }
}

/// All contacts of the table.
pub open spec fn all_contacts(t: TableView) -> Seq<Contact> {
    contacts_below(t, BUCKETS as nat)
}

/// A contact put in its place among contacts that are sorted nearest first,
/// behind those no farther than it.
pub open spec fn placed(s: Seq<Contact>, c: Contact, target: NodeId) -> Seq<Contact>
    decreases s.len(),
{
    if s.len() == 0 || dist(s.last().id, target) <= dist(c.id, target) {
        s.push(c)
    } else {
        placed(s.drop_last(), c, target).push(s.last())
    }
}

/// Contacts sorted nearest first.
pub open spec fn by_distance(s: Seq<Contact>, target: NodeId) -> Seq<Contact>
    decreases s.len(),
{
    if s.len() == 0 {
        Seq::empty()
    } else {
        placed(by_distance(s.drop_last(), target), s.last(), target)
    }
}

/// The first `n` elements, or all of them.
pub open spec fn at_most<T>(s: Seq<T>, n: nat) -> Seq<T> {
    s.take(
        if s.len() < n {
            s.len() as int
        } else {
            n as int
        },
    )
}

/// The contacts nearest to a target, nearest first.
pub open spec fn nearest(t: TableView, target: NodeId, n: nat) -> Seq<Contact> {
    at_most(by_distance(all_contacts(t), target), n)
}

/// What holds of every bucket and the candidates behind it: neither is
/// overfull, every id belongs there and occurs once, and candidates only wait
/// while the bucket is full.
pub open spec fn bucket_ok(local: NodeId, i: int, b: Seq<Entry>, r: Seq<Contact>) -> bool {
    &&& b.len() <= K
    &&& r.len() <= K
    &&& b.len() < K ==> r.len() == 0
    &&& forall|j: int| 0 <= j < b.len() ==> bucket_of(local, #[trigger] b[j].contact.id) == i
    &&& forall|j: int| 0 <= j < r.len() ==> bucket_of(local, #[trigger] r[j].id) == i
    &&& forall|j: int, k: int|
        0 <= j < k < b.len() ==> #[trigger] b[j].contact.id != #[trigger] b[k].contact.id
    &&& forall|j: int, k: int| 0 <= j < k < r.len() ==> #[trigger] r[j].id != #[trigger] r[k].id
    &&& forall|j: int, k: int|
        0 <= j < b.len() && 0 <= k < r.len() ==> #[trigger] b[j].contact.id != #[trigger] r[k].id
    &&& forall|j: int| 0 <= j < b.len() ==> #[trigger] b[j].failures < EVICTION_THRESHOLD
}

/// What holds of every table.
pub open spec fn table_ok(t: TableView) -> bool {
    &&& t.buckets.len() == BUCKETS
    &&& t.replacements.len() == BUCKETS
    &&& forall|i: int|
        0 <= i < BUCKETS ==> bucket_ok(
            t.local,
            i,
            #[trigger] t.buckets[i],
            t.replacements[i],
        )
}

/// A routing table owned by the node with id `local`.
#[derive(Debug)]
pub struct RoutingTable {
    local: NodeId,
    buckets: Vec<Vec<Entry>>,
    replacements: Vec<Vec<Contact>>,
}

impl View for RoutingTable {
    type V = TableView;

    closed spec fn view(&self) -> TableView {
        TableView {
            local: self.local,
            buckets: Seq::new(self.buckets@.len(), |i: int| self.buckets@[i]@),
            replacements: Seq::new(self.replacements@.len(), |i: int| self.replacements@[i]@),
        }
    }
}

fn find_id(b: &Vec<Entry>, id: &NodeId) -> (r: Option<usize>)
    ensures
        match r {
            Some(p) => p < b@.len() && b@[p as int].contact.id == *id && has_id(b@, *id),
            None => !has_id(b@, *id),
        },
{
    let mut i: usize = 0;
    while i < b.len()
        invariant
            i <= b.len(),
            forall|j: int| 0 <= j < i ==> #[trigger] b@[j].contact.id != *id,
        decreases b.len() - i,
    {
        if b[i].contact.id == *id {
            assert(b@[i as int].contact.id == *id);
            return Some(i);
        }
        i += 1;
    }
    None
}

fn without_id(s: &Vec<Contact>, id: &NodeId) -> (r: Vec<Contact>)
    ensures
        r@ == without(s@, *id),
{
    let mut out: Vec<Contact> = Vec::new();
    let mut i: usize = 0;
    assert(s@.take(0) =~= Seq::empty());
    while i < s.len()
        invariant
            i <= s.len(),
            out@ == without(s@.take(i as int), *id),
        decreases s.len() - i,
    {
        assert(s@.take(i + 1).drop_last() =~= s@.take(i as int));
        if s[i].id != *id {
            out.push(s[i]);
        }
        i += 1;
    }
    assert(s@.take(i as int) =~= s@);
    out
}

fn is_diverse(b: &Vec<Entry>, ip: &IpAddr) -> (r: bool)
    ensures
        r == diverse(b@, *ip),
{
    if !crate::addr::is_public(ip) {
        return true;
    }
    let mut n: usize = 0;
    let mut i: usize = 0;
    assert(b@.take(0) =~= Seq::empty());
    while i < b.len()
        invariant
            i <= b.len(),
            n <= i,
            network_of(*ip) is Some,
            n == neighbours(b@.take(i as int), *ip),
        decreases b.len() - i,
    {
        assert(b@.take(i + 1).drop_last() =~= b@.take(i as int));
        if same_network(&b[i].contact.addr.ip, ip) {
            n += 1;
        }
        i += 1;
    }
    assert(b@.take(i as int) =~= b@);
    n < MAX_PER_PREFIX
}

proof fn lemma_without(s: Seq<Contact>, id: NodeId)
    ensures
        without(s, id).len() <= s.len(),
        forall|j: int|
            0 <= j < without(s, id).len() ==> s.contains(#[trigger] without(s, id)[j]) && without(
                s,
                id,
            )[j].id != id,
    decreases s.len(),
{
    if s.len() > 0 {
        lemma_without(s.drop_last(), id);
        let w = without(s.drop_last(), id);
        assert forall|j: int| 0 <= j < without(s, id).len() implies s.contains(
            #[trigger] without(s, id)[j],
        ) && without(s, id)[j].id != id by {
            if j < w.len() {
                assert(s.drop_last().contains(w[j]));
                let k = s.drop_last().index_of(w[j]);
                assert(s[k] == w[j]);
            } else {
                assert(s[s.len() - 1] == s.last());
            }
        }
    }
}

proof fn lemma_without_distinct(s: Seq<Contact>, id: NodeId)
    requires
        forall|j: int, k: int| 0 <= j < k < s.len() ==> #[trigger] s[j].id != #[trigger] s[k].id,
    ensures
        forall|j: int, k: int|
            0 <= j < k < without(s, id).len() ==> #[trigger] without(s, id)[j].id
                != #[trigger] without(s, id)[k].id,
    decreases s.len(),
{
    if s.len() > 0 {
        let rest = s.drop_last();
        assert forall|j: int, k: int| 0 <= j < k < rest.len() implies #[trigger] rest[j].id
            != #[trigger] rest[k].id by {
            assert(s[j].id != s[k].id);
        }
        lemma_without_distinct(rest, id);
        lemma_without(rest, id);
        let w = without(rest, id);
        assert forall|j: int, k: int| 0 <= j < k < without(s, id).len() implies #[trigger] without(
            s,
            id,
        )[j].id != #[trigger] without(s, id)[k].id by {
            if k == w.len() {
                assert(rest.contains(w[j]));
                let m = rest.index_of(w[j]);
                assert(s[m].id != s[s.len() - 1].id);
            }
        }
    }
}

/// Taking in a contact keeps its bucket in order.
#[verifier::spinoff_prover]
proof fn lemma_admits_ok(local: NodeId, i: int, b: Seq<Entry>, r: Seq<Contact>, c: Contact)
    requires
        bucket_ok(local, i, b, r),
        bucket_of(local, c.id) == i,
    ensures
        bucket_ok(local, i, bucket_admits(b, r, c).0, bucket_admits(b, r, c).1),
{
    let (b2, r2, _) = bucket_admits(b, r, c);
    lemma_without(r, c.id);
    lemma_without_distinct(r, c.id);
    let w = without(r, c.id);
    assert forall|j: int| 0 <= j < w.len() implies bucket_of(local, #[trigger] w[j].id) == i by {
        let k = r.index_of(w[j]);
        assert(r[k] == w[j]);
    }
    assert forall|j: int, k: int| 0 <= j < b.len() && 0 <= k < w.len() implies #[trigger] b[j].contact.id
        != #[trigger] w[k].id by {
        let m = r.index_of(w[k]);
        assert(b[j].contact.id != r[m].id);
    }
    if has_id(b, c.id) {
        let p = place(b, c.id);
        assert forall|j: int| 0 <= j < b2.len() implies b2[j] == (if j < p {
            b[j]
        } else if j < b.len() - 1 {
            b[j + 1]
        } else {
            Entry { contact: c, failures: 0 }
        }) by {}
        assert(r.len() > 0 ==> b.len() == K);
    } else if b.len() < K && diverse(b, c.addr.ip) {
        assert forall|j: int| 0 <= j < b.len() implies #[trigger] b2[j].contact.id != c.id by {
            assert(b[j].contact.id != c.id);
        }
    } else if b.len() == K {
        let waiting = w.push(c);
        assert forall|j: int| 0 <= j < r2.len() implies r2[j] == (if waiting.len() > K {
            waiting[j + 1]
        } else {
            waiting[j]
        }) by {}
        assert forall|j: int| 0 <= j < b.len() implies #[trigger] b[j].contact.id != c.id by {}
    }
}

/// Filling a free slot keeps the bucket in order.
#[verifier::spinoff_prover]
proof fn lemma_promotes_ok(local: NodeId, i: int, b: Seq<Entry>, r: Seq<Contact>)
    requires
        b.len() < K,
        bucket_ok(local, i, b, Seq::empty()),
        r.len() <= K,
        r.len() > 0 ==> b.len() == K - 1,
        forall|j: int| 0 <= j < r.len() ==> bucket_of(local, #[trigger] r[j].id) == i,
        forall|j: int, k: int| 0 <= j < k < r.len() ==> #[trigger] r[j].id != #[trigger] r[k].id,
        forall|j: int, k: int|
            0 <= j < b.len() && 0 <= k < r.len() ==> #[trigger] b[j].contact.id
                != #[trigger] r[k].id,
    ensures
        bucket_ok(local, i, bucket_promotes(b, r).0, bucket_promotes(b, r).1),
    decreases r.len(),
{
    if r.len() > 0 {
        if diverse(b, r.last().addr.ip) {
            let b2 = b.push(Entry { contact: r.last(), failures: 0 });
            assert(r[r.len() - 1] == r.last());
            assert forall|j: int| 0 <= j < b.len() implies #[trigger] b2[j].contact.id
                != r.last().id by {
                assert(b[j].contact.id != r[r.len() - 1].id);
            }
            assert forall|j: int, k: int| 0 <= j < b2.len() && 0 <= k < r.drop_last().len() implies #[trigger] b2[j].contact.id
                != #[trigger] r.drop_last()[k].id by {
                if j < b.len() {
                    assert(b[j].contact.id != r[k].id);
                } else {
                    assert(r[k].id != r[r.len() - 1].id);
                }
            }
        } else {
            lemma_promotes_ok(local, i, b, r.drop_last());
        }
    } else {
        assert(r =~= Seq::empty());
    }
}

/// Removing a contact and filling its slot keeps the bucket in order.
#[verifier::spinoff_prover]
proof fn lemma_replaces_ok(local: NodeId, i: int, b: Seq<Entry>, r: Seq<Contact>, p: int)
    requires
        bucket_ok(local, i, b, r),
        0 <= p < b.len(),
    ensures
        bucket_ok(
            local,
            i,
            bucket_promotes(b.remove(p), r).0,
            bucket_promotes(b.remove(p), r).1,
        ),
{
    let b1 = b.remove(p);
    assert forall|j: int| 0 <= j < b1.len() implies b1[j] == (if j < p {
        b[j]
    } else {
        b[j + 1]
    }) by {}
    lemma_promotes_ok(local, i, b1, r);
}

impl RoutingTable {
    /// The table is in order.
    pub open spec fn wf(&self) -> bool {
        table_ok(self@)
    }

    /// Create an empty table for the given local id.
    pub fn new(local: NodeId) -> (r: Self)
        ensures
            r.wf(),
            r@ == empty_table(local),
    {
        let mut buckets: Vec<Vec<Entry>> = Vec::new();
        let mut replacements: Vec<Vec<Contact>> = Vec::new();
        let mut i: usize = 0;
        while i < BUCKETS
            invariant
                i <= BUCKETS,
                buckets@.len() == i,
                replacements@.len() == i,
                forall|j: int| 0 <= j < i ==> #[trigger] buckets@[j]@ == Seq::<Entry>::empty(),
                forall|j: int|
                    0 <= j < i ==> #[trigger] replacements@[j]@ == Seq::<Contact>::empty(),
            decreases BUCKETS - i,
        {
            buckets.push(Vec::new());
            replacements.push(Vec::new());
            i += 1;
        }
        let r = RoutingTable { local, buckets, replacements };
        assert(r@.buckets =~= Seq::new(BUCKETS as nat, |i: int| Seq::<Entry>::empty()));
        assert(r@.replacements =~= Seq::new(BUCKETS as nat, |i: int| Seq::<Contact>::empty()));
        r
    }

    fn bucket_index(&self, id: &NodeId) -> (r: Option<usize>)
        ensures
            match r {
                Some(i) => i < BUCKETS && i == bucket_of(self@.local, *id),
                None => bucket_of(self@.local, *id) == BUCKETS,
            },
    {
        let lz: u32 = self.local.distance(id).leading_zeros();
        if lz >= 256 {
            None
        } else {
            Some(lz as usize)
        }
    }

    /// Insert or refresh a contact. Returns `true` if the contact is now
    /// present. A contact already known is moved to the most-recently-seen
    /// position, its address refreshed, and its failure count cleared.
    pub fn insert(&mut self, contact: Contact) -> (r: bool)
        requires
            old(self).wf(),
        ensures
            final(self).wf(),
            final(self)@ == admitted(old(self)@, contact).0,
            r == (admitted(old(self)@, contact).1 == Admission::Inserted || admitted(
                old(self)@,
                contact,
            ).1 == Admission::Refreshed),
    {
        match self.admit_contact(contact) {
            Admission::Inserted => true,
            Admission::Refreshed => true,
            _ => false,
        }
    }

    /// Take in or refresh a contact while retaining a bounded replacement
    /// candidate for a full bucket.
    pub fn admit_contact(&mut self, contact: Contact) -> (r: Admission)
        requires
            old(self).wf(),
        ensures
            final(self).wf(),
            (final(self)@, r) == admitted(old(self)@, contact),
    {
        let ghost t = self@;
        let idx: usize = match self.bucket_index(&contact.id) {
            Some(idx) => idx,
            None => {
                return Admission::Rejected;
            },
        };
        proof {
            assert(bucket_ok(t.local, idx as int, t.buckets[idx as int], t.replacements[idx as int]));
            lemma_admits_ok(
                t.local,
                idx as int,
                t.buckets[idx as int],
                t.replacements[idx as int],
                contact,
            );
        }
        let ghost (b, r, want) = bucket_admits(
            t.buckets[idx as int],
            t.replacements[idx as int],
            contact,
        );
        let entry = Entry { contact, failures: 0 };
        let known: Option<usize> = find_id(&self.buckets[idx], &contact.id);
        let admission: Admission = if let Some(pos) = known {
            assert(pos == place(t.buckets[idx as int], contact.id));
            let _ = self.buckets[idx].remove(pos);
            self.buckets[idx].push(entry);
            let kept: Vec<Contact> = without_id(&self.replacements[idx], &contact.id);
            self.replacements[idx] = kept;
            Admission::Refreshed
        } else if self.buckets[idx].len() < K && is_diverse(&self.buckets[idx], &contact.addr.ip) {
            self.buckets[idx].push(entry);
            Admission::Inserted
        } else if self.buckets[idx].len() == K {
            let mut waiting: Vec<Contact> = without_id(&self.replacements[idx], &contact.id);
            waiting.push(contact);
            if waiting.len() > K {
                let ghost full = waiting@;
                let _ = waiting.remove(0);
                assert(waiting@ =~= full.drop_first());
            }
            self.replacements[idx] = waiting;
            Admission::Probe(self.buckets[idx][0].contact)
        } else {
            Admission::Rejected
        };
        assert(self@.buckets =~= t.buckets.update(idx as int, b));
        assert(self@.replacements =~= t.replacements.update(idx as int, r));
        admission
    }

    fn promote(&mut self, idx: usize) -> (r: Option<Contact>)
        requires
            idx < old(self)@.buckets.len(),
            old(self)@.buckets.len() == old(self)@.replacements.len(),
        ensures
            final(self)@ == with_bucket(
                old(self)@,
                idx as int,
                bucket_promotes(
                    old(self)@.buckets[idx as int],
                    old(self)@.replacements[idx as int],
                ).0,
                bucket_promotes(
                    old(self)@.buckets[idx as int],
                    old(self)@.replacements[idx as int],
                ).1,
            ),
            r == bucket_promotes(
                old(self)@.buckets[idx as int],
                old(self)@.replacements[idx as int],
            ).2,
    {
        let ghost t = self@;
        let ghost want = bucket_promotes(t.buckets[idx as int], t.replacements[idx as int]);
        loop
            invariant
                idx < self.buckets@.len(),
                self.buckets@.len() == self.replacements@.len(),
                self.local == t.local,
                t == old(self)@,
                want == bucket_promotes(t.buckets[idx as int], t.replacements[idx as int]),
                self@.buckets == t.buckets,
                t.replacements.len() == self.replacements@.len(),
                forall|j: int|
                    0 <= j < t.replacements.len() && j != idx ==> #[trigger] self.replacements@[j]@
                        == t.replacements[j],
                bucket_promotes(t.buckets[idx as int], self.replacements@[idx as int]@) == want,
            decreases self.replacements@[idx as int]@.len(),
        {
            let ghost waiting = self.replacements@[idx as int]@;
            assert(t.buckets[idx as int] == self.buckets@[idx as int]@);
            match self.replacements[idx].pop() {
                None => {
                    assert(self@.buckets =~= t.buckets.update(idx as int, want.0));
                    assert(self@.replacements =~= t.replacements.update(idx as int, want.1));
                    return None;
                },
                Some(candidate) => {
                    assert(self.replacements@[idx as int]@ =~= waiting.drop_last());
                    if is_diverse(&self.buckets[idx], &candidate.addr.ip) {
                        self.buckets[idx].push(Entry { contact: candidate, failures: 0 });
                        assert(self@.buckets =~= t.buckets.update(idx as int, want.0));
                        assert(self@.replacements =~= t.replacements.update(idx as int, want.1));
                        return Some(candidate);
                    }
                    assert(self@.buckets =~= t.buckets);
                },
            }
        }
    }

    fn remove_at(&mut self, idx: usize, pos: usize) -> (r: Option<Contact>)
        requires
            old(self).wf(),
            idx < BUCKETS,
            pos < old(self)@.buckets[idx as int].len(),
            pos == place(
                old(self)@.buckets[idx as int],
                old(self)@.buckets[idx as int][pos as int].contact.id,
            ),
        ensures
            final(self).wf(),
            (final(self)@, r) == replaced(
                old(self)@,
                old(self)@.buckets[idx as int][pos as int].contact.id,
            ),
    {
        let ghost t = self@;
        let ghost b = t.buckets[idx as int];
        let ghost id = b[pos as int].contact.id;
        proof {
            assert(bucket_ok(t.local, idx as int, t.buckets[idx as int], t.replacements[idx as int]));
            lemma_replaces_ok(t.local, idx as int, b, t.replacements[idx as int], pos as int);
            assert(has_id(b, id));
        }
        let _ = self.buckets[idx].remove(pos);
        assert(self@.buckets =~= t.buckets.update(idx as int, b.remove(pos as int)));
        assert(self@.replacements =~= t.replacements);
        let r: Option<Contact> = self.promote(idx);
        assert(self@.buckets =~= replaced(t, id).0.buckets);
        assert(self@.replacements =~= replaced(t, id).0.replacements);
        r
    }

    /// Remove an unresponsive contact and promote the most-recent admissible
    /// replacement. Returns the promoted contact, if any.
    pub fn replace_unresponsive(&mut self, id: &NodeId) -> (r: Option<Contact>)
        requires
            old(self).wf(),
        ensures
            final(self).wf(),
            (final(self)@, r) == replaced(old(self)@, *id),
    {
        let idx: usize = match self.bucket_index(id) {
            Some(idx) => idx,
            None => {
                return None;
            },
        };
        assert(bucket_ok(
            self@.local,
            idx as int,
            self@.buckets[idx as int],
            self@.replacements[idx as int],
        ));
        let pos: usize = match find_id(&self.buckets[idx], id) {
            Some(pos) => pos,
            None => {
                return None;
            },
        };
        self.remove_at(idx, pos)
    }

    /// Record that a request to `id` went unanswered. Returns whether that
    /// evicted the contact.
    pub fn record_failure(&mut self, id: &NodeId) -> (r: bool)
        requires
            old(self).wf(),
        ensures
            final(self).wf(),
            (final(self)@, r) == failed(old(self)@, *id),
    {
        let ghost t = self@;
        let idx: usize = match self.bucket_index(id) {
            Some(idx) => idx,
            None => {
                return false;
            },
        };
        assert(bucket_ok(t.local, idx as int, t.buckets[idx as int], t.replacements[idx as int]));
        let pos: usize = match find_id(&self.buckets[idx], id) {
            Some(pos) => pos,
            None => {
                return false;
            },
        };
        let entry: Entry = self.buckets[idx][pos];
        assert(entry == t.buckets[idx as int][pos as int]);
        if entry.failures + 1 >= EVICTION_THRESHOLD {
            let _ = self.remove_at(idx, pos);
            true
        } else {
            let counted = Entry { contact: entry.contact, failures: entry.failures + 1 };
            self.buckets[idx].set(pos, counted);
            proof {
                let b = t.buckets[idx as int];
                let b2 = b.update(pos as int, counted);
                assert(self@.buckets =~= t.buckets.update(idx as int, b2));
                assert(self@.replacements =~= t.replacements.update(
                    idx as int,
                    t.replacements[idx as int],
                ));
                assert forall|j: int| 0 <= j < b2.len() implies #[trigger] b2[j].contact
                    == b[j].contact by {}
            }
            false
        }
    }

    /// Whether a contact with this id is present.
    pub fn contains(&self, id: &NodeId) -> (r: bool)
        requires
            self.wf(),
        ensures
            r == holds_id(self@, *id),
    {
        match self.bucket_index(id) {
            Some(idx) => {
                assert(self@.buckets[idx as int] == self.buckets@[idx as int]@);
                find_id(&self.buckets[idx], id).is_some()
            },
            None => false,
        }
    }

    /// Total number of contacts across all buckets.
    pub fn len(&self) -> (r: usize)
        requires
            self.wf(),
        ensures
            r == all_contacts(self@).len(),
    {
        let mut n: usize = 0;
        let mut i: usize = 0;
        while i < BUCKETS
            invariant
                i <= BUCKETS,
                self.wf(),
                n == contacts_below(self@, i as nat).len(),
                n <= i * K,
            decreases BUCKETS - i,
        {
            assert(self@.buckets[i as int] == self.buckets@[i as int]@);
            n += self.buckets[i].len();
            i += 1;
        }
        n
    }

    /// Whether the table holds no contacts.
    pub fn is_empty(&self) -> (r: bool)
        requires
            self.wf(),
        ensures
            r == (all_contacts(self@).len() == 0),
    {
        self.len() == 0
    }

    /// The `n` contacts closest to `target`, nearest first.
    pub fn closest(&self, target: &NodeId, n: usize) -> (r: Vec<Contact>)
        requires
            self.wf(),
        ensures
            r@ == nearest(self@, *target, n as nat),
    {
        let mut sorted: Vec<Contact> = Vec::new();
        let ghost mut seen: Seq<Contact> = Seq::empty();
        let mut i: usize = 0;
        while i < BUCKETS
            invariant
                i <= BUCKETS,
                self.wf(),
                seen == contacts_below(self@, i as nat),
                sorted@ == by_distance(seen, *target),
            decreases BUCKETS - i,
        {
            let ghost below = seen;
            let ghost here = contacts_of(self@.buckets[i as int]);
            assert(self@.buckets[i as int] == self.buckets@[i as int]@);
            let mut j: usize = 0;
            assert(below + here.take(0) =~= below);
            while j < self.buckets[i].len()
                invariant
                    i < BUCKETS,
                    self.wf(),
                    self@.buckets[i as int] == self.buckets@[i as int]@,
                    here == contacts_of(self.buckets@[i as int]@),
                    j <= self.buckets@[i as int]@.len(),
                    seen == below + here.take(j as int),
                    sorted@ == by_distance(seen, *target),
                decreases self.buckets@[i as int]@.len() - j,
            {
                let c: Contact = self.buckets[i][j].contact;
                place_contact(&mut sorted, c, target);
                proof {
                    let grown = below + here.take(j + 1);
                    assert(grown.drop_last() =~= seen);
                    assert(grown.last() == c);
                    seen = grown;
                }
                j += 1;
            }
            assert(here.take(j as int) =~= here);
            i += 1;
        }
        let ghost all = sorted@;
        sorted.truncate(n);
        assert(sorted@ =~= at_most(all, n as nat));
        sorted
    }
}

proof fn lemma_placed_at(s: Seq<Contact>, c: Contact, target: NodeId, p: int)
    requires
        0 <= p <= s.len(),
        p == 0 || dist(s[p - 1].id, target) <= dist(c.id, target),
        forall|j: int| p <= j < s.len() ==> dist(#[trigger] s[j].id, target) > dist(c.id, target),
    ensures
        placed(s, c, target) == s.insert(p, c),
    decreases s.len(),
{
    if p == s.len() {
        assert(s.insert(p, c) =~= s.push(c));
    } else {
        assert(s.last() == s[s.len() - 1]);
        lemma_placed_at(s.drop_last(), c, target, p);
        assert(s.insert(p, c) =~= s.drop_last().insert(p, c).push(s.last()));
    }
}

fn place_contact(s: &mut Vec<Contact>, c: Contact, target: &NodeId)
    ensures
        final(s)@ == placed(old(s)@, c, *target),
{
    let mut p: usize = s.len();
    while p > 0
        invariant_except_break
            p <= s.len(),
            s@ == old(s)@,
            forall|j: int|
                p <= j < s@.len() ==> dist(#[trigger] s@[j].id, *target) > dist(c.id, *target),
        ensures
            p <= s@.len(),
            s@ == old(s)@,
            p == 0 || dist(s@[p - 1].id, *target) <= dist(c.id, *target),
            forall|j: int|
                p <= j < s@.len() ==> dist(#[trigger] s@[j].id, *target) > dist(c.id, *target),
        decreases p,
    {
        if !closer(&c.id, &s[p - 1].id, target) {
            break;
        }
        p -= 1;
    }
    proof {
        lemma_placed_at(s@, c, *target, p as int);
    }
    s.insert(p, c);
}

/// Whether contacts stand nearest first.
pub open spec fn nearest_first(s: Seq<Contact>, target: NodeId) -> bool {
    forall|i: int, j: int|
        0 <= i < j < s.len() ==> dist(#[trigger] s[i].id, target) <= dist(#[trigger] s[j].id, target)
}

proof fn lemma_placed_sorted(s: Seq<Contact>, c: Contact, target: NodeId)
    requires
        nearest_first(s, target),
    ensures
        nearest_first(placed(s, c, target), target),
        placed(s, c, target).len() == s.len() + 1,
        forall|x: Contact|
            #[trigger] placed(s, c, target).contains(x) <==> s.contains(x) || x == c,
    decreases s.len(),
{
    let out = placed(s, c, target);
    if s.len() == 0 || dist(s.last().id, target) <= dist(c.id, target) {
        assert forall|i: int, j: int| 0 <= i < j < out.len() implies dist(
            #[trigger] out[i].id,
            target,
        ) <= dist(#[trigger] out[j].id, target) by {
            if j == s.len() && i < s.len() - 1 {
                assert(dist(s[i].id, target) <= dist(s[s.len() - 1].id, target));
            }
        }
        assert forall|x: Contact| out.contains(x) <==> s.contains(x) || x == c by {
            if s.contains(x) {
                assert(out[s.index_of(x)] == x);
            }
            assert(out[s.len() as int] == c);
            if out.contains(x) {
                let i = out.index_of(x);
                if i < s.len() {
                    assert(s[i] == x);
                }
            }
        }
    } else {
        let rest = s.drop_last();
        let below = placed(rest, c, target);
        lemma_placed_sorted(rest, c, target);
        assert forall|i: int, j: int| 0 <= i < j < out.len() implies dist(
            #[trigger] out[i].id,
            target,
        ) <= dist(#[trigger] out[j].id, target) by {
            if j == below.len() {
                assert(below.contains(below[i]));
                if below[i] != c {
                    let k = rest.index_of(below[i]);
                    assert(dist(s[k].id, target) <= dist(s[s.len() - 1].id, target));
                }
            }
        }
        assert forall|x: Contact| out.contains(x) <==> s.contains(x) || x == c by {
            if out.contains(x) {
                let i = out.index_of(x);
                if i < below.len() {
                    assert(below[i] == x);
                    assert(below.contains(x));
                    if rest.contains(x) {
                        assert(s[rest.index_of(x)] == x);
                    }
                } else {
                    assert(s[s.len() - 1] == x);
                }
            }
            if s.contains(x) {
                let i = s.index_of(x);
                if i < rest.len() {
                    assert(rest[i] == x);
                    assert(below.contains(x));
                    assert(out[below.index_of(x)] == x);
                } else {
                    assert(out[below.len() as int] == x);
                }
            }
            if x == c {
                assert(below.contains(c));
                assert(out[below.index_of(c)] == c);
            }
        }
    }
}

/// Sorting keeps every contact and brings the nearest to the front.
pub proof fn law_sorting(s: Seq<Contact>, target: NodeId)
    ensures
        nearest_first(by_distance(s, target), target),
        by_distance(s, target).len() == s.len(),
        forall|x: Contact| #[trigger] by_distance(s, target).contains(x) <==> s.contains(x),
    decreases s.len(),
{
    if s.len() > 0 {
        law_sorting(s.drop_last(), target);
        lemma_placed_sorted(by_distance(s.drop_last(), target), s.last(), target);
        assert forall|x: Contact| by_distance(s, target).contains(x) <==> s.contains(x) by {
            if s.contains(x) {
                let i = s.index_of(x);
                if i < s.len() - 1 {
                    assert(s.drop_last()[i] == x);
                }
            }
            if s.drop_last().contains(x) {
                assert(s[s.drop_last().index_of(x)] == x);
            }
            assert(s[s.len() - 1] == s.last());
        }
    }
}

/// The contacts found nearest to a target come nearest first, are of the table,
/// and none that was left out is nearer than one that was found.
pub proof fn law_closest(t: TableView, target: NodeId, n: nat)
    ensures
        nearest_first(nearest(t, target, n), target),
        forall|x: Contact| nearest(t, target, n).contains(x) ==> all_contacts(t).contains(x),
        nearest(t, target, n).len() == if all_contacts(t).len() < n {
            all_contacts(t).len()
        } else {
            n
        },
        forall|x: Contact, i: int|
            all_contacts(t).contains(x) && !nearest(t, target, n).contains(x) && 0 <= i < nearest(
                t,
                target,
                n,
            ).len() ==> dist(#[trigger] nearest(t, target, n)[i].id, target) <= dist(
                #[trigger] x.id,
                target,
            ),
{
    let all = by_distance(all_contacts(t), target);
    let out = nearest(t, target, n);
    law_sorting(all_contacts(t), target);
    assert forall|x: Contact| out.contains(x) implies all_contacts(t).contains(x) by {
        assert(all[out.index_of(x)] == x);
        assert(all.contains(x));
    }
    assert forall|x: Contact, i: int|
        all_contacts(t).contains(x) && !out.contains(x) && 0 <= i < out.len() implies dist(
        #[trigger] out[i].id,
        target,
    ) <= dist(#[trigger] x.id, target) by {
        assert(all.contains(x));
        let k = all.index_of(x);
        if k < out.len() {
            assert(out[k] == x);
        }
        assert(dist(all[i].id, target) <= dist(all[k].id, target));
    }
}

/// The owner of a table is never in it.
pub proof fn law_never_stores_self(t: TableView, addr: SocketAddr)
    ensures
        admitted(t, Contact { id: t.local, addr }) == (t, Admission::Rejected),
        !holds_id(t, t.local),
{
    law_distance_zero(t.local, t.local);
    lemma_zero_bits_of_zeros(32);
    crate::id::lemma_id_len(t.local);
}

proof fn lemma_zero_bits_of_zeros(n: nat)
    ensures
        zero_bits(Seq::new(n, |i: int| 0u8)) == 8 * n,
    decreases n,
{
    if n > 0 {
        lemma_zero_bits_of_zeros((n - 1) as nat);
        assert(Seq::new(n, |i: int| 0u8).skip(1) =~= Seq::new((n - 1) as nat, |i: int| 0u8));
    }
}

/// A contact that is turned away or kept waiting costs no contact its slot: a
/// full bucket keeps the contacts it has.
pub proof fn law_full_bucket_keeps_its_contacts(t: TableView, c: Contact)
    requires
        table_ok(t),
        bucket_of(t.local, c.id) < BUCKETS,
        t.buckets[bucket_of(t.local, c.id)].len() == K,
        !holds_id(t, c.id),
    ensures
        admitted(t, c).0.buckets == t.buckets,
        admitted(t, c).1 is Probe,
{
    let i = bucket_of(t.local, c.id);
    assert(t.buckets.update(i, t.buckets[i]) =~= t.buckets);
}

/// A contact is let in only while fewer than the cap of its network are in the
/// bucket.
pub proof fn law_admission_is_diverse(t: TableView, c: Contact)
    requires
        table_ok(t),
        admitted(t, c).1 == Admission::Inserted,
        network_of(c.addr.ip) is Some,
    ensures
        neighbours(t.buckets[bucket_of(t.local, c.id)], c.addr.ip) < MAX_PER_PREFIX,
{
}

/// A fresh sighting clears the failure count: from then on it takes as many
/// failures to evict the contact as it does for a new one.
pub proof fn law_sighting_clears_failures(t: TableView, c: Contact)
    requires
        table_ok(t),
        holds_id(t, c.id),
    ensures
        ({
            let i = bucket_of(t.local, c.id);
            let b = admitted(t, c).0.buckets[i];
            &&& admitted(t, c).1 == Admission::Refreshed
            &&& b.last() == Entry { contact: c, failures: 0 }
            &&& holds_id(admitted(t, c).0, c.id)
            &&& b.len() == t.buckets[i].len()
        }),
{
    let i = bucket_of(t.local, c.id);
    let b = admitted(t, c).0.buckets[i];
    assert(b[b.len() - 1].contact.id == c.id);
}

/// Failures evict a contact exactly when their count reaches the threshold, and
/// not before.
pub proof fn law_sustained_failures_evict(t: TableView, id: NodeId)
    requires
        table_ok(t),
        holds_id(t, id),
    ensures
        ({
            let i = bucket_of(t.local, id);
            let b = t.buckets[i];
            &&& failed(t, id).1 <==> b[place(b, id)].failures + 1 == EVICTION_THRESHOLD
            &&& failed(t, id).1 ==> !holds_id(failed(t, id).0, id)
            &&& !failed(t, id).1 ==> holds_id(failed(t, id).0, id)
        }),
{
    let i = bucket_of(t.local, id);
    assert(bucket_ok(t.local, i, t.buckets[i], t.replacements[i]));
    let b = t.buckets[i];
    let p = place(b, id);
    let r = t.replacements[i];
    if failed(t, id).1 {
        let b1 = b.remove(p);
        assert forall|j: int| 0 <= j < b1.len() implies #[trigger] b1[j].contact.id != id by {
            assert(b1[j] == if j < p {
                b[j]
            } else {
                b[j + 1]
            });
        }
        assert forall|k: int| 0 <= k < r.len() implies #[trigger] r[k].id != id by {
            assert(b[p].contact.id != r[k].id);
        }
        lemma_promotes_lacks(b1, r, id);
    } else {
        let b2 = failed(t, id).0.buckets[i];
        assert(b2[p].contact.id == id);
    }
}

proof fn lemma_promotes_lacks(b: Seq<Entry>, r: Seq<Contact>, id: NodeId)
    requires
        !has_id(b, id),
        forall|k: int| 0 <= k < r.len() ==> #[trigger] r[k].id != id,
    ensures
        !has_id(bucket_promotes(b, r).0, id),
    decreases r.len(),
{
    if r.len() > 0 {
        if diverse(b, r.last().addr.ip) {
            let b2 = b.push(Entry { contact: r.last(), failures: 0 });
            assert(r[r.len() - 1] == r.last());
            assert forall|j: int| 0 <= j < b2.len() implies #[trigger] b2[j].contact.id != id by {
                if j < b.len() {
                    assert(b[j].contact.id != id);
                }
            }
        } else {
            lemma_promotes_lacks(b, r.drop_last(), id);
        }
    }
}

/// The first `n` buckets of a new table hold nothing.
proof fn lemma_empty_below(local: NodeId, n: nat)
    requires
        n <= BUCKETS,
    ensures
        contacts_below(empty_table(local), n).len() == 0,
    decreases n,
{
    if n > 0 {
        lemma_empty_below(local, (n - 1) as nat);
        assert(empty_table(local).buckets[n - 1] =~= Seq::<Entry>::empty());
    }
}

/// A new table holds no contacts.
pub proof fn law_new_table_is_empty(local: NodeId)
    ensures
        all_contacts(empty_table(local)).len() == 0,
{
    lemma_empty_below(local, BUCKETS as nat);
}

/// Something that changes a table.
pub enum TableCall {
    /// A contact is seen.
    Seen(Contact),
    /// A request to a contact goes unanswered.
    Failed(NodeId),
    /// A contact that does not answer is replaced at once.
    Replaced(NodeId),
}

/// A table after a call.
pub open spec fn after_call(t: TableView, c: TableCall) -> TableView {
    match c {
        TableCall::Seen(contact) => admitted(t, contact).0,
        TableCall::Failed(id) => failed(t, id).0,
        TableCall::Replaced(id) => replaced(t, id).0,
    }
}

/// A table after its calls, one after the other.
pub open spec fn after_calls(t: TableView, calls: Seq<TableCall>) -> TableView
    decreases calls.len(),
{
    if calls.len() == 0 {
        t
    } else {
        after_call(after_calls(t, calls.drop_last()), calls.last())
    }
}

/// Whether a call brings a contact in, or refreshes it: it was seen and is held,
/// or it was not held before and is held after.
pub open spec fn sights(t: TableView, c: TableCall, id: NodeId) -> bool {
    holds_id(after_call(t, c), id) && (!holds_id(t, id) || (c matches TableCall::Seen(contact)
        && contact.id == id))
}

/// How many requests to a contact went unanswered since it came in or was seen
/// last.
pub open spec fn misses(t: TableView, calls: Seq<TableCall>, id: NodeId) -> nat
    decreases calls.len(),
{
    if calls.len() == 0 {
        0
    } else if sights(after_calls(t, calls.drop_last()), calls.last(), id) {
        0
    } else if calls.last() == TableCall::Failed(id) {
        misses(t, calls.drop_last(), id) + 1
    } else {
        misses(t, calls.drop_last(), id)
    }
}

/// The failures counted for a contact of a bucket.
spec fn fails(b: Seq<Entry>, id: NodeId) -> Option<u8> {
    if has_id(b, id) {
        Some(b[place(b, id)].failures)
    } else {
        None
    }
}

spec fn ids_differ(b: Seq<Entry>) -> bool {
    forall|j: int, k: int|
        0 <= j < k < b.len() ==> #[trigger] b[j].contact.id != #[trigger] b[k].contact.id
}

proof fn lemma_fails_at(b: Seq<Entry>, j: int)
    requires
        ids_differ(b),
        0 <= j < b.len(),
    ensures
        fails(b, b[j].contact.id) == Some(b[j].failures),
        place(b, b[j].contact.id) == j,
{
    let id = b[j].contact.id;
    assert(has_id(b, id));
    let p = place(b, id);
    assert(b[p].contact.id == b[j].contact.id);
}

proof fn lemma_fails_push(b: Seq<Entry>, e: Entry, x: NodeId)
    requires
        ids_differ(b),
        !has_id(b, e.contact.id),
    ensures
        ids_differ(b.push(e)),
        fails(b.push(e), x) == if x == e.contact.id {
            Some(e.failures)
        } else {
            fails(b, x)
        },
{
    let b2 = b.push(e);
    assert forall|j: int, k: int| 0 <= j < k < b2.len() implies #[trigger] b2[j].contact.id
        != #[trigger] b2[k].contact.id by {
        assert(b[j].contact.id == b2[j].contact.id);
        if k < b.len() {
            assert(b[k].contact.id == b2[k].contact.id);
        }
    }
    if x == e.contact.id {
        lemma_fails_at(b2, b.len() as int);
    } else if has_id(b, x) {
        let p = place(b, x);
        lemma_fails_at(b, p);
        assert(b2[p] == b[p]);
        lemma_fails_at(b2, p);
    } else if has_id(b2, x) {
        let p = place(b2, x);
        assert(b[p].contact.id == x);
    }
}

proof fn lemma_fails_remove(b: Seq<Entry>, p: int, x: NodeId)
    requires
        ids_differ(b),
        0 <= p < b.len(),
    ensures
        ids_differ(b.remove(p)),
        fails(b.remove(p), x) == if x == b[p].contact.id {
            None
        } else {
            fails(b, x)
        },
{
    let b2 = b.remove(p);
    assert forall|j: int| 0 <= j < b2.len() implies #[trigger] b2[j] == b[if j < p {
        j
    } else {
        j + 1
    }] by {}
    assert forall|j: int, k: int| 0 <= j < k < b2.len() implies #[trigger] b2[j].contact.id
        != #[trigger] b2[k].contact.id by {
        let j1 = if j < p {
            j
        } else {
            j + 1
        };
        let k1 = if k < p {
            k
        } else {
            k + 1
        };
        assert(b[j1].contact.id != b[k1].contact.id);
    }
    if has_id(b2, x) {
        let q = place(b2, x);
        let q1 = if q < p {
            q
        } else {
            q + 1
        };
        assert(b[q1] == b2[q]);
        lemma_fails_at(b, q1);
        lemma_fails_at(b2, q);
    } else if has_id(b, x) {
        let q = place(b, x);
        if q != p {
            let q2 = if q < p {
                q
            } else {
                q - 1
            };
            assert(b2[q2] == b[q]);
            assert(has_id(b2, x));
        }
    }
}

proof fn lemma_fails_update(b: Seq<Entry>, p: int, e: Entry, x: NodeId)
    requires
        ids_differ(b),
        0 <= p < b.len(),
        e.contact == b[p].contact,
    ensures
        fails(b.update(p, e), x) == if x == e.contact.id {
            Some(e.failures)
        } else {
            fails(b, x)
        },
{
    let b2 = b.update(p, e);
    assert forall|j: int| 0 <= j < b2.len() implies #[trigger] b2[j].contact == b[j].contact by {}
    assert(ids_differ(b2));
    if has_id(b, x) {
        let q = place(b, x);
        lemma_fails_at(b, q);
        assert(b2[q].contact.id == x);
        lemma_fails_at(b2, q);
        lemma_fails_at(b, p);
    } else if has_id(b2, x) {
        let q = place(b2, x);
        assert(b[q].contact.id == x);
    } else {
        lemma_fails_at(b2, p);
    }
}

proof fn lemma_fails_promoted(b: Seq<Entry>, r: Seq<Contact>, x: NodeId)
    requires
        ids_differ(b),
        forall|j: int, k: int|
            0 <= j < b.len() && 0 <= k < r.len() ==> #[trigger] b[j].contact.id
                != #[trigger] r[k].id,
    ensures
        fails(bucket_promotes(b, r).0, x) == match bucket_promotes(b, r).2 {
            Some(c) => if c.id == x {
                Some(0u8)
            } else {
                fails(b, x)
            },
            None => fails(b, x),
        },
        match bucket_promotes(b, r).2 {
            Some(c) => !has_id(b, c.id) && bucket_promotes(b, r).0.len() == b.len() + 1
                && r.contains(c),
            None => bucket_promotes(b, r).0 == b,
        },
    decreases r.len(),
{
    if r.len() > 0 {
        let c = r.last();
        if diverse(b, c.addr.ip) {
            assert(r[r.len() - 1] == c);
            assert(!has_id(b, c.id));
            lemma_fails_push(b, Entry { contact: c, failures: 0 }, x);
        } else {
            let rest = r.drop_last();
            assert forall|j: int, k: int| 0 <= j < b.len() && 0 <= k < rest.len() implies #[trigger] b[j].contact.id
                != #[trigger] rest[k].id by {
                assert(rest[k] == r[k]);
            }
            lemma_fails_promoted(b, rest, x);
            if let Some(d) = bucket_promotes(b, rest).2 {
                let k = rest.index_of(d);
                assert(r[k] == d);
            }
        }
    }
}

spec fn counted(t: TableView, id: NodeId) -> Option<u8> {
    let i = bucket_of(t.local, id);
    if i < BUCKETS {
        fails(t.buckets[i], id)
    } else {
        None
    }
}

proof fn lemma_call_keeps_order(t: TableView, c: TableCall)
    requires
        table_ok(t),
    ensures
        table_ok(after_call(t, c)),
        after_call(t, c).local == t.local,
{
    let id = match c {
        TableCall::Seen(contact) => contact.id,
        TableCall::Failed(id) => id,
        TableCall::Replaced(id) => id,
    };
    let i = bucket_of(t.local, id);
    if 0 <= i < BUCKETS {
        let b = t.buckets[i];
        let r = t.replacements[i];
        assert(bucket_ok(t.local, i, b, r));
        if let TableCall::Seen(contact) = c {
            lemma_admits_ok(t.local, i, b, r, contact);
        } else if has_id(b, id) {
            let p = place(b, id);
            lemma_replaces_ok(t.local, i, b, r, p);
            let e = Entry { failures: (b[p].failures + 1) as u8, ..b[p] };
            let b2 = b.update(p, e);
            assert forall|j: int| 0 <= j < b2.len() implies #[trigger] b2[j].contact
                == b[j].contact by {}
        }
    }
}

/// What a call does to the failures counted for a contact.
proof fn lemma_counted(t: TableView, c: TableCall, x: NodeId)
    requires
        table_ok(t),
    ensures
        ({
            let after = counted(after_call(t, c), x);
            if sights(t, c, x) {
                after == Some(0u8)
            } else if c == TableCall::Failed(x) && after is Some {
                counted(t, x) is Some && after->Some_0 == counted(t, x)->Some_0 + 1
            } else {
                after is Some ==> after == counted(t, x)
            }
        }),
{
    let id = match c {
        TableCall::Seen(contact) => contact.id,
        TableCall::Failed(id) => id,
        TableCall::Replaced(id) => id,
    };
    let i = bucket_of(t.local, id);
    let w = after_call(t, c);
    if 0 <= i < BUCKETS {
        let b = t.buckets[i];
        let r = t.replacements[i];
        assert(bucket_ok(t.local, i, b, r));
        assert(ids_differ(b));
        if let TableCall::Seen(contact) = c {
            let e = Entry { contact, failures: 0 };
            if has_id(b, id) {
                let p = place(b, id);
                lemma_fails_remove(b, p, id);
                lemma_fails_remove(b, p, x);
                lemma_fails_push(b.remove(p), e, x);
            } else if b.len() < K && diverse(b, contact.addr.ip) {
                lemma_fails_push(b, e, x);
            }
        } else if has_id(b, id) {
            let p = place(b, id);
            assert(b[p].contact.id == id);
            if c is Replaced || failed(t, id).1 {
                lemma_fails_remove(b, p, x);
                let b1 = b.remove(p);
                assert forall|j: int, k: int| 0 <= j < b1.len() && 0 <= k < r.len() implies #[trigger] b1[j].contact.id
                    != #[trigger] r[k].id by {
                    let j1 = if j < p {
                        j
                    } else {
                        j + 1
                    };
                    assert(b[j1].contact.id != r[k].id);
                }
                lemma_fails_promoted(b1, r, x);
                if let Some(d) = bucket_promotes(b1, r).2 {
                    let k = r.index_of(d);
                    assert(b[p].contact.id != r[k].id);
                    if d.id == x {
                        assert(!has_id(b, x)) by {
                            assert forall|j: int| 0 <= j < b.len() implies #[trigger] b[j].contact.id
                                != x by {
                                assert(b[j].contact.id != r[k].id);
                            }
                        }
                    }
                }
            } else {
                assert(b[p].failures < EVICTION_THRESHOLD);
                lemma_fails_update(
                    b,
                    p,
                    Entry { failures: (b[p].failures + 1) as u8, ..b[p] },
                    x,
                );
            }
        }
        assert(bucket_of(t.local, x) != i ==> counted(w, x) == counted(t, x));
    }
}

proof fn lemma_misses_are_counted(t: TableView, calls: Seq<TableCall>, id: NodeId)
    requires
        table_ok(t),
        counted(t, id) is None,
    ensures
        table_ok(after_calls(t, calls)),
        after_calls(t, calls).local == t.local,
        holds_id(after_calls(t, calls), id) ==> counted(after_calls(t, calls), id) == Some(
            misses(t, calls, id) as u8,
        ) && misses(t, calls, id) < EVICTION_THRESHOLD,
    decreases calls.len(),
{
    if calls.len() > 0 {
        let before = after_calls(t, calls.drop_last());
        lemma_misses_are_counted(t, calls.drop_last(), id);
        lemma_call_keeps_order(before, calls.last());
        lemma_counted(before, calls.last(), id);
        let after = after_calls(t, calls);
        let i = bucket_of(t.local, id);
        if holds_id(after, id) {
            assert(bucket_ok(after.local, i, after.buckets[i], after.replacements[i]));
            let p = place(after.buckets[i], id);
            assert(after.buckets[i][p].contact.id == id);
            assert(after.buckets[i][p].failures < EVICTION_THRESHOLD);
        }
    }
}

proof fn lemma_len_below(t: TableView, i: int, b: Seq<Entry>, r: Seq<Contact>, n: nat)
    requires
        t.buckets.len() == BUCKETS,
        0 <= i < BUCKETS,
        n <= BUCKETS,
    ensures
        contacts_below(with_bucket(t, i, b, r), n).len() == contacts_below(t, n).len() + (if i < n {
            b.len() - t.buckets[i].len()
        } else {
            0
        }),
        contacts_of(b) == contacts_of(t.buckets[i]) ==> contacts_below(with_bucket(t, i, b, r), n)
            == contacts_below(t, n),
    decreases n,
{
    if n > 0 {
        lemma_len_below(t, i, b, r, (n - 1) as nat);
    }
}

/// A contact is evicted exactly by the failure that makes it as many as the
/// threshold since it came in or was seen last. It is then gone, every other
/// contact stays, and at most one that waited takes its slot. A failure that does
/// not evict leaves the contacts as they are.
pub proof fn law_eviction_over_a_history(local: NodeId, calls: Seq<TableCall>, id: NodeId)
    ensures
        ({
            let t = after_calls(empty_table(local), calls);
            let (after, evicted) = failed(t, id);
            let k = misses(empty_table(local), calls.push(TableCall::Failed(id)), id);
            let joined = replaced(t, id).1;
            &&& evicted <==> holds_id(t, id) && k == EVICTION_THRESHOLD
            &&& evicted ==> {
                &&& !holds_id(after, id)
                &&& forall|x: NodeId|
                    x != id ==> (#[trigger] holds_id(after, x) <==> holds_id(t, x) || (joined matches Some(
                        c,
                    ) && c.id == x))
                &&& all_contacts(after).len() + 1 == all_contacts(t).len() + (if joined is Some {
                    1nat
                } else {
                    0
                })
            }
            &&& !evicted ==> {
                &&& forall|x: NodeId| #[trigger] holds_id(after, x) <==> holds_id(t, x)
                &&& all_contacts(after) == all_contacts(t)
            }
        }),
{
    let t0 = empty_table(local);
    let t = after_calls(t0, calls);
    let (after, evicted) = failed(t, id);
    let more = calls.push(TableCall::Failed(id));
    assert(more.drop_last() =~= calls);
    assert(table_ok(t0)) by {
        assert forall|i: int| 0 <= i < BUCKETS implies bucket_ok(
            local,
            i,
            #[trigger] t0.buckets[i],
            t0.replacements[i],
        ) by {}
    }
    let i = bucket_of(local, id);
    assert(counted(t0, id) is None);
    lemma_misses_are_counted(t0, calls, id);
    if holds_id(t, id) {
        let b = t.buckets[i];
        let r = t.replacements[i];
        assert(bucket_ok(t.local, i, b, r));
        assert(ids_differ(b));
        let p = place(b, id);
        assert(b[p].contact.id == id);
        law_sustained_failures_evict(t, id);
        assert(misses(t0, more, id) == misses(t0, calls, id) + 1);
        if evicted {
            let b1 = b.remove(p);
            lemma_fails_remove(b, p, id);
            assert forall|j: int, k: int| 0 <= j < b1.len() && 0 <= k < r.len() implies #[trigger] b1[j].contact.id
                != #[trigger] r[k].id by {
                let j1 = if j < p {
                    j
                } else {
                    j + 1
                };
                assert(b[j1].contact.id != r[k].id);
            }
            let (b2, r2, joined) = bucket_promotes(b1, r);
            lemma_fails_promoted(b1, r, id);
            lemma_len_below(t, i, b2, r2, BUCKETS as nat);
            if let Some(c) = joined {
                let k = r.index_of(c);
                assert(bucket_of(t.local, r[k].id) == i);
            }
            assert forall|x: NodeId| x != id implies (#[trigger] holds_id(after, x) <==> holds_id(
                t,
                x,
            ) || (joined matches Some(c) && c.id == x)) by {
                lemma_fails_remove(b, p, x);
                lemma_fails_promoted(b1, r, x);
            }
        } else {
            let e = Entry { failures: (b[p].failures + 1) as u8, ..b[p] };
            let b2 = b.update(p, e);
            assert(contacts_of(b2) =~= contacts_of(b));
            lemma_len_below(t, i, b2, r, BUCKETS as nat);
            assert forall|x: NodeId| #[trigger] holds_id(after, x) <==> holds_id(t, x) by {
                lemma_fails_update(b, p, e, x);
            }
        }
    }
}

/// Two contacts of a network use up its share of a bucket; with fewer of them there is
/// room for another.
pub proof fn law_two_of_a_network_use_up_its_share(b: Seq<Entry>, ip: IpAddr)
    requires
        network_of(ip) is Some,
    ensures
        diverse(b, ip) <==> !exists|j: int, k: int|
            0 <= j < k < b.len() && network_of((#[trigger] b[j]).contact.addr.ip) == network_of(ip)
                && network_of((#[trigger] b[k]).contact.addr.ip) == network_of(ip),
    decreases b.len(),
{
    lemma_neighbours(b, ip);
}

proof fn lemma_neighbours(b: Seq<Entry>, ip: IpAddr)
    ensures
        neighbours(b, ip) >= 1 <==> exists|j: int|
            0 <= j < b.len() && network_of((#[trigger] b[j]).contact.addr.ip) == network_of(ip),
        neighbours(b, ip) >= 2 <==> exists|j: int, k: int|
            0 <= j < k < b.len() && network_of((#[trigger] b[j]).contact.addr.ip) == network_of(ip)
                && network_of((#[trigger] b[k]).contact.addr.ip) == network_of(ip),
    decreases b.len(),
{
    if b.len() > 0 {
        let a = b.drop_last();
        let n = b.len() - 1;
        lemma_neighbours(a, ip);
        if neighbours(a, ip) >= 1 {
            let j = choose|j: int|
                0 <= j < a.len() && network_of((#[trigger] a[j]).contact.addr.ip) == network_of(ip);
            assert(b[j] == a[j]);
            assert(b[n] == b.last());
        }
        if neighbours(a, ip) >= 2 {
            let (j, k) = choose|j: int, k: int|
                0 <= j < k < a.len() && network_of((#[trigger] a[j]).contact.addr.ip) == network_of(
                    ip,
                ) && network_of((#[trigger] a[k]).contact.addr.ip) == network_of(ip);
            assert(b[j] == a[j] && b[k] == a[k]);
        }
        if exists|j: int, k: int|
            0 <= j < k < b.len() && network_of((#[trigger] b[j]).contact.addr.ip) == network_of(ip)
                && network_of((#[trigger] b[k]).contact.addr.ip) == network_of(ip) {
            let (j, k) = choose|j: int, k: int|
                0 <= j < k < b.len() && network_of((#[trigger] b[j]).contact.addr.ip) == network_of(
                    ip,
                ) && network_of((#[trigger] b[k]).contact.addr.ip) == network_of(ip);
            assert(a[j] == b[j]);
            if k < n {
                assert(a[k] == b[k]);
            }
        }
        if exists|j: int|
            0 <= j < b.len() && network_of((#[trigger] b[j]).contact.addr.ip) == network_of(ip) {
            let j = choose|j: int|
                0 <= j < b.len() && network_of((#[trigger] b[j]).contact.addr.ip) == network_of(ip);
            if j < n {
                assert(a[j] == b[j]);
            }
        }
        if neighbours(b, ip) >= 1 && neighbours(a, ip) == 0 {
            assert(network_of(b[n].contact.addr.ip) == network_of(ip));
        }
    }
}

/// A contact that is new to a bucket with room for it gets in, and every contact that was
/// there stays.
pub proof fn law_room_is_given(t: TableView, c: Contact)
    requires
        table_ok(t),
        c.id != t.local,
        !holds_id(t, c.id),
        t.buckets[bucket_of(t.local, c.id)].len() < K,
        diverse(t.buckets[bucket_of(t.local, c.id)], c.addr.ip),
    ensures
        bucket_of(t.local, c.id) < BUCKETS,
        ({
            let i = bucket_of(t.local, c.id);
            let (after, admission) = admitted(t, c);
            &&& admission == Admission::Inserted
            &&& after.buckets[i].last() == Entry { contact: c, failures: 0 }
            &&& holds_id(after, c.id)
            &&& forall|j: int|
                0 <= j < t.buckets[i].len() ==> after.buckets[i][j] == #[trigger] t.buckets[i][j]
            &&& after.buckets[i].len() == t.buckets[i].len() + 1
        }),
{
    let i = bucket_of(t.local, c.id);
    lemma_only_self_has_no_bucket(t.local, c.id);
    let b = admitted(t, c).0.buckets[i];
    assert(b[b.len() - 1].contact.id == c.id);
}

proof fn lemma_only_self_has_no_bucket(local: NodeId, id: NodeId)
    ensures
        bucket_of(local, id) >= BUCKETS ==> id == local,
{
    let x = xor(local@, id@);
    crate::id::lemma_id_len(local);
    crate::id::lemma_id_len(id);
    if bucket_of(local, id) >= BUCKETS {
        lemma_all_zero_bits(x);
        assert forall|i: int| 0 <= i < 32 implies local@[i] == id@[i] by {
            let (a, b) = (local@[i], id@[i]);
            assert(x[i] == a ^ b);
            assert(a ^ b == 0 ==> a == b) by (bit_vector);
        }
        assert(local@ =~= id@);
        crate::id::lemma_id_from_view(local, id);
    }
}

proof fn lemma_all_zero_bits(s: Seq<u8>)
    ensures
        zero_bits(s) <= 8 * s.len(),
        zero_bits(s) == 8 * s.len() ==> forall|i: int| 0 <= i < s.len() ==> s[i] == 0,
    decreases s.len(),
{
    if s.len() > 0 {
        lemma_all_zero_bits(s.skip(1));
        assert forall|i: int| zero_bits(s) == 8 * s.len() && 0 <= i < s.len() implies s[i] == 0 by {
            if i > 0 {
                assert(s[i] == s.skip(1)[i - 1]);
            }
        }
    }
}

/// What a table is told of one contact leaves every bucket but that contact's as it was.
pub proof fn law_other_buckets_stay(t: TableView, c: Contact, j: int)
    requires
        table_ok(t),
        0 <= j < BUCKETS,
        j != bucket_of(t.local, c.id),
    ensures
        admitted(t, c).0.buckets[j] == t.buckets[j],
        admitted(t, c).0.replacements[j] == t.replacements[j],
        failed(t, c.id).0.buckets[j] == t.buckets[j],
        failed(t, c.id).0.replacements[j] == t.replacements[j],
        replaced(t, c.id).0.buckets[j] == t.buckets[j],
        replaced(t, c.id).0.replacements[j] == t.replacements[j],
        admitted(t, c).0.local == t.local,
        failed(t, c.id).0.local == t.local,
        replaced(t, c.id).0.local == t.local,
{
}

/// A newcomer to a full bucket waits while the contact seen longest ago is probed. Where
/// that one does not respond, it leaves and the newcomer takes its place, unless the
/// newcomer's network has its share.
pub proof fn law_newcomer_takes_the_place_of_the_unresponsive(t: TableView, c: Contact)
    requires
        table_ok(t),
        c.id != t.local,
        !holds_id(t, c.id),
        t.buckets[bucket_of(t.local, c.id)].len() == K,
        diverse(t.buckets[bucket_of(t.local, c.id)].skip(1), c.addr.ip),
    ensures
        ({
            let i = bucket_of(t.local, c.id);
            let oldest = t.buckets[i][0].contact;
            let (waiting, admission) = admitted(t, c);
            let (after, promoted) = replaced(waiting, oldest.id);
            &&& admission == Admission::Probe(oldest)
            &&& promoted == Some(c)
            &&& after.buckets[i] == t.buckets[i].skip(1).push(Entry { contact: c, failures: 0 })
        }),
{
    let i = bucket_of(t.local, c.id);
    lemma_only_self_has_no_bucket(t.local, c.id);
    assert(bucket_ok(t.local, i, t.buckets[i], t.replacements[i]));
    let b = t.buckets[i];
    let oldest = b[0].contact;
    let waiting = admitted(t, c).0;
    assert(bucket_of(t.local, oldest.id) == i);
    assert(waiting.buckets[i] == b);
    assert(has_id(b, oldest.id));
    let p = place(b, oldest.id);
    if p > 0 {
        assert(b[0].contact.id != b[p].contact.id);
    }
    assert(b.remove(p) =~= b.skip(1));
    assert(waiting.replacements[i].last() == c);
}

/// A refreshed contact goes to the end of its bucket; every other contact keeps its
/// failures.
pub proof fn law_refresh_keeps_the_others(t: TableView, c: Contact, j: int)
    requires
        table_ok(t),
        holds_id(t, c.id),
        0 <= j < t.buckets[bucket_of(t.local, c.id)].len(),
        t.buckets[bucket_of(t.local, c.id)][j].contact.id != c.id,
    ensures
        admitted(t, c).0.buckets[bucket_of(t.local, c.id)].contains(
            t.buckets[bucket_of(t.local, c.id)][j],
        ),
{
    let i = bucket_of(t.local, c.id);
    let b = t.buckets[i];
    let p = place(b, c.id);
    let after = admitted(t, c).0.buckets[i];
    assert(after[if j < p {
        j
    } else {
        j - 1
    }] == b[j]);
}

/// Whoever takes the place of a contact that left is the one that came last among those
/// waiting whose network has not its share; those it passed over wait no longer.
pub proof fn law_promotion_is_diverse(t: TableView, id: NodeId)
    requires
        table_ok(t),
        holds_id(t, id),
    ensures
        ({
            let i = bucket_of(t.local, id);
            let (after, promoted) = replaced(t, id);
            let rest = t.buckets[i].remove(place(t.buckets[i], id));
            match promoted {
                Some(c) => {
                    &&& t.replacements[i].contains(c)
                    &&& diverse(rest, c.addr.ip)
                    &&& after.buckets[i] == rest.push(Entry { contact: c, failures: 0 })
                    &&& exists|k: int|
                        0 <= k < t.replacements[i].len() && (#[trigger] t.replacements[i][k]) == c
                            && forall|j: int|
                            k < j < t.replacements[i].len() ==> !diverse(
                                rest,
                                (#[trigger] t.replacements[i][j]).addr.ip,
                            )
                },
                None => {
                    &&& after.buckets[i] == rest
                    &&& forall|j: int|
                        0 <= j < t.replacements[i].len() ==> !diverse(
                            rest,
                            (#[trigger] t.replacements[i][j]).addr.ip,
                        )
                },
            }
        }),
{
    let i = bucket_of(t.local, id);
    lemma_promotes_the_last(
        t.buckets[i].remove(place(t.buckets[i], id)),
        t.replacements[i],
    );
}

proof fn lemma_promotes_the_last(b: Seq<Entry>, r: Seq<Contact>)
    ensures
        match bucket_promotes(b, r).2 {
            Some(c) => {
                &&& diverse(b, c.addr.ip)
                &&& bucket_promotes(b, r).0 == b.push(Entry { contact: c, failures: 0 })
                &&& exists|k: int|
                    0 <= k < r.len() && (#[trigger] r[k]) == c && forall|j: int|
                        k < j < r.len() ==> !diverse(b, (#[trigger] r[j]).addr.ip)
            },
            None => {
                &&& bucket_promotes(b, r).0 == b
                &&& forall|j: int| 0 <= j < r.len() ==> !diverse(b, (#[trigger] r[j]).addr.ip)
            },
        },
    decreases r.len(),
{
    if r.len() > 0 {
        let n = r.len() - 1;
        let rest = r.drop_last();
        if diverse(b, r.last().addr.ip) {
            assert(r[n] == r.last());
        } else {
            lemma_promotes_the_last(b, rest);
            if bucket_promotes(b, rest).2 is Some {
                let c = bucket_promotes(b, rest).2->Some_0;
                let k = choose|k: int|
                    0 <= k < rest.len() && (#[trigger] rest[k]) == c && forall|j: int|
                        k < j < rest.len() ==> !diverse(b, (#[trigger] rest[j]).addr.ip);
                assert(r[k] == c);
                assert forall|j: int| k < j < r.len() implies !diverse(
                    b,
                    (#[trigger] r[j]).addr.ip,
                ) by {
                    if j < n {
                        assert(rest[j] == r[j]);
                    }
                }
            } else {
                assert forall|j: int| 0 <= j < r.len() implies !diverse(
                    b,
                    (#[trigger] r[j]).addr.ip,
                ) by {
                    if j < n {
                        assert(rest[j] == r[j]);
                    }
                }
            }
        }
    }
}

} // verus!
