//! Authenticated, bounded provider records.
//!
//! This is deliberately separate from any I/O: callers supply the current
//! protocol time and the observed source endpoint when admitting a record.
use crate::addr::SocketAddr;
use crate::bytes::{array_of, lemma_array_of, part, same_array, to_array};
use crate::crypto::{
    blake3_digest, ed25519_is_key, ed25519_public, ed25519_signature, ed25519_valid, hash,
    is_public_key, signature_is_valid, CryptoError, Keypair,
};
use crate::id::{id_of, lemma_id_len, lemma_id_of, NodeId};
use crate::lists::{
    first, found, kept, lemma_first, lemma_first_at, lemma_first_none, lemma_kept,
    lemma_push_contains, lemma_views_push, lemma_views_update, views,
};
use crate::routing::Contact;
use crate::wire::{
    le_bytes, lemma_raw_roundtrip, lemma_uint_roundtrip, read_end, read_raw, read_uint,
    u64_to_le, varint, Decoder, Encoder, WireError,
};
use vstd::prelude::*;

verus! {

/// A record's requested lifetime may not exceed one hour.
pub const MAX_RECORD_LIFETIME_MS: u64 = 3_600_000;

/// Bound on the number of topics an untrusted store may retain.
pub const MAX_STORED_TOPICS: usize = 4_096;

/// Bound on the number of providers held for one topic.
pub const MAX_RECORDS_PER_TOPIC: usize = 20;

/// Mixed into the signed bytes, so the signature of a record is one of nothing
/// else: `warren:dht:provider-record:v1`.
pub const DOMAIN: [u8; 29] = [
    119, 97, 114, 114, 101, 110, 58, 100, 104, 116, 58, 112, 114, 111, 118, 105, 100, 101, 114, 45,
    114, 101, 99, 111, 114, 100, 58, 118, 49,
];

/// An opaque write capability issued by the responsible store.
///
/// A record binds it cryptographically, so it cannot be transplanted to a
/// different topic, owner, sequence, or expiry.
#[derive(Clone, Copy, Debug)]
pub struct WriteCapability {
    bytes: [u8; 32],
}

impl View for WriteCapability {
    type V = Seq<u8>;

    closed spec fn view(&self) -> Seq<u8> {
        self.bytes@
    }
}

impl PartialEq for WriteCapability {
    fn eq(&self, other: &Self) -> (r: bool) {
        same_array(&self.bytes, &other.bytes)
    }
}

impl vstd::std_specs::cmp::PartialEqSpecImpl for WriteCapability {
    open spec fn obeys_eq_spec() -> bool {
        true
    }

    open spec fn eq_spec(&self, other: &Self) -> bool {
        *self == *other
    }
}

impl Eq for WriteCapability {

}

/// The capability with the given bytes.
pub closed spec fn capability_of(bytes: Seq<u8>) -> WriteCapability {
    WriteCapability { bytes: array_of::<32>(bytes) }
}

impl WriteCapability {
    /// The capability with the given bytes.
    pub fn from_bytes(bytes: [u8; 32]) -> (r: Self)
        ensures
            r@ == bytes@,
            r == capability_of(bytes@),
    {
        proof {
            lemma_array_of(bytes);
        }
        WriteCapability { bytes }
    }

    /// Its bytes.
    pub fn to_bytes(self) -> (r: [u8; 32])
        ensures
            r@ == self@,
    {
        self.bytes
    }
}

/// A capability is the one with its bytes.
proof fn lemma_capability_of(c: WriteCapability)
    ensures
        capability_of(c@) == c,
        c@.len() == 32,
{
    lemma_array_of(c.bytes);
}

/// What a capability allows.
#[derive(Clone, Copy)]
pub struct CapabilityGrant {
    /// The capability.
    pub capability: WriteCapability,
    /// The topic it is for.
    pub topic: NodeId,
    /// The owner it is for.
    pub owner: NodeId,
    /// When it ends.
    pub expires_at: u64,
}

/// A [`CapabilityIssuer`] as a mathematical value.
#[verifier::ext_equal]
pub struct IssuerView {
    /// The signer's secret.
    pub secret: Seq<u8>,
    /// The number of the next capability.
    pub next_nonce: u64,
    /// The capabilities in force.
    pub grants: Seq<CapabilityGrant>,
}

/// The grant of a capability.
pub open spec fn of_capability(c: WriteCapability) -> spec_fn(CapabilityGrant) -> bool {
    |g: CapabilityGrant| g.capability == c
}

/// The grants that have not ended.
pub open spec fn in_force(now: u64) -> spec_fn(CapabilityGrant) -> bool {
    |g: CapabilityGrant| g.expires_at > now
}

/// A capability granted.
pub open spec fn granted(s: Seq<CapabilityGrant>, g: CapabilityGrant) -> Seq<CapabilityGrant> {
    match first(s, of_capability(g.capability)) {
        Some(k) => s.update(k, g),
        None => s.push(g),
    }
}

/// What is signed for a capability.
pub open spec fn grant_bytes(topic: NodeId, owner: NodeId, nonce: u64) -> Seq<u8> {
    topic@ + owner@ + le_bytes(nonce as nat, 8)
}

/// Whether a capability is in force for a topic, an owner and a lease.
pub open spec fn authorized(
    s: Seq<CapabilityGrant>,
    c: WriteCapability,
    topic: NodeId,
    owner: NodeId,
    record_expiry: u64,
    now: u64,
) -> bool {
    match first(s, of_capability(c)) {
        Some(k) => s[k].topic == topic && s[k].owner == owner && s[k].expires_at >= record_expiry
            && s[k].expires_at > now,
        None => false,
    }
}

/// Recipient-owned authority for minting scoped write capabilities.
///
/// Capabilities are unpredictable signature output and are retained only by
/// their issuing store. They are valid for exactly one topic and owner and
/// cannot outlive the record lease.
pub struct CapabilityIssuer {
    signer: Keypair,
    next_nonce: u64,
    grants: Vec<CapabilityGrant>,
}

impl View for CapabilityIssuer {
    type V = IssuerView;

    closed spec fn view(&self) -> IssuerView {
        IssuerView {
            secret: self.signer.secret(),
            next_nonce: self.next_nonce,
            grants: self.grants@,
        }
    }
}

fn find_grant(s: &Vec<CapabilityGrant>, c: &WriteCapability) -> (r: Option<usize>)
    ensures
        found(s@, of_capability(*c), r),
{
    let mut i: usize = 0;
    while i < s.len()
        invariant
            i <= s.len(),
            forall|j: int| 0 <= j < i ==> !of_capability(*c)(#[trigger] s@[j]),
        decreases s.len() - i,
    {
        if s[i].capability == *c {
            proof {
                lemma_first_at(s@, of_capability(*c), i as int);
            }
            return Some(i);
        }
        i += 1;
    }
    proof {
        lemma_first_none(s@, of_capability(*c));
    }
    None
}

impl CapabilityIssuer {
    /// An issuer that has granted nothing.
    pub fn new(signer: Keypair) -> (r: Self)
        ensures
            r@ == (IssuerView { secret: signer.secret(), next_nonce: 0, grants: Seq::empty() }),
    {
        CapabilityIssuer { signer, next_nonce: 0, grants: Vec::new() }
    }

    /// Mint a capability for one topic and owner: the front half of a signature
    /// over both and a number used once.
    pub fn issue(&mut self, topic: NodeId, owner: NodeId, expires_at: u64) -> (r: WriteCapability)
        ensures
            r@ == ed25519_signature(
                old(self)@.secret,
                grant_bytes(topic, owner, old(self)@.next_nonce),
            ).take(32),
            final(self)@ == (IssuerView {
                secret: old(self)@.secret,
                next_nonce: old(self)@.next_nonce.wrapping_add(1),
                grants: granted(
                    old(self)@.grants,
                    CapabilityGrant { capability: r, topic, owner, expires_at },
                ),
            }),
    {
        let nonce: u64 = self.next_nonce;
        self.next_nonce = nonce.wrapping_add(1);
        let mut enc = Encoder::new();
        enc.raw(topic.as_bytes());
        enc.raw(owner.as_bytes());
        let le: [u8; 8] = u64_to_le(nonce);
        enc.raw(&le);
        let material: Vec<u8> = enc.into_vec();
        assert(material@ =~= grant_bytes(topic, owner, nonce));
        let signature: [u8; 64] = self.signer.sign(material.as_slice());
        let capability = WriteCapability::from_bytes(to_array(part(&signature, 0, 32)));
        assert(capability@ =~= signature@.take(32));
        self.grant(capability, topic, owner, expires_at);
        capability
    }

    /// Put a capability in force for one topic and owner.
    pub fn grant(
        &mut self,
        capability: WriteCapability,
        topic: NodeId,
        owner: NodeId,
        expires_at: u64,
    )
        ensures
            final(self)@ == (IssuerView {
                grants: granted(
                    old(self)@.grants,
                    CapabilityGrant { capability, topic, owner, expires_at },
                ),
                ..old(self)@
            }),
    {
        let g = CapabilityGrant { capability, topic, owner, expires_at };
        match find_grant(&self.grants, &capability) {
            Some(k) => {
                self.grants.set(k, g);
            },
            None => {
                self.grants.push(g);
            },
        }
    }

    /// Whether a capability is in force for a topic, an owner and a lease.
    pub fn authorizes(
        &self,
        capability: WriteCapability,
        topic: NodeId,
        owner: NodeId,
        record_expiry: u64,
        now: u64,
    ) -> (r: bool)
        ensures
            r == authorized(self@.grants, capability, topic, owner, record_expiry, now),
    {
        match find_grant(&self.grants, &capability) {
            Some(k) => {
                let g: CapabilityGrant = self.grants[k];
                g.topic == topic && g.owner == owner && g.expires_at >= record_expiry
                    && g.expires_at > now
            },
            None => false,
        }
    }

    /// Forget the capabilities that have ended.
    pub fn prune(&mut self, now: u64)
        ensures
            final(self)@ == (IssuerView {
                grants: kept(old(self)@.grants, in_force(now)),
                ..old(self)@
            }),
    {
        let ghost s = self.grants@;
        let mut live: Vec<CapabilityGrant> = Vec::new();
        let mut i: usize = 0;
        while i < self.grants.len()
            invariant
                i <= self.grants.len(),
                self.grants@ == s,
                self.signer == old(self).signer,
                self.next_nonce == old(self).next_nonce,
                live@ == kept(s.take(i as int), in_force(now)),
            decreases self.grants.len() - i,
        {
            proof {
                assert(s.take(i + 1).drop_last() =~= s.take(i as int));
                assert(s.take(i + 1).last() == s[i as int]);
            }
            if self.grants[i].expires_at > now {
                live.push(self.grants[i]);
            }
            i += 1;
        }
        assert(s.take(s.len() as int) =~= s);
        self.grants = live;
    }
}

/// Why a provider record was rejected.
#[derive(Debug, Clone, Copy, PartialEq, Eq, Structural)]
pub enum RecordError {
    /// The byte codec rejected the buffer.
    Wire(WireError),
    /// The owner's key or the signature was rejected.
    Crypto(CryptoError),
    /// The record is expired or exceeds the maximum lifetime.
    InvalidExpiry,
    /// The record's sequence is stale.
    StaleSequence,
    /// The store is full.
    StoreFull,
    /// The record lacks a valid scoped write capability.
    UnauthorizedCapability,
}

/// A signed, replay-resistant provider announcement.
#[derive(Clone, Debug, PartialEq, Eq)]
pub struct SignedAnnouncement {
    topic: NodeId,
    owner: [u8; 32],
    sequence: u64,
    expires_at: u64,
    capability: WriteCapability,
    signature: [u8; 64],
}

/// A [`SignedAnnouncement`] as a mathematical value.
#[verifier::ext_equal]
pub struct RecordView {
    /// The topic announced under.
    pub topic: NodeId,
    /// The announcer's public key.
    pub owner: Seq<u8>,
    /// The place among the announcer's records.
    pub sequence: u64,
    /// When the record ends.
    pub expires_at: u64,
    /// The capability the record was written with.
    pub capability: WriteCapability,
    /// The announcer's signature.
    pub signature: Seq<u8>,
}

impl View for SignedAnnouncement {
    type V = RecordView;

    closed spec fn view(&self) -> RecordView {
        RecordView {
            topic: self.topic,
            owner: self.owner@,
            sequence: self.sequence,
            expires_at: self.expires_at,
            capability: self.capability,
            signature: self.signature@,
        }
    }
}

/// What the signature of a record is over.
pub open spec fn signing_bytes_of(v: RecordView) -> Seq<u8> {
    DOMAIN@ + v.topic@ + v.owner + varint(v.sequence as nat) + varint(v.expires_at as nat)
        + v.capability@
}

/// A record as it is sent.
pub open spec fn record_bytes(v: RecordView) -> Seq<u8> {
    v.topic@ + v.owner + varint(v.sequence as nat) + varint(v.expires_at as nat) + v.capability@
        + v.signature
}

/// The last fields of a record read.
pub open spec fn read_tail(topic: NodeId, owner: Seq<u8>, s: Seq<u8>) -> Result<
    RecordView,
    WireError,
> {
    match read_uint(s) {
        Ok((sequence, s)) => match read_uint(s) {
            Ok((expires_at, s)) => match read_raw(s, 32) {
                Ok((capability, s)) => match read_raw(s, 64) {
                    Ok((signature, s)) => match read_end(s) {
                        Ok(_) => Ok(
                            RecordView {
                                topic,
                                owner,
                                sequence,
                                expires_at,
                                capability: capability_of(capability),
                                signature,
                            },
                        ),
                        Err(e) => Err(e),
                    },
                    Err(e) => Err(e),
                },
                Err(e) => Err(e),
            },
            Err(e) => Err(e),
        },
        Err(e) => Err(e),
    }
}

/// A record read.
pub open spec fn read_record(s: Seq<u8>) -> Result<RecordView, WireError> {
    match read_raw(s, 32) {
        Ok((topic, s)) => match read_raw(s, 32) {
            Ok((owner, s)) => read_tail(id_of(topic), owner, s),
            Err(e) => Err(e),
        },
        Err(e) => Err(e),
    }
}

/// Whether a record is in the receiver's time window.
pub open spec fn timely(expires_at: u64, now: u64) -> bool {
    now < expires_at <= now + MAX_RECORD_LIFETIME_MS
}

/// What is found of a record, given whether its owner is a key and whether that
/// key signed it.
pub open spec fn judged(expires_at: u64, now: u64, is_key: bool, is_signed: bool) -> Result<
    (),
    RecordError,
> {
    if !timely(expires_at, now) {
        Err(RecordError::InvalidExpiry)
    } else if !is_key {
        Err(RecordError::Crypto(CryptoError::InvalidPublicKey))
    } else if !is_signed {
        Err(RecordError::Crypto(CryptoError::InvalidSignature))
    } else {
        Ok(())
    }
}

/// What is found of a record.
pub open spec fn verified(v: RecordView, now: u64) -> Result<(), RecordError> {
    judged(
        v.expires_at,
        now,
        ed25519_is_key(v.owner),
        ed25519_valid(v.owner, signing_bytes_of(v), v.signature),
    )
}

/// What is found of a record, given whether its owner is a key and whether that
/// key signed it.
pub fn judge(expires_at: u64, now: u64, is_key: bool, is_signed: bool) -> (r: Result<
    (),
    RecordError,
>)
    ensures
        r == judged(expires_at, now, is_key, is_signed),
{
    if expires_at <= now || expires_at - now > MAX_RECORD_LIFETIME_MS {
        Err(RecordError::InvalidExpiry)
    } else if !is_key {
        Err(RecordError::Crypto(CryptoError::InvalidPublicKey))
    } else if !is_signed {
        Err(RecordError::Crypto(CryptoError::InvalidSignature))
    } else {
        Ok(())
    }
}

fn signing_bytes(
    topic: NodeId,
    owner: &[u8; 32],
    sequence: u64,
    expires_at: u64,
    capability: WriteCapability,
) -> (r: Vec<u8>)
    ensures
        forall|v: RecordView|
            v.topic == topic && v.owner == owner@ && v.sequence == sequence && v.expires_at
                == expires_at && v.capability == capability ==> r@ == #[trigger] signing_bytes_of(
                v,
            ),
{
    let mut enc = Encoder::new();
    enc.raw(&DOMAIN);
    enc.raw(topic.as_bytes());
    enc.raw(owner);
    enc.uint(sequence);
    enc.uint(expires_at);
    enc.raw(&capability.bytes);
    let r = enc.into_vec();
    assert(r@ =~= DOMAIN@ + topic@ + owner@ + varint(sequence as nat) + varint(expires_at as nat)
        + capability@);
    r
}

impl SignedAnnouncement {
    /// The record's topic, owner, sequence, expiry and capability, signed.
    pub fn sign(
        signer: &Keypair,
        topic: NodeId,
        sequence: u64,
        expires_at: u64,
        capability: WriteCapability,
    ) -> (r: Self)
        ensures
            r@.topic == topic,
            r@.owner == ed25519_public(signer.secret()),
            r@.sequence == sequence,
            r@.expires_at == expires_at,
            r@.capability == capability,
            r@.signature == ed25519_signature(signer.secret(), signing_bytes_of(r@)),
            forall|now: u64| timely(expires_at, now) ==> #[trigger] verified(r@, now) is Ok,
    {
        let owner: [u8; 32] = signer.public();
        let material: Vec<u8> = signing_bytes(topic, &owner, sequence, expires_at, capability);
        let signature: [u8; 64] = signer.sign(material.as_slice());
        let r = SignedAnnouncement { topic, owner, sequence, expires_at, capability, signature };
        assert(material@ == signing_bytes_of(r@));
        r
    }

    /// The topic announced under.
    pub fn topic(&self) -> (r: NodeId)
        ensures
            r == self@.topic,
    {
        self.topic
    }

    /// The id of the announcer: the hash of its key.
    pub fn owner_id(&self) -> (r: NodeId)
        ensures
            r == id_of(blake3_digest(self@.owner)),
    {
        NodeId::from_bytes(hash(&self.owner))
    }

    /// The place among the announcer's records.
    pub fn sequence(&self) -> (r: u64)
        ensures
            r == self@.sequence,
    {
        self.sequence
    }

    /// When the record ends.
    pub fn expires_at(&self) -> (r: u64)
        ensures
            r == self@.expires_at,
    {
        self.expires_at
    }

    /// The capability the record was written with.
    pub fn capability(&self) -> (r: WriteCapability)
        ensures
            r == self@.capability,
    {
        self.capability
    }

    /// Verify identity binding, signature, and the receiver's bounded time
    /// window. `now` must use the same epoch as the record's expiry.
    pub fn verify(&self, now: u64) -> (r: Result<(), RecordError>)
        ensures
            r == verified(self@, now),
    {
        let is_key: bool = is_public_key(&self.owner);
        let material: Vec<u8> = signing_bytes(
            self.topic,
            &self.owner,
            self.sequence,
            self.expires_at,
            self.capability,
        );
        assert(material@ == signing_bytes_of(self@));
        let is_signed: bool = signature_is_valid(
            &self.owner,
            material.as_slice(),
            &self.signature,
        );
        judge(self.expires_at, now, is_key, is_signed)
    }

    /// The record as it is sent.
    pub fn encode(&self) -> (r: Vec<u8>)
        ensures
            r@ == record_bytes(self@),
    {
        let mut enc = Encoder::new();
        enc.raw(self.topic.as_bytes());
        enc.raw(&self.owner);
        enc.uint(self.sequence);
        enc.uint(self.expires_at);
        enc.raw(&self.capability.bytes);
        enc.raw(&self.signature);
        let r = enc.into_vec();
        assert(r@ =~= record_bytes(self@));
        r
    }

    /// The record sent as `bytes`.
    pub fn decode(bytes: &[u8]) -> (r: Result<Self, RecordError>)
        ensures
            match read_record(bytes@) {
                Ok(v) => r is Ok && r->Ok_0@ == v,
                Err(e) => r == Err::<Self, RecordError>(RecordError::Wire(e)),
            },
    {
        let mut dec = Decoder::new(bytes);
        let topic: NodeId = match dec.array::<32>() {
            Ok(v) => NodeId::from_bytes(v),
            Err(e) => {
                return Err(RecordError::Wire(e));
            },
        };
        let owner: [u8; 32] = match dec.array::<32>() {
            Ok(v) => v,
            Err(e) => {
                return Err(RecordError::Wire(e));
            },
        };
        let sequence: u64 = match dec.uint() {
            Ok(v) => v,
            Err(e) => {
                return Err(RecordError::Wire(e));
            },
        };
        let expires_at: u64 = match dec.uint() {
            Ok(v) => v,
            Err(e) => {
                return Err(RecordError::Wire(e));
            },
        };
        let capability: WriteCapability = match dec.array::<32>() {
            Ok(v) => WriteCapability::from_bytes(v),
            Err(e) => {
                return Err(RecordError::Wire(e));
            },
        };
        let signature: [u8; 64] = match dec.array::<64>() {
            Ok(v) => v,
            Err(e) => {
                return Err(RecordError::Wire(e));
            },
        };
        match dec.finish() {
            Ok(_) => {},
            Err(e) => {
                return Err(RecordError::Wire(e));
            },
        }
        Ok(SignedAnnouncement { topic, owner, sequence, expires_at, capability, signature })
    }
}

/// A record is read back from its bytes.
pub proof fn law_record_roundtrip(v: RecordView)
    requires
        v.owner.len() == 32,
        v.signature.len() == 64,
    ensures
        read_record(record_bytes(v)) == Ok::<RecordView, WireError>(v),
{
    let s5 = v.signature + Seq::<u8>::empty();
    let s4 = v.capability@ + s5;
    let s3 = varint(v.expires_at as nat) + s4;
    let s2 = varint(v.sequence as nat) + s3;
    let s1 = v.owner + s2;
    assert(record_bytes(v) =~= v.topic@ + s1);
    lemma_id_len(v.topic);
    lemma_id_of(v.topic);
    lemma_capability_of(v.capability);
    lemma_raw_roundtrip(v.topic@, s1);
    lemma_raw_roundtrip(v.owner, s2);
    lemma_uint_roundtrip(v.sequence, s3);
    lemma_uint_roundtrip(v.expires_at, s4);
    lemma_raw_roundtrip(v.capability@, s5);
    lemma_raw_roundtrip(v.signature, Seq::<u8>::empty());
}

/// A record as the store holds it.
#[derive(Clone, Copy, Debug)]
pub struct StoredAnnouncement {
    /// The announcer, at the address its record came from.
    pub contact: Contact,
    /// The place among the announcer's records.
    pub sequence: u64,
    /// When the record ends.
    pub expires_at: u64,
}

/// The records of a topic.
#[derive(Debug)]
pub struct Shelf {
    topic: NodeId,
    records: Vec<StoredAnnouncement>,
}

/// A [`Shelf`] as a mathematical value.
#[verifier::ext_equal]
pub struct ShelfView {
    /// The topic.
    pub topic: NodeId,
    /// Its records.
    pub records: Seq<StoredAnnouncement>,
}

impl View for Shelf {
    type V = ShelfView;

    closed spec fn view(&self) -> ShelfView {
        ShelfView { topic: self.topic, records: self.records@ }
    }
}

/// The records of a topic.
pub open spec fn of_topic(topic: NodeId) -> spec_fn(ShelfView) -> bool {
    |s: ShelfView| s.topic == topic
}

/// The record of an owner.
pub open spec fn of_owner(owner: NodeId) -> spec_fn(StoredAnnouncement) -> bool {
    |r: StoredAnnouncement| r.contact.id == owner
}

/// The records that have not ended.
pub open spec fn current(now: u64) -> spec_fn(StoredAnnouncement) -> bool {
    |r: StoredAnnouncement| r.expires_at > now
}

/// A store without the records that have ended, and without the topics that are
/// then empty.
pub open spec fn pruned(s: Seq<ShelfView>, now: u64) -> Seq<ShelfView>
    decreases s.len(),
{
    if s.len() == 0 {
        Seq::empty()
    } else {
        let records = kept(s.last().records, current(now));
        if records.len() == 0 {
            pruned(s.drop_last(), now)
        } else {
            pruned(s.drop_last(), now).push(ShelfView { topic: s.last().topic, records })
        }
    }
}

/// A record put among those of its topic.
pub open spec fn shelved(s: Seq<StoredAnnouncement>, e: StoredAnnouncement) -> Result<
    Seq<StoredAnnouncement>,
    RecordError,
> {
    match first(s, of_owner(e.contact.id)) {
        Some(i) => if e.sequence <= s[i].sequence {
            Err(RecordError::StaleSequence)
        } else {
            Ok(s.update(i, e))
        },
        None => if s.len() >= MAX_RECORDS_PER_TOPIC {
            Err(RecordError::StoreFull)
        } else {
            Ok(s.push(e))
        },
    }
}

/// A record put in a store that holds no record that has ended.
pub open spec fn filed(s: Seq<ShelfView>, topic: NodeId, e: StoredAnnouncement) -> (
    Seq<ShelfView>,
    Result<(), RecordError>,
) {
    match first(s, of_topic(topic)) {
        Some(k) => match shelved(s[k].records, e) {
            Ok(records) => (s.update(k, ShelfView { topic: s[k].topic, records }), Ok(())),
            Err(err) => (s, Err(err)),
        },
        None => if s.len() >= MAX_STORED_TOPICS {
            (s, Err(RecordError::StoreFull))
        } else {
            (s.push(ShelfView { topic, records: seq![e] }), Ok(()))
        },
    }
}

/// The announcers of a topic.
pub open spec fn contacts_of_topic(s: Seq<ShelfView>, topic: NodeId) -> Seq<Contact> {
    match first(s, of_topic(topic)) {
        Some(k) => Seq::new(s[k].records.len(), |i: int| s[k].records[i].contact),
        None => Seq::empty(),
    }
}

/// A strictly bounded store, one record for each topic and owner.
#[derive(Debug)]
pub struct AnnouncementStore {
    shelves: Vec<Shelf>,
}

impl View for AnnouncementStore {
    type V = Seq<ShelfView>;

    closed spec fn view(&self) -> Seq<ShelfView> {
        views(self.shelves@)
    }
}

impl Default for AnnouncementStore {
    fn default() -> (r: Self)
        ensures
            r@ == Seq::<ShelfView>::empty(),
    {
        let r = AnnouncementStore { shelves: Vec::new() };
        assert(r@ =~= Seq::<ShelfView>::empty());
        r
    }
}

fn find_shelf(s: &Vec<Shelf>, topic: &NodeId) -> (r: Option<usize>)
    ensures
        found(views(s@), of_topic(*topic), r),
{
    let mut i: usize = 0;
    while i < s.len()
        invariant
            i <= s.len(),
            forall|j: int| 0 <= j < i ==> !of_topic(*topic)(#[trigger] views(s@)[j]),
        decreases s.len() - i,
    {
        assert(views(s@)[i as int] == s@[i as int]@);
        if s[i].topic == *topic {
            proof {
                lemma_first_at(views(s@), of_topic(*topic), i as int);
            }
            return Some(i);
        }
        i += 1;
    }
    proof {
        lemma_first_none(views(s@), of_topic(*topic));
    }
    None
}

fn find_owner(s: &Vec<StoredAnnouncement>, owner: &NodeId) -> (r: Option<usize>)
    ensures
        found(s@, of_owner(*owner), r),
{
    let mut i: usize = 0;
    while i < s.len()
        invariant
            i <= s.len(),
            forall|j: int| 0 <= j < i ==> !of_owner(*owner)(#[trigger] s@[j]),
        decreases s.len() - i,
    {
        if s[i].contact.id == *owner {
            proof {
                lemma_first_at(s@, of_owner(*owner), i as int);
            }
            return Some(i);
        }
        i += 1;
    }
    proof {
        lemma_first_none(s@, of_owner(*owner));
    }
    None
}

fn current_records(s: &Vec<StoredAnnouncement>, now: u64) -> (r: Vec<StoredAnnouncement>)
    ensures
        r@ == kept(s@, current(now)),
{
    let mut r: Vec<StoredAnnouncement> = Vec::new();
    let mut i: usize = 0;
    while i < s.len()
        invariant
            i <= s.len(),
            r@ == kept(s@.take(i as int), current(now)),
        decreases s.len() - i,
    {
        proof {
            assert(s@.take(i + 1).drop_last() =~= s@.take(i as int));
            assert(s@.take(i + 1).last() == s@[i as int]);
        }
        if s[i].expires_at > now {
            r.push(s[i]);
        }
        i += 1;
    }
    assert(s@.take(s@.len() as int) =~= s@);
    r
}

/// Put a record among those of its topic.
fn shelve(s: &mut Vec<StoredAnnouncement>, e: StoredAnnouncement) -> (r: Result<(), RecordError>)
    ensures
        match shelved(old(s)@, e) {
            Ok(records) => r == Ok::<(), RecordError>(()) && final(s)@ == records,
            Err(err) => r == Err::<(), RecordError>(err) && final(s)@ == old(s)@,
        },
{
    match find_owner(s, &e.contact.id) {
        Some(i) => {
            if e.sequence <= s[i].sequence {
                return Err(RecordError::StaleSequence);
            }
            s.set(i, e);
            Ok(())
        },
        None => {
            if s.len() >= MAX_RECORDS_PER_TOPIC {
                return Err(RecordError::StoreFull);
            }
            s.push(e);
            Ok(())
        },
    }
}

impl AnnouncementStore {
    /// Verify a record and its recipient-issued capability before storing it.
    pub fn accept_authorized(
        &mut self,
        issuer: &CapabilityIssuer,
        record: &SignedAnnouncement,
        source: SocketAddr,
        now: u64,
    ) -> (r: Result<(), RecordError>)
        ensures
            ({
                let v = record@;
                let owner = id_of(blake3_digest(v.owner));
                match verified(v, now) {
                    Ok(_) => if !authorized(
                        issuer@.grants,
                        v.capability,
                        v.topic,
                        owner,
                        v.expires_at,
                        now,
                    ) {
                        r == Err::<(), RecordError>(RecordError::UnauthorizedCapability)
                            && final(self)@ == old(self)@
                    } else {
                        (final(self)@, r) == filed(
                            pruned(old(self)@, now),
                            v.topic,
                            entry_of(v, owner, source),
                        )
                    },
                    Err(e) => r == Err::<(), RecordError>(e) && final(self)@ == old(self)@,
                }
            }),
    {
        match record.verify(now) {
            Ok(_) => {},
            Err(e) => {
                return Err(e);
            },
        }
        let owner: NodeId = record.owner_id();
        if !issuer.authorizes(record.capability, record.topic, owner, record.expires_at, now) {
            return Err(RecordError::UnauthorizedCapability);
        }
        self.store_verified(record.topic, record.entry(owner, source), now)
    }

    /// Verify and store a record. The endpoint is always taken from the packet
    /// source by the caller, never from signed peer-controlled bytes.
    pub fn accept(&mut self, record: &SignedAnnouncement, source: SocketAddr, now: u64) -> (r:
        Result<(), RecordError>)
        ensures
            match verified(record@, now) {
                Ok(_) => (final(self)@, r) == filed(
                    pruned(old(self)@, now),
                    record@.topic,
                    entry_of(record@, id_of(blake3_digest(record@.owner)), source),
                ),
                Err(e) => r == Err::<(), RecordError>(e) && final(self)@ == old(self)@,
            },
    {
        match record.verify(now) {
            Ok(_) => {},
            Err(e) => {
                return Err(e);
            },
        }
        let owner: NodeId = record.owner_id();
        self.store_verified(record.topic, record.entry(owner, source), now)
    }

    /// Store what a verified record says, once the records that have ended are
    /// gone.
    pub fn store_verified(&mut self, topic: NodeId, entry: StoredAnnouncement, now: u64) -> (r:
        Result<(), RecordError>)
        ensures
            (final(self)@, r) == filed(pruned(old(self)@, now), topic, entry),
    {
        self.prune(now);
        let ghost list = self.shelves@;
        match find_shelf(&self.shelves, &topic) {
            Some(k) => {
                assert(views(list)[k as int] == list[k as int]@);
                let r: Result<(), RecordError> = shelve(&mut self.shelves[k].records, entry);
                proof {
                    let shelf = self.shelves@[k as int];
                    assert(self.shelves@ =~= list.update(k as int, shelf));
                    lemma_views_update(list, k as int, shelf);
                    if r is Err {
                        assert(shelf@ == list[k as int]@);
                        assert(views(list).update(k as int, shelf@) =~= views(list));
                    }
                }
                r
            },
            None => {
                if self.shelves.len() >= MAX_STORED_TOPICS {
                    return Err(RecordError::StoreFull);
                }
                let mut records: Vec<StoredAnnouncement> = Vec::new();
                records.push(entry);
                assert(records@ =~= seq![entry]);
                let shelf = Shelf { topic, records };
                proof {
                    lemma_views_push(list, shelf);
                }
                self.shelves.push(shelf);
                Ok(())
            },
        }
    }

    /// The announcers of a topic.
    pub fn contacts(&self, topic: NodeId) -> (r: Vec<Contact>)
        ensures
            r@ == contacts_of_topic(self@, topic),
    {
        let mut r: Vec<Contact> = Vec::new();
        match find_shelf(&self.shelves, &topic) {
            Some(k) => {
                assert(views(self.shelves@)[k as int] == self.shelves@[k as int]@);
                let records = &self.shelves[k].records;
                let mut i: usize = 0;
                while i < records.len()
                    invariant
                        i <= records.len(),
                        r@.len() == i,
                        forall|j: int| 0 <= j < i ==> #[trigger] r@[j] == records@[j].contact,
                    decreases records.len() - i,
                {
                    r.push(records[i].contact);
                    i += 1;
                }
                assert(r@ =~= contacts_of_topic(self@, topic));
            },
            None => {
                assert(r@ =~= contacts_of_topic(self@, topic));
            },
        }
        r
    }

    /// Drop the records that have ended.
    pub fn prune(&mut self, now: u64)
        ensures
            final(self)@ == pruned(old(self)@, now),
    {
        let ghost s = self@;
        let mut live: Vec<Shelf> = Vec::new();
        let mut i: usize = 0;
        assert(views(live@) =~= pruned(s.take(0), now));
        while i < self.shelves.len()
            invariant
                i <= self.shelves.len(),
                self@ == s,
                views(live@) == pruned(s.take(i as int), now),
            decreases self.shelves.len() - i,
        {
            proof {
                assert(s.take(i + 1).drop_last() =~= s.take(i as int));
                assert(s.take(i + 1).last() == s[i as int]);
                assert(s[i as int] == self.shelves@[i as int]@);
            }
            let records: Vec<StoredAnnouncement> = current_records(&self.shelves[i].records, now);
            if records.len() > 0 {
                let shelf = Shelf { topic: self.shelves[i].topic, records };
                proof {
                    lemma_views_push(live@, shelf);
                }
                live.push(shelf);
            }
            i += 1;
        }
        assert(s.take(s.len() as int) =~= s);
        self.shelves = live;
    }
}

/// What is stored of a record.
pub open spec fn entry_of(v: RecordView, owner: NodeId, source: SocketAddr) -> StoredAnnouncement {
    StoredAnnouncement {
        contact: Contact { id: owner, addr: source },
        sequence: v.sequence,
        expires_at: v.expires_at,
    }
}

impl SignedAnnouncement {
    fn entry(&self, owner: NodeId, source: SocketAddr) -> (r: StoredAnnouncement)
        ensures
            r == entry_of(self@, owner, source),
    {
        StoredAnnouncement {
            contact: Contact::new(owner, source),
            sequence: self.sequence,
            expires_at: self.expires_at,
        }
    }
}

/// What holds of every store: it is within its caps, holds each topic once, and
/// under each at least one record and one of each owner.
pub open spec fn store_ok(s: Seq<ShelfView>) -> bool {
    &&& s.len() <= MAX_STORED_TOPICS
    &&& forall|i: int|
        0 <= i < s.len() ==> 0 < (#[trigger] s[i]).records.len() <= MAX_RECORDS_PER_TOPIC
    &&& forall|i: int, j: int|
        0 <= i < j < s.len() ==> (#[trigger] s[i]).topic != (#[trigger] s[j]).topic
    &&& forall|i: int| 0 <= i < s.len() ==> one_per_owner((#[trigger] s[i]).records)
}

/// No owner has two records.
pub open spec fn one_per_owner(s: Seq<StoredAnnouncement>) -> bool {
    forall|i: int, j: int|
        0 <= i < j < s.len() ==> (#[trigger] s[i]).contact.id != (#[trigger] s[j]).contact.id
}

proof fn lemma_kept_owners(s: Seq<StoredAnnouncement>, now: u64)
    requires
        one_per_owner(s),
    ensures
        one_per_owner(kept(s, current(now))),
        kept(s, current(now)).len() <= s.len(),
    decreases s.len(),
{
    if s.len() > 0 {
        let rest = s.drop_last();
        assert forall|i: int, j: int| 0 <= i < j < rest.len() implies (
        #[trigger] rest[i]).contact.id != (#[trigger] rest[j]).contact.id by {
            assert(rest[i] == s[i] && rest[j] == s[j]);
        }
        lemma_kept_owners(rest, now);
        lemma_kept(rest, current(now));
        let r = kept(s, current(now));
        let p = kept(rest, current(now));
        assert forall|i: int, j: int| 0 <= i < j < r.len() implies (#[trigger] r[i]).contact.id
            != (#[trigger] r[j]).contact.id by {
            assert(r[i] == p[i]);
            if j < p.len() {
                assert(r[j] == p[j]);
            } else {
                assert(p.contains(p[i]));
                let k = rest.index_of(p[i]);
                assert(s[k] == p[i]);
                assert(s[k].contact.id != s[s.len() - 1].contact.id);
            }
        }
    }
}

proof fn lemma_pruned_ok(s: Seq<ShelfView>, now: u64)
    requires
        store_ok(s),
    ensures
        store_ok(pruned(s, now)),
        pruned(s, now).len() <= s.len(),
        forall|x: ShelfView| #[trigger]
            pruned(s, now).contains(x) ==> exists|i: int|
                0 <= i < s.len() && (#[trigger] s[i]).topic == x.topic,
    decreases s.len(),
{
    let r = pruned(s, now);
    if s.len() > 0 {
        let rest = s.drop_last();
        assert(store_ok(rest)) by {
            assert forall|i: int| 0 <= i < rest.len() implies rest[i] == s[i] by {}
        }
        lemma_pruned_ok(rest, now);
        lemma_kept_owners(s.last().records, now);
        let p = pruned(rest, now);
        assert forall|x: ShelfView| #[trigger] r.contains(x) implies exists|i: int|
            0 <= i < s.len() && (#[trigger] s[i]).topic == x.topic by {
            if p.contains(x) {
                let i = choose|i: int| 0 <= i < rest.len() && (#[trigger] rest[i]).topic == x.topic;
                assert(s[i] == rest[i]);
            } else {
                lemma_push_contains(p, r.last(), x);
                assert(s[s.len() - 1].topic == x.topic);
            }
        }
        assert forall|i: int, j: int| 0 <= i < j < r.len() implies (#[trigger] r[i]).topic != (
        #[trigger] r[j]).topic by {
            assert(r[i] == p[i]);
            if j < p.len() {
                assert(r[j] == p[j]);
            } else {
                assert(p.contains(p[i]));
                let k = choose|k: int|
                    0 <= k < rest.len() && (#[trigger] rest[k]).topic == p[i].topic;
                assert(s[k] == rest[k]);
                assert(s[k].topic != s[s.len() - 1].topic);
            }
        }
        assert forall|i: int| 0 <= i < r.len() implies one_per_owner((#[trigger] r[i]).records) by {
            if i < p.len() {
                assert(r[i] == p[i]);
            }
        }
    }
}

proof fn lemma_shelved_ok(s: Seq<StoredAnnouncement>, e: StoredAnnouncement)
    requires
        one_per_owner(s),
        0 < s.len() <= MAX_RECORDS_PER_TOPIC,
    ensures
        shelved(s, e) matches Ok(r) ==> one_per_owner(r) && 0 < r.len() <= MAX_RECORDS_PER_TOPIC,
{
    lemma_first(s, of_owner(e.contact.id));
    if let Ok(r) = shelved(s, e) {
        assert forall|i: int, j: int| 0 <= i < j < r.len() implies (#[trigger] r[i]).contact.id
            != (#[trigger] r[j]).contact.id by {
            if j < s.len() {
                assert(s[i].contact.id != s[j].contact.id);
            }
        }
    }
}

/// Whatever is stored, a store stays within its caps: nothing an announcer
/// sends grows it past them.
pub proof fn law_store_stays_bounded(
    s: Seq<ShelfView>,
    topic: NodeId,
    e: StoredAnnouncement,
    now: u64,
)
    requires
        store_ok(s),
    ensures
        store_ok(pruned(s, now)),
        store_ok(filed(pruned(s, now), topic, e).0),
{
    lemma_pruned_ok(s, now);
    let p = pruned(s, now);
    let r = filed(p, topic, e).0;
    lemma_first(p, of_topic(topic));
    match first(p, of_topic(topic)) {
        Some(k) => {
            lemma_shelved_ok(p[k].records, e);
            assert forall|i: int| 0 <= i < r.len() implies (#[trigger] r[i]).topic
                == p[i].topic by {}
            assert forall|i: int, j: int| 0 <= i < j < r.len() implies (#[trigger] r[i]).topic
                != (#[trigger] r[j]).topic by {
                assert(p[i].topic != p[j].topic);
            }
        },
        None => {
            assert forall|i: int| 0 <= i < r.len() implies 0 < (#[trigger] r[i]).records.len()
                <= MAX_RECORDS_PER_TOPIC && one_per_owner(r[i].records) by {
                if i < p.len() {
                    assert(r[i] == p[i]);
                }
            }
            assert forall|i: int, j: int| 0 <= i < j < r.len() implies (#[trigger] r[i]).topic
                != (#[trigger] r[j]).topic by {
                assert(r[i] == p[i]);
                if j < p.len() {
                    assert(r[j] == p[j]);
                }
            }
        },
    }
}

/// A record that is stored is found under its topic, at the address it came
/// from, and while it lasts neither it nor an older one of the same owner is
/// taken again.
pub proof fn law_stored_once(
    s: Seq<ShelfView>,
    topic: NodeId,
    e: StoredAnnouncement,
    again: StoredAnnouncement,
)
    requires
        filed(s, topic, e).1 is Ok,
        again.contact.id == e.contact.id,
        again.sequence <= e.sequence,
    ensures
        contacts_of_topic(filed(s, topic, e).0, topic).contains(e.contact),
        filed(filed(s, topic, e).0, topic, again) == (
            filed(s, topic, e).0,
            Err::<(), RecordError>(RecordError::StaleSequence),
        ),
{
    lemma_first(s, of_topic(topic));
    let r = filed(s, topic, e).0;
    match first(s, of_topic(topic)) {
        Some(k) => {
            let old_records = s[k].records;
            let records = shelved(old_records, e)->Ok_0;
            lemma_first(old_records, of_owner(e.contact.id));
            assert forall|j: int| 0 <= j < k implies !of_topic(topic)(#[trigger] r[j]) by {
                assert(r[j] == s[j]);
            }
            lemma_first_at(r, of_topic(topic), k);
            assert(r[k].records == records);
            let i = match first(old_records, of_owner(e.contact.id)) {
                Some(i) => i,
                None => old_records.len() as int,
            };
            assert(records[i] == e);
            assert forall|j: int| 0 <= j < i implies !of_owner(e.contact.id)(
                #[trigger] records[j],
            ) by {
                assert(records[j] == old_records[j]);
            }
            lemma_first_at(records, of_owner(e.contact.id), i);
            assert(of_owner(again.contact.id) =~= of_owner(e.contact.id));
            assert(contacts_of_topic(r, topic)[i] == e.contact);
        },
        None => {
            let k = s.len() as int;
            assert forall|j: int| 0 <= j < k implies !of_topic(topic)(#[trigger] r[j]) by {
                assert(r[j] == s[j]);
            }
            lemma_first_at(r, of_topic(topic), k);
            assert(r[k].records == seq![e]);
            lemma_first_at(seq![e], of_owner(e.contact.id), 0);
            assert(of_owner(again.contact.id) =~= of_owner(e.contact.id));
            assert(contacts_of_topic(r, topic)[0] == e.contact);
        },
    }
}

/// A capability is in force for exactly the topic and owner it was granted to,
/// and for leases it outlasts.
pub proof fn law_capability_is_scoped(
    s: Seq<CapabilityGrant>,
    g: CapabilityGrant,
    topic: NodeId,
    owner: NodeId,
    record_expiry: u64,
    now: u64,
)
    ensures
        authorized(granted(s, g), g.capability, topic, owner, record_expiry, now) <==> topic
            == g.topic && owner == g.owner && record_expiry <= g.expires_at && now < g.expires_at,
{
    lemma_first(s, of_capability(g.capability));
    let r = granted(s, g);
    let k = match first(s, of_capability(g.capability)) {
        Some(k) => k,
        None => s.len() as int,
    };
    assert(r[k] == g);
    assert forall|j: int| 0 <= j < k implies !of_capability(g.capability)(#[trigger] r[j]) by {
        assert(r[j] == s[j]);
    }
    lemma_first_at(r, of_capability(g.capability), k);
}

/// A record's signature covers all it says: no other topic, owner, sequence, end or
/// capability has the same signed bytes.
pub proof fn law_signature_covers_the_record(a: RecordView, b: RecordView)
    requires
        a.owner.len() == 32,
        b.owner.len() == 32,
        signing_bytes_of(a) == signing_bytes_of(b),
    ensures
        a.topic == b.topic,
        a.owner == b.owner,
        a.sequence == b.sequence,
        a.expires_at == b.expires_at,
        a.capability == b.capability,
{
    let signature = Seq::new(64, |i: int| 0u8);
    let x = RecordView { signature, ..a };
    let y = RecordView { signature, ..b };
    let body = signing_bytes_of(a).skip(DOMAIN@.len() as int);
    assert(record_bytes(x) =~= body + signature);
    assert(record_bytes(y) =~= body + signature);
    law_record_roundtrip(x);
    law_record_roundtrip(y);
}

/// A record is good exactly from when it is made until it ends, for no longer than the
/// longest lifetime, and if its owner's key is one and has signed it.
pub proof fn law_record_is_good(v: RecordView, now: u64)
    ensures
        verified(v, now) is Ok <==> {
            &&& now < v.expires_at
            &&& v.expires_at - now <= MAX_RECORD_LIFETIME_MS
            &&& ed25519_is_key(v.owner)
            &&& ed25519_valid(v.owner, signing_bytes_of(v), v.signature)
        },
{
}

/// Whether a store holds a record under a topic.
pub open spec fn is_stored(s: Seq<ShelfView>, topic: NodeId, e: StoredAnnouncement) -> bool {
    exists|i: int|
        0 <= i < s.len() && (#[trigger] s[i]).topic == topic && s[i].records.contains(e)
}

/// Pruning drops exactly the records that have ended.
pub proof fn law_only_ended_records_are_pruned(
    s: Seq<ShelfView>,
    now: u64,
    topic: NodeId,
    e: StoredAnnouncement,
)
    ensures
        is_stored(pruned(s, now), topic, e) <==> is_stored(s, topic, e) && e.expires_at > now,
    decreases s.len(),
{
    let r = pruned(s, now);
    if s.len() > 0 {
        let rest = s.drop_last();
        let front = pruned(rest, now);
        let records = kept(s.last().records, current(now));
        law_only_ended_records_are_pruned(rest, now, topic, e);
        lemma_kept(s.last().records, current(now));
        if is_stored(r, topic, e) {
            let i = choose|i: int|
                0 <= i < r.len() && (#[trigger] r[i]).topic == topic && r[i].records.contains(e);
            if i < front.len() {
                assert(front[i] == r[i]);
                assert(is_stored(front, topic, e));
                let j = choose|j: int|
                    0 <= j < rest.len() && (#[trigger] rest[j]).topic == topic
                        && rest[j].records.contains(e);
                assert(s[j] == rest[j]);
            } else {
                assert(s[s.len() - 1].topic == topic);
                assert(records.contains(e));
            }
        }
        if is_stored(s, topic, e) && e.expires_at > now {
            let j = choose|j: int|
                0 <= j < s.len() && (#[trigger] s[j]).topic == topic && s[j].records.contains(e);
            if j < rest.len() {
                assert(rest[j] == s[j]);
                assert(is_stored(front, topic, e));
                let i = choose|i: int|
                    0 <= i < front.len() && (#[trigger] front[i]).topic == topic
                        && front[i].records.contains(e);
                assert(r[i] == front[i]);
            } else {
                assert(records.contains(e));
                assert(records.len() > 0);
                assert(r[r.len() - 1].records == records);
            }
        }
    }
}

/// A newer record of an owner takes the place of its older one, and no other record is
/// touched; an owner that is new to a topic is taken while there is room.
pub proof fn law_newer_record_replaces(
    s: Seq<StoredAnnouncement>,
    e: StoredAnnouncement,
    other: StoredAnnouncement,
)
    requires
        one_per_owner(s),
        other.contact.id != e.contact.id,
        forall|i: int|
            0 <= i < s.len() && (#[trigger] s[i]).contact.id == e.contact.id ==> s[i].sequence
                < e.sequence,
        s.len() < MAX_RECORDS_PER_TOPIC || exists|i: int|
            0 <= i < s.len() && (#[trigger] s[i]).contact.id == e.contact.id,
    ensures
        shelved(s, e) is Ok,
        shelved(s, e)->Ok_0.contains(e),
        shelved(s, e)->Ok_0.contains(other) <==> s.contains(other),
        forall|x: StoredAnnouncement|
            x.contact.id == e.contact.id && #[trigger] shelved(s, e)->Ok_0.contains(x) ==> x == e,
{
    let p = of_owner(e.contact.id);
    lemma_first(s, p);
    match first(s, p) {
        Some(k) => {
            assert(s[k].contact.id == e.contact.id);
            let r = s.update(k, e);
            assert(r[k] == e);
            if s.contains(other) {
                let i = s.index_of(other);
                assert(r[i] == other);
            }
            if r.contains(other) {
                let i = r.index_of(other);
                assert(s[i] == other);
            }
            assert forall|x: StoredAnnouncement|
                x.contact.id == e.contact.id && #[trigger] r.contains(x) implies x == e by {
                let i = r.index_of(x);
                if i < k {
                    assert(s[i].contact.id != s[k].contact.id);
                } else if i > k {
                    assert(s[k].contact.id != s[i].contact.id);
                }
            }
        },
        None => {
            assert forall|i: int| 0 <= i < s.len() implies (#[trigger] s[i]).contact.id
                != e.contact.id by {
                assert(!p(s[i]));
            }
            lemma_push_contains(s, e, e);
            lemma_push_contains(s, e, other);
            assert forall|x: StoredAnnouncement|
                x.contact.id == e.contact.id && #[trigger] s.push(e).contains(x) implies x == e by {
                lemma_push_contains(s, e, x);
                if s.contains(x) {
                    assert(s[s.index_of(x)].contact.id != e.contact.id);
                }
            }
        },
    }
}

/// What is stored of a record is its owner at the address the record came from, with
/// the record's own sequence and end.
pub proof fn law_record_is_filed_under_its_source(
    v: RecordView,
    source: SocketAddr,
    s: Seq<ShelfView>,
)
    requires
        filed(s, v.topic, entry_of(v, id_of(blake3_digest(v.owner)), source)).1 is Ok,
    ensures
        ({
            let owner = id_of(blake3_digest(v.owner));
            let e = entry_of(v, owner, source);
            &&& contacts_of_topic(filed(s, v.topic, e).0, v.topic).contains(
                Contact { id: owner, addr: source },
            )
            &&& e.sequence == v.sequence
            &&& e.expires_at == v.expires_at
        }),
{
    let e = entry_of(v, id_of(blake3_digest(v.owner)), source);
    law_stored_once(s, v.topic, e, e);
}

/// Pruning takes back exactly the capabilities that are no longer in force, and a
/// capability granted to one leaves every other as it was.
pub proof fn law_grants_stand_on_their_own(
    s: Seq<CapabilityGrant>,
    g: CapabilityGrant,
    c: WriteCapability,
    now: u64,
)
    requires
        c != g.capability,
    ensures
        forall|x: CapabilityGrant| #[trigger]
            kept(s, in_force(now)).contains(x) <==> s.contains(x) && now < x.expires_at,
        forall|topic: NodeId, owner: NodeId, end: u64| #[trigger]
            authorized(granted(s, g), c, topic, owner, end, now) == authorized(
                s,
                c,
                topic,
                owner,
                end,
                now,
            ),
{
    lemma_kept(s, in_force(now));
    let p = of_capability(c);
    let r = granted(s, g);
    lemma_first(s, p);
    lemma_first(s, of_capability(g.capability));
    match first(s, p) {
        Some(k) => {
            assert(r[k] == s[k]);
            assert forall|j: int| 0 <= j < k implies !p(#[trigger] r[j]) by {
                assert(r[j] == s[j] || r[j] == g);
            }
            lemma_first_at(r, p, k);
        },
        None => {
            assert forall|j: int| 0 <= j < r.len() implies !p(#[trigger] r[j]) by {
                if j < s.len() {
                    assert(r[j] == s[j] || r[j] == g);
                }
            }
            lemma_first_none(r, p);
        },
    }
}

/// No two capabilities that an issuer makes are signed for the same thing: the topic, the
/// owner and the number are all part of it.
pub proof fn law_grants_are_signed_apart(
    topic: NodeId,
    owner: NodeId,
    nonce: u64,
    other: NodeId,
    another: NodeId,
    number: u64,
)
    requires
        grant_bytes(topic, owner, nonce) == grant_bytes(other, another, number),
    ensures
        topic == other,
        owner == another,
        nonce == number,
{
    let s = grant_bytes(topic, owner, nonce);
    let t = grant_bytes(other, another, number);
    crate::id::lemma_id_len(topic);
    crate::id::lemma_id_len(owner);
    crate::id::lemma_id_len(other);
    crate::id::lemma_id_len(another);
    assert(s.subrange(0, 32) =~= topic@);
    assert(t.subrange(0, 32) =~= other@);
    assert(s.subrange(32, 64) =~= owner@);
    assert(t.subrange(32, 64) =~= another@);
    crate::id::lemma_id_from_view(topic, other);
    crate::id::lemma_id_from_view(owner, another);
    crate::wire::lemma_byte_cap_eight();
    crate::wire::lemma_le_roundtrip(nonce as nat, 8);
    crate::wire::lemma_le_roundtrip(number as nat, 8);
    assert(s.skip(64) =~= le_bytes(nonce as nat, 8));
    assert(t.skip(64) =~= le_bytes(number as nat, 8));
}

/// A capability that is issued is good at once, for its own topic and owner, for as long as
/// it was issued and for records that end no later, and for nothing else.
pub proof fn law_issued_capability_is_good(
    issuer: &mut CapabilityIssuer,
    topic: NodeId,
    owner: NodeId,
    expires_at: u64,
    capability: WriteCapability,
    other: NodeId,
    another: NodeId,
    record_expiry: u64,
    now: u64,
)
    requires
        call_ensures(CapabilityIssuer::issue, (issuer, topic, owner, expires_at), capability),
    ensures
        authorized(final(issuer)@.grants, capability, other, another, record_expiry, now) <==> {
            &&& other == topic
            &&& another == owner
            &&& record_expiry <= expires_at
            &&& now < expires_at
        },
        final(issuer)@.next_nonce == old(issuer)@.next_nonce.wrapping_add(1),
        final(issuer)@.secret == old(issuer)@.secret,
{
    lemma_granted(
        old(issuer)@.grants,
        CapabilityGrant { capability, topic, owner, expires_at },
    );
}

proof fn lemma_granted(s: Seq<CapabilityGrant>, g: CapabilityGrant)
    ensures
        ({
            let r = granted(s, g);
            first(r, of_capability(g.capability)) is Some && r[first(
                r,
                of_capability(g.capability),
            )->Some_0] == g
        }),
{
    let p = of_capability(g.capability);
    let r = granted(s, g);
    lemma_first(s, p);
    let k = match first(s, p) {
        Some(k) => k,
        None => s.len() as int,
    };
    assert(r[k] == g);
    assert forall|j: int| 0 <= j < k implies !p(#[trigger] r[j]) by {
        assert(r[j] == s[j]);
    }
    lemma_first_at(r, p, k);
}

/// Forgetting the capabilities that have ended changes nothing of what is authorized from
/// then on.
pub proof fn law_pruning_grants_changes_nothing(
    issuer: &mut CapabilityIssuer,
    now: u64,
    c: WriteCapability,
    topic: NodeId,
    owner: NodeId,
    record_expiry: u64,
    later: u64,
)
    requires
        call_ensures(CapabilityIssuer::prune, (issuer, now), ()),
        forall|i: int, j: int|
            0 <= i < j < old(issuer)@.grants.len() ==> (#[trigger] old(
                issuer,
            )@.grants[i]).capability != (#[trigger] old(issuer)@.grants[j]).capability,
        now <= later,
    ensures
        authorized(final(issuer)@.grants, c, topic, owner, record_expiry, later) == authorized(
            old(issuer)@.grants,
            c,
            topic,
            owner,
            record_expiry,
            later,
        ),
{
    let s = old(issuer)@.grants;
    let r = final(issuer)@.grants;
    let p = of_capability(c);
    lemma_kept(s, in_force(now));
    lemma_first(s, p);
    lemma_first(r, p);
    if let Some(k) = first(r, p) {
        assert(r.contains(r[k]));
        let i = s.index_of(r[k]);
        assert(s[i] == r[k]);
        assert(p(s[i]));
        let m = first(s, p)->Some_0;
        if m < i {
            assert(s[m].capability != s[i].capability);
        }
        assert(m == i);
    } else if let Some(m) = first(s, p) {
        if s[m].expires_at > now {
            assert(in_force(now)(s[m]));
            assert(r.contains(s[m]));
            let k = r.index_of(s[m]);
            assert(p(r[k]));
        }
    }
}

} // verus!
