//! Peer discovery on the local network.
//!
//! Two devices on the same network find each other without any other node: each
//! multicasts a small [`Beacon`] (who I am, where to reach me, which blinded
//! topics I am in), and tracks the peers it hears in a [`Peers`] set.
//!
//! Only blinded per-epoch topics ride the beacon, so a passive observer sees
//! rotating opaque hashes, never which channel a device is in. The beacon is
//! signed so garbage is cheap to drop.
use crate::addr::SocketAddr;
use crate::bytes::same_array;
use crate::crypto::{
    blake3_digest, ed25519_is_key, ed25519_public, ed25519_signature, ed25519_valid, hash,
    is_public_key, signature_is_valid, Digest, Keypair,
};
use crate::digests::{
    digest_list, lemma_digest_list_len, lemma_digests_roundtrip, put_digests, read_digests,
    take_digests,
};
use crate::id::{id_of, NodeId};
use crate::lists::{
    first, found, kept, lemma_first, lemma_first_at, lemma_first_none, lemma_kept,
    lemma_push_contains,
};
use crate::msg::{addrs_bytes, decode_addrs, encode_addrs, lemma_addrs_roundtrip, read_addrs};
use crate::wire::{
    lemma_raw_roundtrip, lemma_u8_roundtrip, lemma_uint_roundtrip, read_end, read_raw, read_u8,
    read_uint, varint, with_length, Decoder, Encoder, WireError,
};
use vstd::prelude::*;

verus! {

/// Beacon wire version, bumped on any incompatible change to the encoding.
pub const BEACON_VERSION: u8 = 1;

/// Mixed into the signed bytes, so a beacon's signature cannot be mistaken for
/// one over anything else its key signs: `warren-lan-beacon-v1`.
pub const BEACON_DOMAIN: [u8; 20] = [
    119, 97, 114, 114, 101, 110, 45, 108, 97, 110, 45, 98, 101, 97, 99, 111, 110, 45, 118, 49,
];

/// The most addresses a beacon may advertise.
pub const MAX_ADDRS: usize = 8;

/// The most topics a beacon may advertise.
pub const MAX_TOPICS: usize = 8;

/// Why a beacon failed to decode.
#[derive(Debug, Clone, Copy, PartialEq, Eq)]
pub enum LanError {
    /// The beacon's version byte isn't one we understand.
    Version(u8),
    /// A field was malformed or a count exceeded its cap.
    Malformed(&'static str),
    /// The byte codec rejected the buffer.
    Wire(WireError),
}

/// A discovery beacon: the sender's identity key, its data-socket addresses, and
/// the blinded topics it participates in, signed under that key.
#[derive(Debug, Clone)]
pub struct Beacon {
    /// The sender's identity public key; its node id is the hash of it.
    pub key: [u8; 32],
    /// Data-socket addresses a peer can dial directly.
    pub addrs: Vec<SocketAddr>,
    /// Blinded per-epoch topics, matched against our own to recognize a
    /// same-channel peer without leaking the channel.
    pub topics: Vec<Digest>,
    /// Signature over the key, the addresses and the topics.
    pub sig: [u8; 64],
}

/// A [`Beacon`] as a mathematical value.
#[verifier::ext_equal]
pub struct BeaconView {
    /// The sender's identity public key.
    pub key: Seq<u8>,
    /// Its addresses.
    pub addrs: Seq<SocketAddr>,
    /// Its blinded topics.
    pub topics: Seq<Digest>,
    /// Its signature.
    pub sig: Seq<u8>,
}

impl View for Beacon {
    type V = BeaconView;

    open spec fn view(&self) -> BeaconView {
        BeaconView {
            key: self.key@,
            addrs: self.addrs@,
            topics: self.topics@,
            sig: self.sig@,
        }
    }
}

/// What a beacon's signature is over.
pub open spec fn signed_bytes_of(key: Seq<u8>, addrs: Seq<SocketAddr>, topics: Seq<Digest>) -> Seq<
    u8,
> {
    with_length(BEACON_DOMAIN@) + key + addrs_bytes(addrs) + varint(topics.len()) + digest_list(
        topics,
    )
}

/// A beacon as it is sent.
pub open spec fn beacon_bytes(b: BeaconView) -> Seq<u8> {
    seq![BEACON_VERSION] + b.key + addrs_bytes(b.addrs) + varint(b.topics.len()) + digest_list(
        b.topics,
    ) + b.sig
}

/// Whether a beacon's signature checks out.
pub open spec fn beacon_valid(b: BeaconView) -> bool {
    ed25519_valid(b.key, signed_bytes_of(b.key, b.addrs, b.topics), b.sig)
}

/// The node id a beacon claims.
pub open spec fn beacon_id(b: BeaconView) -> NodeId {
    id_of(blake3_digest(b.key))
}

/// The end of a beacon read.
pub open spec fn read_signature(
    key: Seq<u8>,
    addrs: Seq<SocketAddr>,
    topics: Seq<Digest>,
    s: Seq<u8>,
) -> Result<BeaconView, LanError> {
    match read_raw(s, 64) {
        Ok((sig, s)) => match read_end(s) {
            Ok(_) => Ok(BeaconView { key, addrs, topics, sig }),
            Err(e) => Err(LanError::Wire(e)),
        },
        Err(e) => Err(LanError::Wire(e)),
    }
}

/// The topics of a beacon read, and what follows.
pub open spec fn read_topics(key: Seq<u8>, addrs: Seq<SocketAddr>, s: Seq<u8>) -> Result<
    BeaconView,
    LanError,
> {
    match read_uint(s) {
        Ok((n, s)) => if n > MAX_TOPICS {
            Err(LanError::Malformed("too many topics"))
        } else if n > s.len() / 32 {
            Err(LanError::Malformed("topic count exceeds buffer"))
        } else {
            match read_digests(s, n as nat) {
                Ok((topics, s)) => read_signature(key, addrs, topics, s),
                Err(e) => Err(LanError::Wire(e)),
            }
        },
        Err(e) => Err(LanError::Wire(e)),
    }
}

/// A beacon read, given whether the key it names is one.
pub open spec fn read_beacon(s: Seq<u8>, is_key: bool) -> Result<BeaconView, LanError> {
    match read_u8(s) {
        Ok((version, s)) => if version != BEACON_VERSION {
            Err(LanError::Version(version))
        } else {
            match read_raw(s, 32) {
                Ok((key, s)) => if !is_key {
                    Err(LanError::Malformed("invalid public key"))
                } else {
                    match read_addrs(s) {
                        Ok((addrs, s)) => if addrs.len() > MAX_ADDRS {
                            Err(LanError::Malformed("too many addresses"))
                        } else {
                            read_topics(key, addrs, s)
                        },
                        Err(_) => Err(LanError::Malformed("invalid addresses")),
                    }
                },
                Err(e) => Err(LanError::Wire(e)),
            }
        },
        Err(e) => Err(LanError::Wire(e)),
    }
}

/// The exact bytes a beacon signs, tagged and framed so distinct fields can't be
/// slid past each other.
fn signed_bytes(key: &[u8; 32], addrs: &Vec<SocketAddr>, topics: &Vec<Digest>) -> (r: Vec<u8>)
    ensures
        r@ == signed_bytes_of(key@, addrs@, topics@),
{
    let mut enc = Encoder::new();
    enc.bytes(&BEACON_DOMAIN);
    enc.raw(key);
    encode_addrs(&mut enc, addrs);
    enc.uint(topics.len() as u64);
    put_digests(&mut enc, topics);
    let r = enc.into_vec();
    assert(r@ =~= signed_bytes_of(key@, addrs@, topics@));
    r
}

impl Beacon {
    /// Build and sign a beacon for `keypair`.
    pub fn sign(keypair: &Keypair, addrs: Vec<SocketAddr>, topics: Vec<Digest>) -> (r: Beacon)
        ensures
            r@.key == ed25519_public(keypair.secret()),
            r@.addrs == addrs@,
            r@.topics == topics@,
            r@.sig == ed25519_signature(
                keypair.secret(),
                signed_bytes_of(r@.key, r@.addrs, r@.topics),
            ),
            beacon_valid(r@),
            ed25519_is_key(r@.key),
    {
        let key: [u8; 32] = keypair.public();
        let material: Vec<u8> = signed_bytes(&key, &addrs, &topics);
        let sig: [u8; 64] = keypair.sign(material.as_slice());
        Beacon { key, addrs, topics, sig }
    }

    /// The node id this beacon claims: the hash of its key.
    pub fn node_id(&self) -> (r: NodeId)
        ensures
            r == beacon_id(self@),
    {
        NodeId::from_bytes(hash(&self.key))
    }

    /// Whether the signature checks out against the claimed key.
    pub fn verify(&self) -> (r: bool)
        ensures
            r == beacon_valid(self@),
    {
        let material: Vec<u8> = signed_bytes(&self.key, &self.addrs, &self.topics);
        signature_is_valid(&self.key, material.as_slice(), &self.sig)
    }

    /// Encode for the wire.
    pub fn encode(&self) -> (r: Vec<u8>)
        ensures
            r@ == beacon_bytes(self@),
    {
        let mut enc = Encoder::new();
        enc.u8(BEACON_VERSION);
        enc.raw(&self.key);
        encode_addrs(&mut enc, &self.addrs);
        enc.uint(self.topics.len() as u64);
        put_digests(&mut enc, &self.topics);
        enc.raw(&self.sig);
        let r = enc.into_vec();
        assert(r@ =~= beacon_bytes(self@));
        r
    }

    /// Decode a beacon from bytes. Rejects an unknown version, a key that is
    /// none, over-long address and topic counts, and trailing bytes.
    pub fn decode(buf: &[u8]) -> (r: Result<Beacon, LanError>)
        ensures
            match read_beacon(buf@, buf@.len() >= 33 && ed25519_is_key(buf@.subrange(1, 33))) {
                Ok(b) => r is Ok && r->Ok_0@ == b,
                Err(e) => r == Err::<Beacon, LanError>(e),
            },
    {
        let mut dec = Decoder::new(buf);
        let is_key: bool = match dec.u8() {
            Ok(_) => match dec.array::<32>() {
                Ok(key) => {
                    assert(key@ =~= buf@.subrange(1, 33));
                    is_public_key(&key)
                },
                Err(_) => false,
            },
            Err(_) => false,
        };
        Beacon::decode_known(buf, is_key)
    }

    /// Decode a beacon from bytes, given whether the key it names is one.
    pub fn decode_known(buf: &[u8], is_key: bool) -> (r: Result<Beacon, LanError>)
        ensures
            match read_beacon(buf@, is_key) {
                Ok(b) => r is Ok && r->Ok_0@ == b,
                Err(e) => r == Err::<Beacon, LanError>(e),
            },
    {
        let mut dec = Decoder::new(buf);
        let version: u8 = match dec.u8() {
            Ok(v) => v,
            Err(e) => {
                return Err(LanError::Wire(e));
            },
        };
        if version != BEACON_VERSION {
            return Err(LanError::Version(version));
        }
        let key: [u8; 32] = match dec.array::<32>() {
            Ok(v) => v,
            Err(e) => {
                return Err(LanError::Wire(e));
            },
        };
        if !is_key {
            return Err(LanError::Malformed("invalid public key"));
        }
        let addrs: Vec<SocketAddr> = match decode_addrs(&mut dec) {
            Ok(v) => v,
            Err(_) => {
                return Err(LanError::Malformed("invalid addresses"));
            },
        };
        if addrs.len() > MAX_ADDRS {
            return Err(LanError::Malformed("too many addresses"));
        }
        let count: u64 = match dec.uint() {
            Ok(v) => v,
            Err(e) => {
                return Err(LanError::Wire(e));
            },
        };
        if count > MAX_TOPICS as u64 {
            return Err(LanError::Malformed("too many topics"));
        }
        if count > dec.remaining() as u64 / 32 {
            return Err(LanError::Malformed("topic count exceeds buffer"));
        }
        let topics: Vec<Digest> = match take_digests(&mut dec, count) {
            Ok(v) => v,
            Err(e) => {
                return Err(LanError::Wire(e));
            },
        };
        let sig: [u8; 64] = match dec.array::<64>() {
            Ok(v) => v,
            Err(e) => {
                return Err(LanError::Wire(e));
            },
        };
        match dec.finish() {
            Ok(_) => {},
            Err(e) => {
                return Err(LanError::Wire(e));
            },
        }
        Ok(Beacon { key, addrs, topics, sig })
    }
}

/// A beacon within the caps is read back from its bytes.
pub proof fn law_beacon_roundtrip(b: BeaconView)
    requires
        b.key.len() == 32,
        b.sig.len() == 64,
        b.addrs.len() <= MAX_ADDRS,
        b.topics.len() <= MAX_TOPICS,
    ensures
        read_beacon(beacon_bytes(b), true) == Ok::<BeaconView, LanError>(b),
{
    let s4 = b.sig + Seq::<u8>::empty();
    let s3 = digest_list(b.topics) + s4;
    let s2 = varint(b.topics.len()) + s3;
    let s1 = addrs_bytes(b.addrs) + s2;
    let s0 = b.key + s1;
    assert(beacon_bytes(b) =~= seq![BEACON_VERSION] + s0);
    lemma_u8_roundtrip(BEACON_VERSION, s0);
    lemma_raw_roundtrip(b.key, s1);
    lemma_addrs_roundtrip(b.addrs, s2);
    lemma_uint_roundtrip(b.topics.len() as u64, s3);
    lemma_digest_list_len(b.topics);
    assert(s3.len() >= 32 * b.topics.len());
    assert(s3.len() / 32 >= b.topics.len()) by (nonlinear_arith)
        requires
            s3.len() >= 32 * b.topics.len(),
    ;
    lemma_digests_roundtrip(b.topics, s4);
    lemma_raw_roundtrip(b.sig, Seq::<u8>::empty());
}

/// A peer heard on the network: where it was last seen and when.
#[derive(Debug, Clone, Copy)]
pub struct Seen {
    /// The peer.
    pub id: NodeId,
    /// Its primary address.
    pub addr: SocketAddr,
    /// When it was last heard.
    pub last_ms: u64,
}

/// The entry of a peer.
pub open spec fn of_peer(id: NodeId) -> spec_fn(Seen) -> bool {
    |s: Seen| s.id == id
}

/// Whether a peer was heard within `ttl_ms` of `now_ms`.
pub open spec fn is_fresh(s: Seen, now_ms: u64, ttl_ms: u64) -> bool {
    now_ms - s.last_ms <= ttl_ms
}

/// The peers heard within `ttl_ms` of `now_ms`.
pub open spec fn heard_since(now_ms: u64, ttl_ms: u64) -> spec_fn(Seen) -> bool {
    |s: Seen| is_fresh(s, now_ms, ttl_ms)
}

/// A peer heard.
pub open spec fn heard(s: Seq<Seen>, e: Seen) -> Seq<Seen> {
    match first(s, of_peer(e.id)) {
        Some(k) => s.update(k, e),
        None => s.push(e),
    }
}

/// Whether two lists of topics share one.
pub open spec fn shares_topic(a: Seq<Digest>, b: Seq<Digest>) -> bool {
    exists|i: int| 0 <= i < a.len() && b.contains(#[trigger] a[i])
}

/// The peer a beacon makes known, given its id and whether its signature checks
/// out: none where it does not, where the beacon is our own, where it shares no
/// topic with us, and where it names no address.
pub open spec fn noticed(
    b: BeaconView,
    now_ms: u64,
    me: NodeId,
    our_topics: Seq<Digest>,
    id: NodeId,
    is_signed: bool,
) -> Option<Seen> {
    if !is_signed || id == me || !shares_topic(b.topics, our_topics) || b.addrs.len() == 0 {
        None
    } else {
        Some(Seen { id, addr: b.addrs[0], last_ms: now_ms })
    }
}

/// The set of same-channel peers heard recently, keyed by node id. The caller
/// supplies the clock.
#[derive(Debug)]
pub struct Peers {
    seen: Vec<Seen>,
}

impl View for Peers {
    type V = Seq<Seen>;

    closed spec fn view(&self) -> Seq<Seen> {
        self.seen@
    }
}

impl Default for Peers {
    fn default() -> (r: Self)
        ensures
            r@ == Seq::<Seen>::empty(),
    {
        Peers { seen: Vec::new() }
    }
}

fn find_peer(s: &Vec<Seen>, id: &NodeId) -> (r: Option<usize>)
    ensures
        found(s@, of_peer(*id), r),
{
    let mut i: usize = 0;
    while i < s.len()
        invariant
            i <= s.len(),
            forall|j: int| 0 <= j < i ==> !of_peer(*id)(#[trigger] s@[j]),
        decreases s.len() - i,
    {
        if s[i].id == *id {
            proof {
                lemma_first_at(s@, of_peer(*id), i as int);
            }
            return Some(i);
        }
        i += 1;
    }
    proof {
        lemma_first_none(s@, of_peer(*id));
    }
    None
}

fn has_digest(s: &[Digest], d: &Digest) -> (r: bool)
    ensures
        r == s@.contains(*d),
{
    let mut i: usize = 0;
    while i < s.len()
        invariant
            i <= s.len(),
            forall|j: int| 0 <= j < i ==> #[trigger] s@[j] != *d,
        decreases s.len() - i,
    {
        if same_array(&s[i], d) {
            assert(s@[i as int] == *d);
            return true;
        }
        i += 1;
    }
    false
}

fn share_topic(a: &Vec<Digest>, b: &[Digest]) -> (r: bool)
    ensures
        r == shares_topic(a@, b@),
{
    let mut i: usize = 0;
    while i < a.len()
        invariant
            i <= a.len(),
            forall|j: int| 0 <= j < i ==> !b@.contains(#[trigger] a@[j]),
        decreases a.len() - i,
    {
        if has_digest(b, &a[i]) {
            return true;
        }
        i += 1;
    }
    false
}

fn is_recent(s: &Seen, now_ms: u64, ttl_ms: u64) -> (r: bool)
    ensures
        r == is_fresh(*s, now_ms, ttl_ms),
{
    now_ms <= s.last_ms || now_ms - s.last_ms <= ttl_ms
}

impl Peers {
    /// An empty set.
    pub fn new() -> (r: Self)
        ensures
            r@ == Seq::<Seen>::empty(),
    {
        Peers { seen: Vec::new() }
    }

    /// Fold in a received beacon. Returns the peer's id and address when it is
    /// worth dialing (the signature verifies, it isn't us, and it shares one of
    /// `our_topics`), recording or refreshing it in the set; otherwise touches
    /// nothing.
    pub fn observe(&mut self, beacon: &Beacon, now_ms: u64, me: NodeId, our_topics: &[Digest]) -> (r:
        Option<(NodeId, SocketAddr)>)
        ensures
            match noticed(
                beacon@,
                now_ms,
                me,
                our_topics@,
                beacon_id(beacon@),
                beacon_valid(beacon@),
            ) {
                Some(e) => r == Some((e.id, e.addr)) && final(self)@ == heard(old(self)@, e),
                None => r is None && final(self)@ == old(self)@,
            },
    {
        let is_signed: bool = beacon.verify();
        let id: NodeId = beacon.node_id();
        self.notice(beacon, now_ms, me, our_topics, id, is_signed)
    }

    /// Fold in a received beacon, given its id and whether its signature checks
    /// out.
    pub fn notice(
        &mut self,
        beacon: &Beacon,
        now_ms: u64,
        me: NodeId,
        our_topics: &[Digest],
        id: NodeId,
        is_signed: bool,
    ) -> (r: Option<(NodeId, SocketAddr)>)
        ensures
            match noticed(beacon@, now_ms, me, our_topics@, id, is_signed) {
                Some(e) => r == Some((e.id, e.addr)) && final(self)@ == heard(old(self)@, e),
                None => r is None && final(self)@ == old(self)@,
            },
    {
        if !is_signed || id == me || !share_topic(&beacon.topics, our_topics)
            || beacon.addrs.len() == 0 {
            return None;
        }
        let addr: SocketAddr = beacon.addrs[0];
        let e = Seen { id, addr, last_ms: now_ms };
        match find_peer(&self.seen, &id) {
            Some(k) => {
                self.seen.set(k, e);
            },
            None => {
                self.seen.push(e);
            },
        }
        Some((id, addr))
    }

    /// The peers seen within `ttl_ms` of `now_ms`.
    pub fn fresh(&self, now_ms: u64, ttl_ms: u64) -> (r: Vec<(NodeId, SocketAddr)>)
        ensures
            r@.len() == kept(self@, heard_since(now_ms, ttl_ms)).len(),
            forall|i: int|
                0 <= i < r@.len() ==> #[trigger] r@[i] == (
                    kept(self@, heard_since(now_ms, ttl_ms))[i].id,
                    kept(self@, heard_since(now_ms, ttl_ms))[i].addr,
                ),
    {
        let ghost s = self.seen@;
        let ghost p = heard_since(now_ms, ttl_ms);
        let mut r: Vec<(NodeId, SocketAddr)> = Vec::new();
        let mut i: usize = 0;
        while i < self.seen.len()
            invariant
                i <= self.seen.len(),
                s == self.seen@,
                p == heard_since(now_ms, ttl_ms),
                r@.len() == kept(s.take(i as int), p).len(),
                forall|j: int|
                    0 <= j < r@.len() ==> #[trigger] r@[j] == (
                        kept(s.take(i as int), p)[j].id,
                        kept(s.take(i as int), p)[j].addr,
                    ),
            decreases self.seen.len() - i,
        {
            proof {
                assert(s.take(i + 1).drop_last() =~= s.take(i as int));
                assert(s.take(i + 1).last() == s[i as int]);
            }
            if is_recent(&self.seen[i], now_ms, ttl_ms) {
                r.push((self.seen[i].id, self.seen[i].addr));
            }
            i += 1;
        }
        assert(s.take(s.len() as int) =~= s);
        r
    }

    /// Drop entries older than `ttl_ms`: a peer that left stops beaconing.
    pub fn expire(&mut self, now_ms: u64, ttl_ms: u64)
        ensures
            final(self)@ == kept(old(self)@, heard_since(now_ms, ttl_ms)),
    {
        let ghost s = self.seen@;
        let mut live: Vec<Seen> = Vec::new();
        let mut i: usize = 0;
        while i < self.seen.len()
            invariant
                i <= self.seen.len(),
                s == self.seen@,
                live@ == kept(s.take(i as int), heard_since(now_ms, ttl_ms)),
            decreases self.seen.len() - i,
        {
            proof {
                assert(s.take(i + 1).drop_last() =~= s.take(i as int));
                assert(s.take(i + 1).last() == s[i as int]);
            }
            if is_recent(&self.seen[i], now_ms, ttl_ms) {
                live.push(self.seen[i]);
            }
            i += 1;
        }
        assert(s.take(s.len() as int) =~= s);
        self.seen = live;
    }
}

/// No peer is in the set twice.
pub open spec fn each_once(s: Seq<Seen>) -> bool {
    forall|i: int, j: int| 0 <= i < j < s.len() ==> (#[trigger] s[i]).id != (#[trigger] s[j]).id
}

/// Hearing a peer again refreshes its entry rather than adding one, and leaves
/// the others alone.
pub proof fn law_heard_once(s: Seq<Seen>, e: Seen)
    requires
        each_once(s),
    ensures
        each_once(heard(s, e)),
        heard(s, e).contains(e),
        forall|x: Seen| x.id != e.id ==> (#[trigger] heard(s, e).contains(x) <==> s.contains(x)),
{
    lemma_first(s, of_peer(e.id));
    let r = heard(s, e);
    match first(s, of_peer(e.id)) {
        Some(k) => {
            assert(r[k] == e);
            assert forall|i: int| 0 <= i < r.len() implies (#[trigger] r[i]).id == s[i].id by {}
            assert forall|i: int, j: int| 0 <= i < j < r.len() implies (#[trigger] r[i]).id != (
            #[trigger] r[j]).id by {
                assert(s[i].id != s[j].id);
            }
            assert forall|x: Seen| x.id != e.id implies (#[trigger] r.contains(x) <==> s.contains(
                x,
            )) by {
                if s.contains(x) {
                    assert(r[s.index_of(x)] == x);
                }
                if r.contains(x) {
                    assert(s[r.index_of(x)] == x);
                }
            }
        },
        None => {
            lemma_push_contains(s, e, e);
            assert forall|x: Seen| x.id != e.id implies (#[trigger] r.contains(x) <==> s.contains(
                x,
            )) by {
                lemma_push_contains(s, e, x);
            }
            assert forall|i: int, j: int| 0 <= i < j < r.len() implies (#[trigger] r[i]).id != (
            #[trigger] r[j]).id by {
                assert(r[i] == s[i]);
                if j < s.len() {
                    assert(r[j] == s[j]);
                }
            }
        },
    }
}

/// A beacon of another peer that checks out and names an address is noticed whenever
/// one of its topics is one of ours, at whatever places the two stand, and the peer is
/// then known at the first of its addresses.
pub proof fn law_shared_topic_is_noticed(
    b: BeaconView,
    now_ms: u64,
    me: NodeId,
    our_topics: Seq<Digest>,
    id: NodeId,
    i: int,
    j: int,
)
    requires
        id != me,
        b.addrs.len() > 0,
        0 <= i < b.topics.len(),
        0 <= j < our_topics.len(),
        b.topics[i] == our_topics[j],
    ensures
        noticed(b, now_ms, me, our_topics, id, true) == Some(
            Seen { id, addr: b.addrs[0], last_ms: now_ms },
        ),
{
    assert(our_topics.contains(b.topics[i]));
}

/// A beacon that does not check out, is our own, names no address, or lists no topic
/// of ours is not noticed.
pub proof fn law_other_beacons_are_ignored(
    b: BeaconView,
    now_ms: u64,
    me: NodeId,
    our_topics: Seq<Digest>,
    id: NodeId,
    is_signed: bool,
)
    requires
        !is_signed || id == me || b.addrs.len() == 0 || forall|i: int, j: int|
            0 <= i < b.topics.len() && 0 <= j < our_topics.len() ==> (#[trigger] b.topics[i]) != (
            #[trigger] our_topics[j]),
    ensures
        noticed(b, now_ms, me, our_topics, id, is_signed) is None,
{
}

/// A peer that was heard is listed for as long as it was heard within the time asked
/// for, whatever else was heard, and no longer.
pub proof fn law_peer_is_listed_while_fresh(
    s: Seq<Seen>,
    e: Seen,
    other: Seen,
    now_ms: u64,
    ttl_ms: u64,
)
    requires
        each_once(s),
        other.id != e.id,
    ensures
        kept(heard(s, e), heard_since(now_ms, ttl_ms)).contains(e) <==> now_ms <= e.last_ms
            + ttl_ms,
        kept(heard(s, e), heard_since(now_ms, ttl_ms)).contains(other) <==> s.contains(other)
            && now_ms <= other.last_ms + ttl_ms,
{
    law_heard_once(s, e);
    lemma_kept(heard(s, e), heard_since(now_ms, ttl_ms));
}

/// A beacon's signature covers all it says: no other key, addresses or topics have the
/// same signed bytes.
pub proof fn law_signature_covers_the_beacon(a: BeaconView, b: BeaconView)
    requires
        a.key.len() == 32,
        b.key.len() == 32,
        a.addrs.len() <= MAX_ADDRS,
        b.addrs.len() <= MAX_ADDRS,
        a.topics.len() <= MAX_TOPICS,
        b.topics.len() <= MAX_TOPICS,
        signed_bytes_of(a.key, a.addrs, a.topics) == signed_bytes_of(b.key, b.addrs, b.topics),
    ensures
        a.key == b.key,
        a.addrs == b.addrs,
        a.topics == b.topics,
{
    let sig = Seq::new(64, |i: int| 0u8);
    let x = BeaconView { sig, ..a };
    let y = BeaconView { sig, ..b };
    let n = with_length(BEACON_DOMAIN@).len() as int;
    let body = signed_bytes_of(a.key, a.addrs, a.topics).skip(n);
    assert(beacon_bytes(x) =~= seq![BEACON_VERSION] + body + sig);
    assert(beacon_bytes(y) =~= seq![BEACON_VERSION] + body + sig);
    law_beacon_roundtrip(x);
    law_beacon_roundtrip(y);
}

/// A beacon is noticed only from a peer other than ourselves that signed it with the key it
/// names, and the peer is known by that key and reached at the beacon's first address; every
/// such beacon with a topic of ours is.
pub proof fn law_observed_peer_is_the_one_that_signed(
    peers: &mut Peers,
    beacon: Beacon,
    now_ms: u64,
    me: NodeId,
    our_topics: &[Digest],
    r: Option<(NodeId, SocketAddr)>,
    i: int,
    j: int,
)
    requires
        call_ensures(Peers::observe, (peers, &beacon, now_ms, me, our_topics), r),
    ensures
        ({
            let b = beacon@;
            let is_signed = ed25519_valid(
                b.key,
                signed_bytes_of(b.key, b.addrs, b.topics),
                b.sig,
            );
            let id = id_of(blake3_digest(b.key));
            &&& r is Some ==> is_signed && id != me && b.addrs.len() > 0 && r == Some(
                (id, b.addrs[0]),
            )
            &&& is_signed && id != me && b.addrs.len() > 0 && 0 <= i < b.topics.len() && 0 <= j
                < our_topics@.len() && b.topics[i] == our_topics@[j] ==> r is Some
            &&& r is None ==> final(peers)@ == old(peers)@
        }),
{
    let b = beacon@;
    if 0 <= i < b.topics.len() && 0 <= j < our_topics@.len() && b.topics[i] == our_topics@[j] {
        assert(our_topics@.contains(b.topics[i]));
    }
}

} // verus!
