//! Finding where a peer can be signaled.
//!
//! A peer is dialed by its public key. Its registrations are looked up at the
//! topic that is the hash of that key; the nodes nearest the topic that gave none
//! are then asked for that peer in particular, so other publishers cannot crowd
//! it out. What another key published there is ignored.
use crate::bytes::same_array;
use crate::crypto::{blake3_digest, hash};
use crate::id::{big_endian, id_of, NodeId};
use crate::lists::{
    first, kept, lemma_first, lemma_first_at, lemma_first_none, lemma_kept, lemma_push_contains,
};
use crate::routing::Contact;
use crate::transfer::IoKind;
use std::collections::HashSet;
use vstd::prelude::*;

verus! {

broadcast use vstd::std_specs::hash::group_hash_axioms;

/// A registration: who can be signaled at a topic, and through whom.
#[derive(Debug, Clone, Copy)]
pub struct Record {
    /// Where it is published.
    pub topic: NodeId,
    /// The public key of the peer that published it.
    pub provider: [u8; 32],
    /// The node that passes signals on to the peer.
    pub coordinator: Contact,
    /// What signals to the peer are sealed with.
    pub signaling_key: [u8; 32],
    /// When it expires.
    pub expires: u64,
}

/// A signal that arrived, its author authenticated.
#[derive(Debug, Clone)]
pub struct Signal {
    /// Who it is for.
    pub recipient: NodeId,
    /// The public key of who sent it.
    pub author: [u8; 32],
    /// The session it belongs to.
    pub session: [u8; 32],
    /// Whether it answers an offer.
    pub answer: bool,
    /// What it carries.
    pub payload: Vec<u8>,
}

/// What the discovery network reports.
#[derive(Debug, Clone)]
pub enum Event {
    /// The local network changed; this is its new generation.
    NetworkChanged(u64),
    /// A registration was acknowledged.
    Registered(Record),
    /// A signal arrived through a coordinator.
    Incoming {
        /// The coordinator.
        coordinator: Contact,
        /// The signal.
        signal: Signal,
    },
    /// A signal was answered.
    Answered(Signal),
    /// The signal of a session was not answered in time.
    SignalTimedOut([u8; 32]),
    /// A lookup found registrations.
    Providers {
        /// The lookup.
        query: u64,
        /// What it found.
        records: Vec<Record>,
    },
    /// A lookup has ended.
    LookupDone {
        /// The lookup.
        query: u64,
        /// Whether nodes were left unanswered.
        timed_out: bool,
        /// The nodes nearest the target.
        closest: Vec<Contact>,
    },
    /// A node answered a request for a peer's registrations.
    ProviderPage {
        /// The request.
        request: u64,
        /// What it gave.
        records: Vec<Record>,
    },
    /// A request was not answered in time.
    RpcTimedOut(u64),
    /// Anything else.
    Unrelated,
}

/// What is heard from the node that runs the discovery network.
#[derive(Debug, Clone)]
pub enum Notice {
    /// An event.
    Dht(Event),
    /// The node stopped.
    Stopped,
    /// Nothing more will be heard.
    Closed,
    /// This many notices were missed.
    Lagged(u64),
    /// A socket failed once.
    IoError,
}

/// Why the discovery network failed.
#[derive(Debug, Clone, Copy, PartialEq, Eq, Structural)]
pub enum DhtError {
    /// The node stopped.
    Closed,
    /// Events were missed.
    EventsLagged(u64),
    /// The local network changed.
    NetworkChanged,
    /// Nodes did not answer in time.
    TimedOut,
    /// No node is known.
    NoPeers,
    /// The session is not known, or no longer.
    UnknownSession,
    /// Anything else.
    Other,
}

/// Why a connection was not made.
#[derive(Debug, Clone, Copy, PartialEq, Eq, Structural)]
pub enum ConnectError {
    /// The discovery network failed.
    Dht(DhtError),
    /// No signed registration for the requested public key.
    PeerNotFound,
    /// Signaling timed out.
    SignalingTimedOut,
    /// The direct candidates were unreachable.
    DirectUnavailable,
    /// The candidates are invalid.
    InvalidCandidates,
    /// The connection deadline was exceeded.
    Deadline,
    /// The connection capacity is exhausted.
    Busy,
    /// The incoming peer is not authorized.
    Unauthorized,
    /// The endpoint already has a listener.
    AlreadyListening,
    /// The data socket failed.
    Socket(IoKind),
    /// The peer could not be authenticated.
    Authentication(IoKind),
    /// The configuration is invalid.
    InvalidConfig,
}

/// What a notice tells: an event, nothing of interest, or the end.
pub fn next_event(notice: Notice) -> (r: Result<Option<Event>, ConnectError>)
    ensures
        r == (match notice {
            Notice::Dht(event) => Ok::<Option<Event>, ConnectError>(Some(event)),
            Notice::Stopped => Err(ConnectError::Dht(DhtError::Closed)),
            Notice::Closed => Err(ConnectError::Dht(DhtError::Closed)),
            Notice::Lagged(count) => Err(ConnectError::Dht(DhtError::EventsLagged(count))),
            Notice::IoError => Ok(None),
        }),
{
    match notice {
        Notice::Dht(event) => Ok(Some(event)),
        Notice::Stopped => Err(ConnectError::Dht(DhtError::Closed)),
        Notice::Closed => Err(ConnectError::Dht(DhtError::Closed)),
        Notice::Lagged(count) => Err(ConnectError::Dht(DhtError::EventsLagged(count))),
        Notice::IoError => Ok(None),
    }
}

/// Whether two contacts are the same.
pub fn same_contact(a: &Contact, b: &Contact) -> (r: bool)
    ensures
        r == (*a == *b),
{
    a.id == b.id && a.addr == b.addr
}

proof fn lemma_borrow(s: Seq<u8>, t: Seq<u8>, k: int)
    requires
        s.len() == t.len(),
        0 <= k < s.len(),
        forall|j: int| 0 <= j < k ==> s[j] == t[j],
        s[k] == t[k] + 1,
        forall|j: int| k < j < s.len() ==> s[j] == 0 && t[j] == 255,
    ensures
        big_endian(s) == big_endian(t) + 1,
    decreases s.len(),
{
    if k == s.len() - 1 {
        assert(s.drop_last() =~= t.drop_last());
    } else {
        assert(s.last() == 0 && t.last() == 255);
        lemma_borrow(s.drop_last(), t.drop_last(), k);
    }
}

proof fn lemma_zero(s: Seq<u8>)
    requires
        forall|j: int| 0 <= j < s.len() ==> s[j] == 0,
    ensures
        big_endian(s) == 0,
    decreases s.len(),
{
    if s.len() > 0 {
        lemma_zero(s.drop_last());
    }
}

/// The id just before another, if there is one.
pub fn predecessor(id: &NodeId) -> (r: Option<NodeId>)
    ensures
        match r {
            Some(p) => big_endian(p@) + 1 == big_endian(id@),
            None => big_endian(id@) == 0,
        },
{
    let start: [u8; 32] = *id.as_bytes();
    let mut bytes: [u8; 32] = start;
    let mut i: usize = 32;
    while i > 0
        invariant
            i <= 32,
            start@ == id@,
            forall|j: int| 0 <= j < i ==> bytes@[j] == start@[j],
            forall|j: int| i <= j < 32 ==> start@[j] == 0 && bytes@[j] == 255,
        decreases i,
    {
        i -= 1;
        if bytes[i] != 0 {
            bytes[i] = bytes[i] - 1;
            let r = NodeId::from_bytes(bytes);
            proof {
                lemma_borrow(id@, r@, i as int);
            }
            return Some(r);
        }
        bytes[i] = 255;
    }
    proof {
        lemma_zero(id@);
    }
    None
}

/// Whether a record is one that the peer published at its topic.
pub open spec fn is_wanted(peer: [u8; 32], target: NodeId) -> spec_fn(Record) -> bool {
    |r: Record| r.provider == peer && r.topic == target
}

/// Whether a node gave none of the records.
pub open spec fn gave_none(records: Seq<Record>) -> spec_fn(Contact) -> bool {
    |c: Contact| forall|i: int| 0 <= i < records.len() ==> (#[trigger] records[i]).coordinator != c
}

/// The nodes to ask once the lookup is done: unless there are records enough,
/// the nearest that gave none.
pub open spec fn still_to_ask(records: Seq<Record>, closest: Seq<Contact>, limit: nat) -> Seq<
    Contact,
> {
    if records.len() < limit {
        kept(closest, gave_none(records))
    } else {
        Seq::empty()
    }
}

/// Where a record goes among others sorted newest first: behind all that expire
/// no sooner.
pub open spec fn place(sorted: Seq<Record>, r: Record) -> int {
    match first(sorted, |x: Record| x.expires < r.expires) {
        Some(i) => i,
        None => sorted.len() as int,
    }
}

/// Records, the one that expires last first, and those that expire together in
/// the order they came.
pub open spec fn newest_first(s: Seq<Record>) -> Seq<Record>
    decreases s.len(),
{
    if s.len() == 0 {
        Seq::empty()
    } else {
        let sorted = newest_first(s.drop_last());
        sorted.insert(place(sorted, s.last()), s.last())
    }
}

/// Whether the `i`-th record is the first with its signaling key of its
/// coordinator.
pub open spec fn is_first_of_node(s: Seq<Record>, key: [u8; 32], i: int) -> bool {
    s[i].signaling_key == key && forall|j: int|
        0 <= j < i && (#[trigger] s[j]).signaling_key == key ==> s[j].coordinator.id
            != s[i].coordinator.id
}

/// Whether the `i`-th record is chosen: no earlier one names its coordinator, or
/// another at the same address.
pub open spec fn is_chosen(s: Seq<Record>, key: [u8; 32], i: int) -> bool {
    is_first_of_node(s, key, i) && forall|j: int|
        0 <= j < i && #[trigger] is_first_of_node(s, key, j) ==> s[j].coordinator.addr
            != s[i].coordinator.addr
}

/// Those chosen of the first `n` records.
pub open spec fn chosen(s: Seq<Record>, key: [u8; 32], n: nat) -> Seq<Record>
    decreases n,
{
    if n == 0 {
        Seq::empty()
    } else if is_chosen(s, key, n - 1) {
        chosen(s, key, (n - 1) as nat).push(s[n - 1])
    } else {
        chosen(s, key, (n - 1) as nat)
    }
}

/// What is used of the records found: of those with the signaling key of the
/// newest, up to `limit` with coordinators of their own, newest first.
pub open spec fn selection(records: Seq<Record>, limit: nat) -> Seq<Record> {
    let s = newest_first(records);
    let c = chosen(s, s[0].signaling_key, s.len());
    if c.len() <= limit {
        c
    } else {
        c.take(limit as int)
    }
}

/// What a discovery comes to.
pub open spec fn concluded(records: Seq<Record>, incomplete: bool, limit: nat) -> Result<
    Seq<Record>,
    ConnectError,
> {
    if records.len() > 0 {
        Ok(selection(records, limit))
    } else if incomplete {
        Err(ConnectError::Dht(DhtError::TimedOut))
    } else {
        Err(ConnectError::PeerNotFound)
    }
}

fn sort_newest_first(records: &Vec<Record>) -> (r: Vec<Record>)
    ensures
        r@ == newest_first(records@),
{
    let mut sorted: Vec<Record> = Vec::new();
    let len: usize = records.len();
    let mut i: usize = 0;
    assert(records@.take(0) =~= Seq::<Record>::empty());
    while i < len
        invariant
            i <= len,
            len == records@.len(),
            sorted@ == newest_first(records@.take(i as int)),
            sorted@.len() == i,
        decreases len - i,
    {
        let r: Record = records[i];
        let mut at: usize = 0;
        while at < i && sorted[at].expires >= r.expires
            invariant
                at <= i,
                sorted@.len() == i,
                forall|j: int| 0 <= j < at ==> (#[trigger] sorted@[j]).expires >= r.expires,
            decreases i - at,
        {
            at += 1;
        }
        proof {
            let p = |x: Record| x.expires < r.expires;
            if at < i {
                lemma_first_at(sorted@, p, at as int);
            } else {
                lemma_first_none(sorted@, p);
            }
            assert(records@.take(i + 1).drop_last() =~= records@.take(i as int));
            assert(records@.take(i + 1).last() == r);
        }
        sorted.insert(at, r);
        i += 1;
    }
    assert(records@.take(len as int) =~= records@);
    sorted
}

fn first_of_node(s: &Vec<Record>, key: &[u8; 32], i: usize) -> (r: bool)
    requires
        i < s@.len(),
    ensures
        r == is_first_of_node(s@, *key, i as int),
{
    if !same_array(&s[i].signaling_key, key) {
        return false;
    }
    let mut j: usize = 0;
    while j < i
        invariant
            j <= i < s@.len(),
            s@[i as int].signaling_key == *key,
            forall|k: int|
                0 <= k < j && (#[trigger] s@[k]).signaling_key == *key ==> s@[k].coordinator.id
                    != s@[i as int].coordinator.id,
        decreases i - j,
    {
        if same_array(&s[j].signaling_key, key) && s[j].coordinator.id == s[i].coordinator.id {
            assert(s@[j as int].signaling_key == *key);
            return false;
        }
        j += 1;
    }
    true
}

fn choose_records(s: &Vec<Record>, key: &[u8; 32]) -> (r: Vec<Record>)
    ensures
        r@ == chosen(s@, *key, s@.len()),
{
    let mut out: Vec<Record> = Vec::new();
    let len: usize = s.len();
    let mut i: usize = 0;
    while i < len
        invariant
            i <= len,
            len == s@.len(),
            out@ == chosen(s@, *key, i as nat),
        decreases len - i,
    {
        let mut take: bool = first_of_node(s, key, i);
        let mut j: usize = 0;
        while take && j < i
            invariant
                j <= i < s@.len(),
                take ==> is_first_of_node(s@, *key, i as int),
                take ==> forall|k: int|
                    0 <= k < j && #[trigger] is_first_of_node(s@, *key, k)
                        ==> s@[k].coordinator.addr != s@[i as int].coordinator.addr,
                !take ==> !is_chosen(s@, *key, i as int),
            decreases i - j,
        {
            if first_of_node(s, key, j) && s[j].coordinator.addr == s[i].coordinator.addr {
                assert(is_first_of_node(s@, *key, j as int));
                take = false;
            }
            j += 1;
        }
        if take {
            out.push(s[i]);
        }
        i += 1;
    }
    out
}

/// What a discovery comes to.
pub fn conclude(records: &Vec<Record>, incomplete: bool, limit: usize) -> (r: Result<
    Vec<Record>,
    ConnectError,
>)
    ensures
        match concluded(records@, incomplete, limit as nat) {
            Ok(list) => r is Ok && r->Ok_0@ == list,
            Err(e) => r == Err::<Vec<Record>, ConnectError>(e),
        },
{
    if records.len() == 0 {
        return if incomplete {
            Err(ConnectError::Dht(DhtError::TimedOut))
        } else {
            Err(ConnectError::PeerNotFound)
        };
    }
    let sorted: Vec<Record> = sort_newest_first(records);
    proof {
        lemma_newest_first(records@);
    }
    let key: [u8; 32] = sorted[0].signaling_key;
    let mut out: Vec<Record> = choose_records(&sorted, &key);
    if out.len() > limit {
        out.truncate(limit);
        assert(out@ =~= chosen(sorted@, key, sorted@.len()).take(limit as int));
    }
    Ok(out)
}

/// Sorting loses nothing, adds nothing, and leaves nothing out of order.
pub proof fn lemma_newest_first(s: Seq<Record>)
    ensures
        newest_first(s).len() == s.len(),
        newest_first(s).to_multiset() == s.to_multiset(),
        forall|i: int, j: int|
            0 <= i < j < s.len() ==> (#[trigger] newest_first(s)[i]).expires >= (
            #[trigger] newest_first(s)[j]).expires,
    decreases s.len(),
{
    broadcast use vstd::seq_lib::group_to_multiset_ensures;

    if s.len() > 0 {
        let rest = s.drop_last();
        let sorted = newest_first(rest);
        let r = s.last();
        lemma_newest_first(rest);
        crate::lists::lemma_first(sorted, |x: Record| x.expires < r.expires);
        let at = place(sorted, r);
        let out = sorted.insert(at, r);
        assert(s =~= rest.push(r));
        assert(out.to_multiset() =~= s.to_multiset());
        assert forall|i: int, j: int| 0 <= i < j < s.len() implies (#[trigger] out[i]).expires >= (
        #[trigger] out[j]).expires by {
            if at < sorted.len() {
                assert(sorted[at].expires < r.expires);
            }
            if i < at {
                assert(out[i] == sorted[i]);
            } else if i > at {
                assert(out[i] == sorted[i - 1]);
            }
            if j < at {
                assert(out[j] == sorted[j]);
            } else if j > at {
                assert(out[j] == sorted[j - 1]);
            }
        }
    } else {
        assert(newest_first(s) =~= s);
    }
}

spec fn is_among(s: Seq<Record>, key: [u8; 32], n: nat, r: Record) -> bool {
    exists|k: int| 0 <= k < n && is_chosen(s, key, k) && #[trigger] s[k] == r
}

proof fn lemma_chosen(s: Seq<Record>, key: [u8; 32], n: nat)
    requires
        n <= s.len(),
    ensures
        forall|i: int|
            0 <= i < chosen(s, key, n).len() ==> is_among(
                s,
                key,
                n,
                #[trigger] chosen(s, key, n)[i],
            ),
        forall|i: int, j: int|
            0 <= i < j < chosen(s, key, n).len() ==> (#[trigger] chosen(s, key, n)[i]).coordinator.id
                != (#[trigger] chosen(s, key, n)[j]).coordinator.id && chosen(
                s,
                key,
                n,
            )[i].coordinator.addr != chosen(s, key, n)[j].coordinator.addr,
    decreases n,
{
    if n > 0 {
        let m = (n - 1) as nat;
        lemma_chosen(s, key, m);
        let before = chosen(s, key, m);
        let c = chosen(s, key, n);
        assert forall|i: int| 0 <= i < c.len() implies is_among(s, key, n, #[trigger] c[i]) by {
            if i < before.len() {
                assert(before[i] == c[i]);
                assert(is_among(s, key, m, before[i]));
                let k = choose|k: int|
                    0 <= k < m && is_chosen(s, key, k) && #[trigger] s[k] == before[i];
                assert(s[k] == c[i]);
            } else {
                assert(s[n - 1] == c[i]);
            }
        }
        assert forall|i: int, j: int| 0 <= i < j < c.len() implies (
        #[trigger] c[i]).coordinator.id != (#[trigger] c[j]).coordinator.id
            && c[i].coordinator.addr != c[j].coordinator.addr by {
            assert(before[i] == c[i]);
            if j < before.len() {
                assert(before[j] == c[j]);
            } else {
                assert(is_among(s, key, m, before[i]));
                let k = choose|k: int|
                    0 <= k < m && is_chosen(s, key, k) && #[trigger] s[k] == before[i];
                assert(is_first_of_node(s, key, k));
                assert(is_chosen(s, key, n - 1));
            }
        }
    }
}

/// Those chosen start with the first record of all, and keep their order.
proof fn lemma_chosen_order(s: Seq<Record>, key: [u8; 32], n: nat)
    requires
        0 < n <= s.len(),
        key == s[0].signaling_key,
        forall|i: int, j: int|
            0 <= i < j < s.len() ==> (#[trigger] s[i]).expires >= (#[trigger] s[j]).expires,
    ensures
        chosen(s, key, n).len() >= 1,
        chosen(s, key, n)[0] == s[0],
        forall|i: int, j: int|
            0 <= i < j < chosen(s, key, n).len() ==> (#[trigger] chosen(s, key, n)[i]).expires >= (
            #[trigger] chosen(s, key, n)[j]).expires,
    decreases n,
{
    let m = (n - 1) as nat;
    let c = chosen(s, key, n);
    if m == 0 {
        assert(chosen(s, key, 0).len() == 0);
        assert(is_chosen(s, key, 0));
    } else {
        lemma_chosen_order(s, key, m);
        lemma_chosen(s, key, m);
        let before = chosen(s, key, m);
        assert forall|i: int, j: int| 0 <= i < j < c.len() implies (#[trigger] c[i]).expires >= (
        #[trigger] c[j]).expires by {
            assert(before[i] == c[i]);
            if j < before.len() {
                assert(before[j] == c[j]);
            } else {
                assert(is_among(s, key, m, before[i]));
                let k = choose|k: int|
                    0 <= k < m && is_chosen(s, key, k) && #[trigger] s[k] == before[i];
                assert(s[k].expires >= s[n - 1].expires);
            }
        }
    }
}

/// What is used of the records found: each was found, they share one signaling
/// key, and no two name one coordinator or one address. There is at least one if
/// any may be used; the first expires last of all that were found, and none expires
/// later than the one before it.
pub proof fn law_selection(records: Seq<Record>, limit: nat)
    requires
        records.len() > 0,
    ensures
        selection(records, limit).len() <= limit,
        limit >= 1 ==> selection(records, limit).len() >= 1,
        limit >= 1 ==> forall|i: int|
            0 <= i < records.len() ==> (#[trigger] records[i]).expires <= selection(
                records,
                limit,
            )[0].expires,
        forall|i: int, j: int|
            0 <= i < j < selection(records, limit).len() ==> (#[trigger] selection(
                records,
                limit,
            )[i]).expires >= (#[trigger] selection(records, limit)[j]).expires,
        forall|i: int|
            0 <= i < selection(records, limit).len() ==> records.contains(
                #[trigger] selection(records, limit)[i],
            ) && selection(records, limit)[i].signaling_key == newest_first(
                records,
            )[0].signaling_key,
        forall|i: int, j: int|
            0 <= i < j < selection(records, limit).len() ==> (#[trigger] selection(
                records,
                limit,
            )[i]).coordinator.id != (#[trigger] selection(records, limit)[j]).coordinator.id
                && selection(records, limit)[i].coordinator.addr != selection(
                records,
                limit,
            )[j].coordinator.addr,
{
    broadcast use vstd::seq_lib::group_to_multiset_ensures;

    let s = newest_first(records);
    let key = s[0].signaling_key;
    let c = chosen(s, key, s.len());
    lemma_newest_first(records);
    lemma_chosen(s, key, s.len());
    let sel = selection(records, limit);
    lemma_chosen_order(s, key, s.len());
    if limit >= 1 {
        assert(sel[0] == c[0]);
        assert forall|i: int| 0 <= i < records.len() implies (#[trigger] records[i]).expires
            <= sel[0].expires by {
            assert(records.to_multiset().contains(records[i]));
            assert(s.to_multiset().contains(records[i]));
            let k = s.index_of(records[i]);
            assert(s[k] == records[i]);
            assert(s[0].expires >= s[k].expires);
        }
    }
    assert forall|i: int, j: int| 0 <= i < j < sel.len() implies (#[trigger] sel[i]).expires >= (
    #[trigger] sel[j]).expires by {
        assert(sel[i] == c[i]);
        assert(sel[j] == c[j]);
    }
    assert forall|i: int| 0 <= i < sel.len() implies records.contains(#[trigger] sel[i])
        && sel[i].signaling_key == key by {
        assert(sel[i] == c[i]);
        assert(is_among(s, key, s.len(), c[i]));
        let k = choose|k: int|
            0 <= k < s.len() && is_chosen(s, key, k) && #[trigger] s[k] == c[i];
        assert(s.contains(s[k]));
        assert(s.to_multiset().contains(s[k]));
        assert(records.to_multiset().contains(s[k]));
    }
    assert forall|i: int, j: int| 0 <= i < j < sel.len() implies (
    #[trigger] sel[i]).coordinator.id != (#[trigger] sel[j]).coordinator.id
        && sel[i].coordinator.addr != sel[j].coordinator.addr by {
        assert(sel[i] == c[i]);
        assert(sel[j] == c[j]);
    }
}

/// How far a discovery is.
#[derive(Debug, Clone, Copy, PartialEq, Eq, Structural)]
pub enum Stage {
    /// The lookup is running.
    Looking,
    /// Nodes are about to be asked.
    Asking,
    /// Nodes were asked.
    Paging,
    /// It has ended.
    Ended,
}

/// A [`Discovery`] as a mathematical value.
#[verifier::ext_equal]
pub struct DiscoveryView {
    /// The public key of the peer looked for.
    pub peer: [u8; 32],
    /// The topic it registers at.
    pub target: NodeId,
    /// The lookup.
    pub query: u64,
    /// How many coordinators are of use.
    pub limit: nat,
    /// The peer's records found.
    pub records: Seq<Record>,
    /// Whether a node was left unanswered.
    pub incomplete: bool,
    /// How far it is.
    pub stage: Stage,
    /// The requests not answered yet.
    pub pending: Set<u64>,
}

/// What is to be done in a discovery.
#[derive(Debug)]
pub enum Discovered {
    /// Wait for the next event.
    Waiting,
    /// Ask each of these nodes for the peer's records.
    Ask(Vec<Contact>),
    /// It has ended.
    Done(Result<Vec<Record>, ConnectError>),
}

/// A [`Discovered`] as a mathematical value.
#[verifier::ext_equal]
pub enum DiscoveredView {
    /// Wait.
    Waiting,
    /// Ask each of these.
    Ask(Seq<Contact>),
    /// It has ended.
    Done(Result<Seq<Record>, ConnectError>),
}

impl View for Discovered {
    type V = DiscoveredView;

    open spec fn view(&self) -> DiscoveredView {
        match self {
            Discovered::Waiting => DiscoveredView::Waiting,
            Discovered::Ask(nodes) => DiscoveredView::Ask(nodes@),
            Discovered::Done(Ok(records)) => DiscoveredView::Done(Ok(records@)),
            Discovered::Done(Err(e)) => DiscoveredView::Done(Err(*e)),
        }
    }
}

/// A discovery with what a node gave added.
pub open spec fn gathered(v: DiscoveryView, found: Seq<Record>) -> DiscoveryView {
    DiscoveryView { records: v.records + kept(found, is_wanted(v.peer, v.target)), ..v }
}

/// A discovery that ends if no request is open.
pub open spec fn settled(v: DiscoveryView) -> (DiscoveryView, DiscoveredView) {
    if v.pending.is_empty() {
        (
            DiscoveryView { stage: Stage::Ended, ..v },
            DiscoveredView::Done(concluded(v.records, v.incomplete, v.limit)),
        )
    } else {
        (v, DiscoveredView::Waiting)
    }
}

/// What an event does to a discovery.
pub open spec fn after_event(v: DiscoveryView, event: Event) -> (DiscoveryView, DiscoveredView) {
    match (v.stage, event) {
        (Stage::Looking, Event::Providers { query, records }) => if query == v.query {
            (gathered(v, records@), DiscoveredView::Waiting)
        } else {
            (v, DiscoveredView::Waiting)
        },
        (Stage::Looking, Event::LookupDone { query, timed_out, closest }) => if query == v.query {
            let w = DiscoveryView { incomplete: timed_out, ..v };
            let nodes = still_to_ask(v.records, closest@, v.limit);
            if nodes.len() == 0 {
                (
                    DiscoveryView { stage: Stage::Ended, ..w },
                    DiscoveredView::Done(concluded(v.records, timed_out, v.limit)),
                )
            } else {
                (DiscoveryView { stage: Stage::Asking, ..w }, DiscoveredView::Ask(nodes))
            }
        } else {
            (v, DiscoveredView::Waiting)
        },
        (Stage::Paging, Event::ProviderPage { request, records }) => if v.pending.contains(
            request,
        ) {
            let w = gathered(v, records@);
            settled(DiscoveryView { pending: w.pending.remove(request), ..w })
        } else {
            (v, DiscoveredView::Waiting)
        },
        (Stage::Paging, Event::RpcTimedOut(request)) => if v.pending.contains(request) {
            settled(
                DiscoveryView { pending: v.pending.remove(request), incomplete: true, ..v },
            )
        } else {
            (v, DiscoveredView::Waiting)
        },
        _ => (v, DiscoveredView::Waiting),
    }
}

/// The search for a peer's registrations.
pub struct Discovery {
    peer: [u8; 32],
    target: NodeId,
    query: u64,
    limit: usize,
    records: Vec<Record>,
    incomplete: bool,
    stage: Stage,
    pending: HashSet<u64>,
}

impl View for Discovery {
    type V = DiscoveryView;

    closed spec fn view(&self) -> DiscoveryView {
        DiscoveryView {
            peer: self.peer,
            target: self.target,
            query: self.query,
            limit: self.limit as nat,
            records: self.records@,
            incomplete: self.incomplete,
            stage: self.stage,
            pending: self.pending@,
        }
    }
}

/// The topic a peer registers at: the hash of its public key.
pub fn topic_of(peer: &[u8; 32]) -> (r: NodeId)
    ensures
        r == id_of(blake3_digest(peer@)),
{
    NodeId::from_bytes(hash(peer))
}

impl Discovery {
    /// Begin, with the lookup of the peer's topic started as `query`; up to
    /// `limit` coordinators are of use.
    pub fn new(peer: [u8; 32], query: u64, limit: usize) -> (r: Self)
        ensures
            r@ == (DiscoveryView {
                peer,
                target: id_of(blake3_digest(peer@)),
                query,
                limit: limit as nat,
                records: Seq::empty(),
                incomplete: false,
                stage: Stage::Looking,
                pending: Set::empty(),
            }),
    {
        let target: NodeId = topic_of(&peer);
        Discovery {
            peer,
            target,
            query,
            limit,
            records: Vec::new(),
            incomplete: false,
            stage: Stage::Looking,
            pending: HashSet::new(),
        }
    }

    /// Where the nodes are to look from: just before the topic, so that the
    /// peer's own records come first.
    pub fn ask_after(&self) -> (r: Option<NodeId>)
        ensures
            match r {
                Some(p) => big_endian(p@) + 1 == big_endian(self@.target@),
                None => big_endian(self@.target@) == 0,
            },
    {
        predecessor(&self.target)
    }

    fn gather(&mut self, found: &Vec<Record>)
        ensures
            final(self)@ == gathered(old(self)@, found@),
    {
        let len: usize = found.len();
        let mut i: usize = 0;
        let ghost p = is_wanted(self.peer, self.target);
        assert(found@.take(0) =~= Seq::<Record>::empty());
        assert(self.records@ + kept(Seq::<Record>::empty(), p) =~= self.records@);
        while i < len
            invariant
                i <= len,
                len == found@.len(),
                p == is_wanted(old(self)@.peer, old(self)@.target),
                self@ == (DiscoveryView {
                    records: old(self)@.records + kept(found@.take(i as int), p),
                    ..old(self)@
                }),
            decreases len - i,
        {
            let r: Record = found[i];
            proof {
                assert(found@.take(i + 1).drop_last() =~= found@.take(i as int));
                assert(found@.take(i + 1).last() == r);
            }
            let ghost before = self.records@;
            if same_array(&r.provider, &self.peer) && r.topic == self.target {
                self.records.push(r);
                assert(self.records@ =~= old(self)@.records + kept(found@.take(i + 1), p));
            }
            i += 1;
        }
        assert(found@.take(len as int) =~= found@);
    }

    fn nodes_to_ask(&self, closest: &Vec<Contact>) -> (r: Vec<Contact>)
        ensures
            r@ == still_to_ask(self@.records, closest@, self@.limit),
    {
        let mut out: Vec<Contact> = Vec::new();
        if self.records.len() >= self.limit {
            return out;
        }
        let len: usize = closest.len();
        let mut i: usize = 0;
        let ghost p = gave_none(self.records@);
        assert(closest@.take(0) =~= Seq::<Contact>::empty());
        while i < len
            invariant
                i <= len,
                len == closest@.len(),
                p == gave_none(self.records@),
                out@ == kept(closest@.take(i as int), p),
            decreases len - i,
        {
            let c: Contact = closest[i];
            let mut gave: bool = false;
            let mut j: usize = 0;
            while !gave && j < self.records.len()
                invariant
                    j <= self.records@.len(),
                    !gave ==> forall|k: int|
                        0 <= k < j ==> (#[trigger] self.records@[k]).coordinator != c,
                    gave ==> exists|k: int|
                        0 <= k < self.records@.len() && (#[trigger] self.records@[k]).coordinator
                            == c,
                decreases self.records@.len() - j,
            {
                if same_contact(&self.records[j].coordinator, &c) {
                    assert(self.records@[j as int].coordinator == c);
                    gave = true;
                }
                j += 1;
            }
            proof {
                assert(closest@.take(i + 1).drop_last() =~= closest@.take(i as int));
                assert(closest@.take(i + 1).last() == c);
                assert(p(c) == !gave);
            }
            if !gave {
                out.push(c);
            }
            i += 1;
        }
        assert(closest@.take(len as int) =~= closest@);
        out
    }

    fn conclusion(&mut self) -> (r: Discovered)
        ensures
            final(self)@ == (DiscoveryView { stage: Stage::Ended, ..old(self)@ }),
            r@ == DiscoveredView::Done(
                concluded(old(self)@.records, old(self)@.incomplete, old(self)@.limit),
            ),
    {
        self.stage = Stage::Ended;
        Discovered::Done(conclude(&self.records, self.incomplete, self.limit))
    }

    fn settle(&mut self) -> (r: Discovered)
        ensures
            (final(self)@, r@) == settled(old(self)@),
    {
        if self.pending.is_empty() {
            self.conclusion()
        } else {
            Discovered::Waiting
        }
    }

    /// Take in an event.
    pub fn on_event(&mut self, event: &Event) -> (r: Discovered)
        ensures
            (final(self)@, r@) == after_event(old(self)@, *event),
    {
        match self.stage {
            Stage::Looking => match event {
                Event::Providers { query, records } => {
                    if *query == self.query {
                        self.gather(records);
                    }
                    Discovered::Waiting
                },
                Event::LookupDone { query, timed_out, closest } => {
                    if *query != self.query {
                        return Discovered::Waiting;
                    }
                    self.incomplete = *timed_out;
                    let nodes: Vec<Contact> = self.nodes_to_ask(closest);
                    if nodes.len() == 0 {
                        self.conclusion()
                    } else {
                        self.stage = Stage::Asking;
                        Discovered::Ask(nodes)
                    }
                },
                _ => Discovered::Waiting,
            },
            Stage::Paging => match event {
                Event::ProviderPage { request, records } => {
                    if !self.pending.contains(request) {
                        return Discovered::Waiting;
                    }
                    self.gather(records);
                    self.pending.remove(request);
                    self.settle()
                },
                Event::RpcTimedOut(request) => {
                    if !self.pending.contains(request) {
                        return Discovered::Waiting;
                    }
                    self.pending.remove(request);
                    self.incomplete = true;
                    self.settle()
                },
                _ => Discovered::Waiting,
            },
            _ => Discovered::Waiting,
        }
    }

    /// The nodes were asked, in these requests.
    pub fn on_asked(&mut self, requests: &Vec<u64>) -> (r: Discovered)
        ensures
            old(self)@.stage != Stage::Asking ==> final(self)@ == old(self)@ && r@
                == DiscoveredView::Waiting,
            old(self)@.stage == Stage::Asking ==> (final(self)@, r@) == settled(
                DiscoveryView {
                    stage: Stage::Paging,
                    pending: old(self)@.pending.union(requests@.to_set()),
                    ..old(self)@
                },
            ),
    {
        if self.stage != Stage::Asking {
            return Discovered::Waiting;
        }
        self.stage = Stage::Paging;
        let len: usize = requests.len();
        let mut i: usize = 0;
        assert(requests@.take(0).to_set() =~= Set::<u64>::empty());
        assert(self.pending@ =~= old(self)@.pending.union(requests@.take(0).to_set()));
        while i < len
            invariant
                i <= len,
                len == requests@.len(),
                self@ == (DiscoveryView {
                    stage: Stage::Paging,
                    pending: old(self)@.pending.union(requests@.take(i as int).to_set()),
                    ..old(self)@
                }),
            decreases len - i,
        {
            self.pending.insert(requests[i]);
            proof {
                let a = requests@.take(i as int);
                let b = requests@.take(i + 1);
                assert(b =~= a.push(requests@[i as int]));
                assert forall|x: u64| #[trigger] b.to_set().contains(x) <==> a.to_set().contains(
                    x,
                ) || x == requests@[i as int] by {
                    lemma_push_contains(a, requests@[i as int], x);
                }
                assert(self.pending@ =~= old(self)@.pending.union(b.to_set()));
            }
            i += 1;
        }
        assert(requests@.take(len as int) =~= requests@);
        self.settle()
    }
}

/// Whether all the records gathered are the peer's own.
pub open spec fn is_sound(v: DiscoveryView) -> bool {
    forall|i: int|
        0 <= i < v.records.len() ==> (#[trigger] v.records[i]).provider == v.peer
            && v.records[i].topic == v.target
}

/// A record published by another key, or elsewhere, is never gathered, whatever
/// nodes report; and what a discovery ends with is of the peer's own records.
pub proof fn law_other_publishers_are_ignored(v: DiscoveryView, event: Event)
    requires
        is_sound(v),
    ensures
        is_sound(after_event(v, event).0),
        after_event(v, event).1 matches DiscoveredView::Done(Ok(records)) ==> forall|i: int|
            0 <= i < records.len() ==> (#[trigger] records[i]).provider == v.peer
                && records[i].topic == v.target,
{
    let (w, out) = after_event(v, event);
    let p = is_wanted(v.peer, v.target);
    match event {
        Event::Providers { query, records } => {
            lemma_gathered_sound(v, records@);
        },
        Event::ProviderPage { request, records } => {
            lemma_gathered_sound(v, records@);
        },
        _ => {},
    }
    if let DiscoveredView::Done(Ok(records)) = out {
        law_selection(w.records, v.limit);
        assert forall|i: int| 0 <= i < records.len() implies (#[trigger] records[i]).provider
            == v.peer && records[i].topic == v.target by {
            assert(w.records.contains(records[i]));
        }
    }
}

proof fn lemma_gathered_sound(v: DiscoveryView, found: Seq<Record>)
    requires
        is_sound(v),
    ensures
        is_sound(gathered(v, found)),
{
    let p = is_wanted(v.peer, v.target);
    lemma_kept(found, p);
    let k = kept(found, p);
    let w = gathered(v, found);
    assert forall|i: int| 0 <= i < w.records.len() implies (#[trigger] w.records[i]).provider
        == v.peer && w.records[i].topic == v.target by {
        if i >= v.records.len() {
            assert(k.contains(k[i - v.records.len()]));
        }
    }
}

/// Where fewer coordinators are used than may be, none was passed over: of every record
/// with the signaling key in use, the coordinator is used, or another one at an address
/// which a record of that coordinator gives.
pub proof fn law_no_coordinator_is_passed_over(records: Seq<Record>, limit: nat, i: int)
    requires
        0 <= i < records.len(),
        selection(records, limit).len() < limit,
        records[i].signaling_key == selection(records, limit)[0].signaling_key,
    ensures
        exists|k: int|
            0 <= k < selection(records, limit).len() && ((#[trigger] selection(
                records,
                limit,
            )[k]).coordinator.id == records[i].coordinator.id || exists|q: int|
                0 <= q < records.len() && (#[trigger] records[q]).coordinator.id
                    == records[i].coordinator.id && records[q].coordinator.addr == selection(
                    records,
                    limit,
                )[k].coordinator.addr),
{
    broadcast use vstd::seq_lib::group_to_multiset_ensures;

    let s = newest_first(records);
    let key = s[0].signaling_key;
    lemma_newest_first(records);
    let c = chosen(s, key, s.len());
    let sel = selection(records, limit);
    assert(sel == c);
    lemma_chosen_order(s, key, s.len());
    assert(records.to_multiset().contains(records[i]));
    assert(s.to_multiset().contains(records[i]));
    let at = s.index_of(records[i]);
    assert(s[at] == records[i]);
    let f = lemma_first_record(s, key, at);
    let g = lemma_address_is_chosen(s, key, f);
    lemma_chosen_has(s, key, s.len(), g);
    let k = c.index_of(s[g]);
    assert(s.to_multiset().contains(s[f]));
    assert(records.to_multiset().contains(s[f]));
    let q = records.index_of(s[f]);
    assert(records[q] == s[f]);
    assert(sel[k] == s[g]);
}

proof fn lemma_first_record(s: Seq<Record>, key: [u8; 32], i: int) -> (f: int)
    requires
        0 <= i < s.len(),
        s[i].signaling_key == key,
    ensures
        0 <= f <= i,
        is_first_of_node(s, key, f),
        s[f].coordinator.id == s[i].coordinator.id,
    decreases i,
{
    if is_first_of_node(s, key, i) {
        i
    } else {
        let j = choose|j: int|
            0 <= j < i && (#[trigger] s[j]).signaling_key == key && s[j].coordinator.id
                == s[i].coordinator.id;
        lemma_first_record(s, key, j)
    }
}

proof fn lemma_address_is_chosen(s: Seq<Record>, key: [u8; 32], f: int) -> (g: int)
    requires
        0 <= f < s.len(),
        is_first_of_node(s, key, f),
    ensures
        0 <= g <= f,
        is_chosen(s, key, g),
        s[g].coordinator.addr == s[f].coordinator.addr,
    decreases f,
{
    if is_chosen(s, key, f) {
        f
    } else {
        let j = choose|j: int|
            0 <= j < f && #[trigger] is_first_of_node(s, key, j) && s[j].coordinator.addr
                == s[f].coordinator.addr;
        lemma_address_is_chosen(s, key, j)
    }
}

proof fn lemma_chosen_has(s: Seq<Record>, key: [u8; 32], n: nat, g: int)
    requires
        0 <= g < n,
        is_chosen(s, key, g),
    ensures
        chosen(s, key, n).contains(s[g]),
    decreases n,
{
    let m = (n - 1) as nat;
    let before = chosen(s, key, m);
    if g < m {
        lemma_chosen_has(s, key, m, g);
        lemma_push_contains(before, s[n - 1], s[g]);
    } else {
        lemma_push_contains(before, s[g], s[g]);
    }
}

/// A record of the peer's that a lookup or a node's page brings is gathered, and nothing
/// gathered is given up.
pub proof fn law_records_of_the_peer_are_gathered(v: DiscoveryView, event: Event, r: Record)
    requires
        match event {
            Event::Providers { query, records } => v.stage is Looking && query == v.query
                && records@.contains(r),
            Event::ProviderPage { request, records } => v.stage is Paging && v.pending.contains(
                request,
            ) && records@.contains(r),
            _ => false,
        },
    ensures
        r.provider == v.peer && r.topic == v.target ==> after_event(v, event).0.records.contains(r),
        forall|i: int|
            0 <= i < v.records.len() ==> after_event(v, event).0.records[i]
                == #[trigger] v.records[i],
        v.records.len() <= after_event(v, event).0.records.len(),
{
    let found = match event {
        Event::Providers { query, records } => records@,
        Event::ProviderPage { request, records } => records@,
        _ => Seq::empty(),
    };
    let more = kept(found, is_wanted(v.peer, v.target));
    lemma_kept(found, is_wanted(v.peer, v.target));
    if r.provider == v.peer && r.topic == v.target {
        assert(more.contains(r));
        let k = more.index_of(r);
        assert((v.records + more)[v.records.len() + k] == r);
    }
}

/// After a lookup that found too few records, every node among the closest that gave none
/// is asked, and no other; where there are enough records or nobody is left to ask, the
/// discovery ends.
pub proof fn law_those_who_gave_none_are_asked(
    v: DiscoveryView,
    timed_out: bool,
    closest: Vec<Contact>,
    c: Contact,
)
    requires
        v.stage is Looking,
        closest@.contains(c),
    ensures
        ({
            let out = after_event(v, Event::LookupDone { query: v.query, timed_out, closest });
            let gave = exists|i: int|
                0 <= i < v.records.len() && (#[trigger] v.records[i]).coordinator == c;
            &&& out.0.records == v.records
            &&& out.1 !is Waiting
            &&& out.1 is Done ==> out.0.stage is Ended
            &&& v.records.len() < v.limit && !gave ==> out.1 is Ask
            &&& v.records.len() >= v.limit ==> out.1 is Done
            &&& out.1 matches DiscoveredView::Ask(nodes) ==> (nodes.contains(c) <==> !gave)
        }),
{
    lemma_kept(closest@, gave_none(v.records));
    let nodes = kept(closest@, gave_none(v.records));
    assert(nodes.contains(c) <==> gave_none(v.records)(c));
}

/// Once a node answers or times out it is no longer waited for. The discovery ends with
/// the last of them, and only then.
pub proof fn law_discovery_ends_with_the_last_answer(
    v: DiscoveryView,
    event: Event,
    request: u64,
)
    requires
        v.stage is Paging,
        v.pending.contains(request),
        match event {
            Event::ProviderPage { request: r, .. } => r == request,
            Event::RpcTimedOut(r) => r == request,
            _ => false,
        },
    ensures
        ({
            let (w, out) = after_event(v, event);
            &&& !w.pending.contains(request)
            &&& forall|r: u64|
                r != request ==> (#[trigger] w.pending.contains(r) <==> v.pending.contains(r))
            &&& out is Done <==> forall|r: u64| #[trigger] v.pending.contains(r) ==> r == request
            &&& out is Done ==> w.stage is Ended
            &&& out !is Done ==> w.stage is Paging && out is Waiting
            &&& event is RpcTimedOut ==> w.incomplete
            &&& event is ProviderPage ==> w.incomplete == v.incomplete
        }),
{
    let rest = v.pending.remove(request);
    if rest.is_empty() {
        assert forall|r: u64| #[trigger] v.pending.contains(r) implies r == request by {
            assert(!rest.contains(r));
        }
    } else {
        let r = choose|r: u64| rest.contains(r);
        assert(rest =~= Set::empty() || exists|r: u64| rest.contains(r));
        assert(v.pending.contains(r));
    }
}

/// What answers another lookup or a request that is not waited for changes nothing.
pub proof fn law_strange_answers_are_ignored(v: DiscoveryView, event: Event)
    requires
        match event {
            Event::Providers { query, .. } => !(v.stage is Looking) || query != v.query,
            Event::LookupDone { query, .. } => !(v.stage is Looking) || query != v.query,
            Event::ProviderPage { request, .. } => !(v.stage is Paging) || !v.pending.contains(
                request,
            ),
            Event::RpcTimedOut(request) => !(v.stage is Paging) || !v.pending.contains(request),
            _ => true,
        },
    ensures
        after_event(v, event) == (v, DiscoveredView::Waiting),
{
}

/// A discovery without a record tells a peer that nobody knows from one that could not be
/// looked up; with a record it succeeds.
pub proof fn law_conclusion(records: Seq<Record>, incomplete: bool, limit: nat)
    ensures
        concluded(records, incomplete, limit) is Ok <==> records.len() > 0,
        records.len() == 0 && incomplete ==> concluded(records, incomplete, limit) == Err::<
            Seq<Record>,
            ConnectError,
        >(ConnectError::Dht(DhtError::TimedOut)),
        records.len() == 0 && !incomplete ==> concluded(records, incomplete, limit) == Err::<
            Seq<Record>,
            ConnectError,
        >(ConnectError::PeerNotFound),
{
}

/// An end of the notices ends a connection attempt, and so does missing some of them; what
/// else comes is passed on, and an error in receiving is passed over.
pub proof fn law_notices_are_passed_on(notice: Notice, r: Result<Option<Event>, ConnectError>)
    requires
        call_ensures(next_event, (notice,), r),
    ensures
        r is Err <==> notice is Stopped || notice is Closed || notice is Lagged,
        notice matches Notice::Dht(event) ==> r == Ok::<Option<Event>, ConnectError>(Some(event)),
        notice is IoError ==> r == Ok::<Option<Event>, ConnectError>(None),
        r matches Err(e) ==> match notice {
            Notice::Lagged(count) => e == ConnectError::Dht(DhtError::EventsLagged(count)),
            _ => e == ConnectError::Dht(DhtError::Closed),
        },
{
}

/// Every node that was asked is waited for; where none could be asked the discovery ends.
pub proof fn law_those_asked_are_waited_for(
    discovery: &mut Discovery,
    requests: Vec<u64>,
    r: Discovered,
    i: int,
)
    requires
        call_ensures(Discovery::on_asked, (discovery, &requests), r),
        old(discovery)@.stage is Asking,
        old(discovery)@.pending.is_empty(),
    ensures
        0 <= i < requests@.len() ==> final(discovery)@.pending.contains(requests@[i]) && r@
            is Waiting && final(discovery)@.stage is Paging,
        requests@.len() == 0 ==> r@ is Done && final(discovery)@.stage is Ended,
        forall|x: u64| #[trigger]
            final(discovery)@.pending.contains(x) ==> requests@.contains(x),
        final(discovery)@.records == old(discovery)@.records,
{
    let p = old(discovery)@.pending.union(requests@.to_set());
    if 0 <= i < requests@.len() {
        assert(requests@.to_set().contains(requests@[i]));
        assert(p.contains(requests@[i]));
    }
    if requests@.len() == 0 {
        assert(requests@.to_set() =~= Set::empty());
        assert(p =~= Set::empty());
    }
}

proof fn lemma_kept_joined(a: Seq<Record>, b: Seq<Record>, p: spec_fn(Record) -> bool)
    ensures
        kept(a + b, p) == kept(a, p) + kept(b, p),
    decreases b.len(),
{
    if b.len() == 0 {
        assert(a + b =~= a);
        assert(kept(a, p) + kept(b, p) =~= kept(a, p));
    } else {
        let rest = b.drop_last();
        lemma_kept_joined(a, rest, p);
        assert((a + b).drop_last() =~= a + rest);
        assert((a + b).last() == b.last());
        assert(kept(a + b, p) =~= kept(a, p) + kept(b, p));
    }
}

proof fn lemma_none_kept(s: Seq<Record>, p: spec_fn(Record) -> bool)
    requires
        forall|i: int| 0 <= i < s.len() ==> !p(#[trigger] s[i]),
    ensures
        kept(s, p) == Seq::<Record>::empty(),
    decreases s.len(),
{
    if s.len() > 0 {
        let rest = s.drop_last();
        assert forall|i: int| 0 <= i < rest.len() implies !p(#[trigger] rest[i]) by {
            assert(rest[i] == s[i]);
        }
        lemma_none_kept(rest, p);
        assert(s[s.len() - 1] == s.last());
    }
}

/// Records that expire together stay in the order in which they were found.
pub proof fn law_equal_records_stay_in_order(records: Seq<Record>, expires: u64)
    ensures
        kept(newest_first(records), |r: Record| r.expires == expires) == kept(
            records,
            |r: Record| r.expires == expires,
        ),
    decreases records.len(),
{
    let p = |r: Record| r.expires == expires;
    if records.len() > 0 {
        let rest = records.drop_last();
        let x = records.last();
        let sorted = newest_first(rest);
        law_equal_records_stay_in_order(rest, expires);
        lemma_newest_first(rest);
        lemma_first(sorted, |y: Record| y.expires < x.expires);
        let at = place(sorted, x);
        let (a, b) = (sorted.take(at), sorted.skip(at));
        assert(sorted =~= a + b);
        assert(sorted.insert(at, x) =~= (a + seq![x]) + b);
        lemma_kept_joined(a, b, p);
        lemma_kept_joined(a + seq![x], b, p);
        assert((a + seq![x]).drop_last() =~= a);
        if p(x) {
            assert forall|i: int| 0 <= i < b.len() implies !p(#[trigger] b[i]) by {
                assert(b[i] == sorted[at + i]);
                if i > 0 {
                    assert(sorted[at].expires >= sorted[at + i].expires);
                }
            }
            lemma_none_kept(b, p);
            assert(kept(a + seq![x], p) == kept(a, p).push(x));
            assert(kept(newest_first(records), p) =~= kept(rest, p).push(x));
        }
    }
}

} // verus!
