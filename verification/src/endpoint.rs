//! Connections dialed by public key, and the decisions they take.
//!
//! A listener registers its public key and takes offers; a dialer signals an
//! offer and waits for the answer. Both then try the candidates directly: an
//! unreachable network is an explicit failure, and there is no fallback through
//! another node. Sockets, timers and the discovery network itself are not here:
//! these functions are told what happened and say what follows.
use crate::addr::SocketAddr;
use crate::bytes::{append, copy_of, part, same_array};
use crate::candidates::{
    can_offer, decode_candidates, encode_candidates, law_candidates_roundtrip, offer_bytes,
    plain_list, read_offer,
};
use crate::discovery::{same_contact, ConnectError, DhtError, Event, Signal};
use crate::id::NodeId;
use crate::lists::{kept, lemma_kept};
use crate::routing::{at_most, Contact};
use crate::transfer::IoKind;
use vstd::prelude::*;

verus! {

/// How many connections may be set up at once, and how many offers or datagrams
/// may wait.
pub const CAPACITY: usize = 32;

/// The most nodes a caller may name to start from.
pub const MAX_SEEDS: usize = 8;

/// The longest a connection attempt may be allowed to take, in nanoseconds.
pub const MAX_DEADLINE: u128 = 120_000_000_000;

/// How often an idle connection is kept alive, in nanoseconds.
pub const KEEPALIVE: u128 = 15_000_000_000;

/// After how long a silent peer is taken for dead, in nanoseconds.
pub const DEAD_PEER: u128 = 90_000_000_000;

/// Timing of connection attempts, in nanoseconds.
#[derive(Debug, Clone, Copy, PartialEq, Eq, Structural)]
pub struct Config {
    /// Bounds discovery, signaling, punching and authentication together.
    pub deadline: u128,
    /// How long the candidates are tried.
    pub punch_overall: u128,
    /// How long to wait between probes.
    pub probe_interval: u128,
}

impl Config {
    /// Whether the configuration can be used.
    pub open spec fn is_valid(&self) -> bool {
        0 < self.deadline <= MAX_DEADLINE && self.punch_overall > 0 && self.probe_interval > 0
    }

    /// Check the configuration.
    pub fn validate(&self) -> (r: Result<(), ConnectError>)
        ensures
            r == (if self.is_valid() {
                Ok::<(), ConnectError>(())
            } else {
                Err(ConnectError::InvalidConfig)
            }),
    {
        if self.deadline == 0 || self.deadline > MAX_DEADLINE || self.punch_overall == 0
            || self.probe_interval == 0 {
            return Err(ConnectError::InvalidConfig);
        }
        Ok(())
    }
}

/// Check that an endpoint may start to listen from this many nodes.
pub fn may_listen(seeds: usize, listening: bool) -> (r: Result<(), ConnectError>)
    ensures
        r == (if seeds > MAX_SEEDS {
            Err::<(), ConnectError>(ConnectError::InvalidConfig)
        } else if listening {
            Err(ConnectError::AlreadyListening)
        } else {
            Ok(())
        }),
{
    if seeds > MAX_SEEDS {
        Err(ConnectError::InvalidConfig)
    } else if listening {
        Err(ConnectError::AlreadyListening)
    } else {
        Ok(())
    }
}

/// The nodes to learn our address from once a coordinator acknowledged our
/// registration: it first, and no node twice.
pub open spec fn reflected(known: Seq<Contact>, c: Contact, limit: nat) -> Seq<Contact> {
    at_most(seq![c] + kept(known, |x: Contact| x.id != c.id), limit)
}

/// Whether a signal is an offer to us that could be taken.
pub open spec fn is_offer(id: NodeId, signal: Signal) -> bool {
    signal.recipient == id && !signal.answer && read_offer(signal.payload@, false) is Some
}

/// A [`Listening`] as a mathematical value.
#[verifier::ext_equal]
pub struct ListeningView {
    /// Our id, which is our topic.
    pub id: NodeId,
    /// Our public key.
    pub public_key: [u8; 32],
    /// How many coordinators are of use.
    pub limit: nat,
    /// The generation of the local network.
    pub generation: u64,
    /// The nodes to learn our address from.
    pub reflectors: Seq<Contact>,
    /// Whether a registration has been acknowledged.
    pub registered: bool,
}

/// What an event is to a listener.
#[derive(Debug, Clone, Copy, PartialEq, Eq, Structural)]
pub enum Heard {
    /// Nothing to act on.
    Nothing,
    /// The first registration was acknowledged: the listener is ready.
    Ready,
    /// An offer to queue, made in this generation of the local network.
    Offer(u64),
}

/// What an event does to a listener, given whether the author of an offer is
/// authorized.
pub open spec fn after_heard(v: ListeningView, event: Event, authorized: bool) -> (
    ListeningView,
    Heard,
) {
    match event {
        Event::NetworkChanged(epoch) => (
            ListeningView { generation: epoch, reflectors: Seq::empty(), ..v },
            Heard::Nothing,
        ),
        Event::Registered(record) => if record.topic == v.id && record.provider == v.public_key {
            (
                ListeningView {
                    reflectors: reflected(v.reflectors, record.coordinator, v.limit),
                    registered: true,
                    ..v
                },
                if v.registered {
                    Heard::Nothing
                } else {
                    Heard::Ready
                },
            )
        } else {
            (v, Heard::Nothing)
        },
        Event::Incoming { coordinator, signal } => if is_offer(v.id, signal) && authorized {
            (v, Heard::Offer(v.generation))
        } else {
            (v, Heard::Nothing)
        },
        _ => (v, Heard::Nothing),
    }
}

/// The listening side of an endpoint.
pub struct Listening {
    id: NodeId,
    public_key: [u8; 32],
    limit: usize,
    generation: u64,
    reflectors: Vec<Contact>,
    registered: bool,
}

impl View for Listening {
    type V = ListeningView;

    closed spec fn view(&self) -> ListeningView {
        ListeningView {
            id: self.id,
            public_key: self.public_key,
            limit: self.limit as nat,
            generation: self.generation,
            reflectors: self.reflectors@,
            registered: self.registered,
        }
    }
}

fn reflect(known: &Vec<Contact>, c: Contact, limit: usize) -> (r: Vec<Contact>)
    ensures
        r@ == reflected(known@, c, limit as nat),
{
    let mut out: Vec<Contact> = Vec::new();
    out.push(c);
    let len: usize = known.len();
    let ghost p = |x: Contact| x.id != c.id;
    let mut i: usize = 0;
    assert(known@.take(0) =~= Seq::<Contact>::empty());
    assert(out@ =~= seq![c] + kept(known@.take(0), p));
    while i < len
        invariant
            i <= len,
            len == known@.len(),
            p == (|x: Contact| x.id != c.id),
            out@ == seq![c] + kept(known@.take(i as int), p),
        decreases len - i,
    {
        let x: Contact = known[i];
        proof {
            assert(known@.take(i + 1).drop_last() =~= known@.take(i as int));
            assert(known@.take(i + 1).last() == x);
        }
        if x.id != c.id {
            out.push(x);
            assert(out@ =~= seq![c] + kept(known@.take(i + 1), p));
        }
        i += 1;
    }
    assert(known@.take(len as int) =~= known@);
    let ghost all = out@;
    if out.len() > limit {
        out.truncate(limit);
    }
    assert(out@ =~= at_most(all, limit as nat));
    out
}

impl Listening {
    /// Begin to listen in a generation of the local network.
    pub fn new(id: NodeId, public_key: [u8; 32], generation: u64, limit: usize) -> (r: Self)
        ensures
            r@ == (ListeningView {
                id,
                public_key,
                limit: limit as nat,
                generation,
                reflectors: Seq::empty(),
                registered: false,
            }),
    {
        Listening {
            id,
            public_key,
            limit,
            generation,
            reflectors: Vec::new(),
            registered: false,
        }
    }

    /// The nodes to learn our address from.
    pub fn reflectors(&self) -> (r: &Vec<Contact>)
        ensures
            r@ == self@.reflectors,
    {
        &self.reflectors
    }

    /// Whether a registration has been acknowledged. Until then a failure is the
    /// failure to listen at all.
    pub fn is_registered(&self) -> (r: bool)
        ensures
            r == self@.registered,
    {
        self.registered
    }

    /// Take in an event, and whether the author of an offer is authorized.
    pub fn on_event(&mut self, event: &Event, authorized: bool) -> (r: Heard)
        ensures
            (final(self)@, r) == after_heard(old(self)@, *event, authorized),
    {
        match event {
            Event::NetworkChanged(epoch) => {
                self.generation = *epoch;
                self.reflectors = Vec::new();
                Heard::Nothing
            },
            Event::Registered(record) => {
                if record.topic == self.id && same_array(&record.provider, &self.public_key) {
                    self.reflectors = reflect(&self.reflectors, record.coordinator, self.limit);
                    let was: bool = self.registered;
                    self.registered = true;
                    if was {
                        Heard::Nothing
                    } else {
                        Heard::Ready
                    }
                } else {
                    Heard::Nothing
                }
            },
            Event::Incoming { signal, .. } => {
                if signal.recipient == self.id && !signal.answer && authorized {
                    if let Some(_) = decode_candidates(signal.payload.as_slice(), false) {
                        return Heard::Offer(self.generation);
                    }
                }
                Heard::Nothing
            },
            _ => Heard::Nothing,
        }
    }
}

/// Whether no node is listed twice.
pub open spec fn ids_distinct(s: Seq<Contact>) -> bool {
    forall|i: int, j: int| 0 <= i < j < s.len() ==> (#[trigger] s[i]).id != (#[trigger] s[j]).id
}

/// The nodes to learn an address from stay distinct and few.
pub proof fn law_reflectors_stay_distinct(v: ListeningView, event: Event, authorized: bool)
    requires
        ids_distinct(v.reflectors),
        v.reflectors.len() <= v.limit,
    ensures
        ids_distinct(after_heard(v, event, authorized).0.reflectors),
        after_heard(v, event, authorized).0.reflectors.len() <= v.limit,
{
    if let Event::Registered(record) = event {
        let c = record.coordinator;
        let p = |x: Contact| x.id != c.id;
        let k = kept(v.reflectors, p);
        crate::lists::lemma_kept(v.reflectors, p);
        lemma_kept_distinct(v.reflectors, p);
        let all = seq![c] + k;
        assert forall|i: int, j: int| 0 <= i < j < all.len() implies (#[trigger] all[i]).id != (
        #[trigger] all[j]).id by {
            assert(k.contains(k[j - 1]));
            if i > 0 {
                assert(k[i - 1].id != k[j - 1].id);
            }
        }
    }
}

proof fn lemma_kept_distinct(s: Seq<Contact>, p: spec_fn(Contact) -> bool)
    requires
        ids_distinct(s),
    ensures
        ids_distinct(kept(s, p)),
    decreases s.len(),
{
    if s.len() > 0 {
        let rest = s.drop_last();
        assert(ids_distinct(rest)) by {
            assert forall|i: int, j: int| 0 <= i < j < rest.len() implies (#[trigger] rest[i]).id
                != (#[trigger] rest[j]).id by {
                assert(rest[i] == s[i] && rest[j] == s[j]);
            }
        }
        lemma_kept_distinct(rest, p);
        crate::lists::lemma_kept(rest, p);
        let k = kept(rest, p);
        let out = kept(s, p);
        assert forall|i: int, j: int| 0 <= i < j < out.len() implies (#[trigger] out[i]).id != (
        #[trigger] out[j]).id by {
            if j < k.len() {
                assert(k[i].id != k[j].id);
            } else {
                assert(k.contains(k[i]));
                let at = rest.index_of(k[i]);
                assert(s[at] == k[i]);
                assert(s[at].id != s[s.len() - 1].id);
            }
        }
    }
}

/// An offer from an author who is not authorized is dropped, and so is one made
/// to another or that cannot be read.
pub proof fn law_only_authorized_offers_are_queued(
    v: ListeningView,
    event: Event,
    authorized: bool,
)
    requires
        after_heard(v, event, authorized).1 is Offer,
    ensures
        authorized,
        event is Incoming,
        is_offer(v.id, event->signal),
        after_heard(v, event, authorized).0 == v,
{
}

/// An offer that is taken up.
#[derive(Debug)]
pub struct Accepting {
    /// The public key of the dialer.
    pub peer: [u8; 32],
    /// The session.
    pub session: [u8; 32],
    /// Where the dialer may be reached.
    pub candidates: Vec<SocketAddr>,
    /// The nodes to learn our address from.
    pub reflectors: Vec<Contact>,
}

/// What becomes of an offer taken from the queue.
#[derive(Debug)]
pub enum Considered {
    /// The local network has changed since: drop it, and take the next.
    Stale,
    /// It is refused.
    Refused(ConnectError),
    /// It is taken up.
    Accepted(Accepting),
}

/// The nodes to learn our address from, with the coordinator of an offer.
pub open spec fn with_coordinator(known: Seq<Contact>, c: Contact, limit: nat) -> Seq<Contact> {
    at_most(
        if known.contains(c) {
            known
        } else {
            known.push(c)
        },
        limit,
    )
}

fn add_coordinator(known: &Vec<Contact>, c: Contact, limit: usize) -> (r: Vec<Contact>)
    ensures
        r@ == with_coordinator(known@, c, limit as nat),
{
    let mut out: Vec<Contact> = crate::lists::copied(known);
    let len: usize = known.len();
    let mut holds: bool = false;
    let mut i: usize = 0;
    while i < len
        invariant
            i <= len,
            len == known@.len(),
            holds == known@.take(i as int).contains(c),
        decreases len - i,
    {
        proof {
            assert(known@.take(i + 1) =~= known@.take(i as int).push(known@[i as int]));
            crate::lists::lemma_push_contains(known@.take(i as int), known@[i as int], c);
        }
        if same_contact(&known[i], &c) {
            holds = true;
        }
        i += 1;
    }
    assert(known@.take(len as int) =~= known@);
    if !holds {
        out.push(c);
    }
    let ghost all = out@;
    if out.len() > limit {
        out.truncate(limit);
    }
    assert(out@ =~= at_most(all, limit as nat));
    out
}

/// What becomes of an offer taken from the queue, which came through
/// `coordinator` when the local network was in the generation `made`.
pub fn consider(
    signal: &Signal,
    coordinator: Contact,
    made: u64,
    current: u64,
    authorized: bool,
    has_room: bool,
    known: &Vec<Contact>,
    limit: usize,
) -> (r: Considered)
    ensures
        match r {
            Considered::Stale => made != current,
            Considered::Refused(e) => made == current && e == (if !authorized {
                ConnectError::Unauthorized
            } else if !has_room {
                ConnectError::Busy
            } else {
                ConnectError::InvalidCandidates
            }) && (authorized && has_room ==> read_offer(signal.payload@, false) is None),
            Considered::Accepted(a) => {
                &&& made == current && authorized && has_room
                &&& a.peer == signal.author
                &&& a.session == signal.session
                &&& read_offer(signal.payload@, false) == Some(a.candidates@)
                &&& a.reflectors@ == with_coordinator(known@, coordinator, limit as nat)
            },
        },
{
    if made != current {
        return Considered::Stale;
    }
    if !authorized {
        return Considered::Refused(ConnectError::Unauthorized);
    }
    if !has_room {
        return Considered::Refused(ConnectError::Busy);
    }
    match decode_candidates(signal.payload.as_slice(), false) {
        None => Considered::Refused(ConnectError::InvalidCandidates),
        Some(candidates) => Considered::Accepted(
            Accepting {
                peer: signal.author,
                session: signal.session,
                candidates,
                reflectors: add_coordinator(known, coordinator, limit),
            },
        ),
    }
}

/// Whether a listener goes on to the next offer after a failure: the local
/// network changed under it, or the session is gone.
pub fn retry_accept(e: &ConnectError) -> (r: bool)
    ensures
        r == (*e == ConnectError::Dht(DhtError::NetworkChanged) || *e == ConnectError::Dht(
            DhtError::UnknownSession,
        )),
{
    *e == ConnectError::Dht(DhtError::NetworkChanged) || *e == ConnectError::Dht(
        DhtError::UnknownSession,
    )
}

/// The payload of an offer or an answer that names our candidates.
pub fn signal_payload(candidates: &[SocketAddr], answer: bool) -> (r: Result<
    Vec<u8>,
    ConnectError,
>)
    ensures
        can_offer(candidates@) ==> r is Ok && r->Ok_0@ == offer_bytes(candidates@, answer),
        !can_offer(candidates@) ==> r == Err::<Vec<u8>, ConnectError>(
            ConnectError::InvalidCandidates,
        ),
{
    match encode_candidates(candidates, answer) {
        Some(bytes) => Ok(bytes),
        None => Err(ConnectError::InvalidCandidates),
    }
}

/// What an event is to a dialer that waits for the answer of `peer` in a session.
pub open spec fn dialer_hears(peer: [u8; 32], session: [u8; 32], event: Event) -> Option<
    Result<Seq<SocketAddr>, ConnectError>,
> {
    match event {
        Event::Answered(signal) => if signal.session == session && signal.author == peer {
            match read_offer(signal.payload@, true) {
                Some(list) => Some(Ok(list)),
                None => Some(Err(ConnectError::InvalidCandidates)),
            }
        } else {
            None
        },
        Event::SignalTimedOut(id) => if id == session {
            Some(Err(ConnectError::SignalingTimedOut))
        } else {
            None
        },
        _ => None,
    }
}

/// What an event is to a dialer: nothing, the candidates of the peer, or the end.
pub fn on_answer(peer: &[u8; 32], session: &[u8; 32], event: &Event) -> (r: Option<
    Result<Vec<SocketAddr>, ConnectError>,
>)
    ensures
        match dialer_hears(*peer, *session, *event) {
            None => r is None,
            Some(Ok(list)) => r is Some && r->Some_0 is Ok && r->Some_0->Ok_0@ == list,
            Some(Err(e)) => r is Some && r->Some_0 is Err && r->Some_0->Err_0 == e,
        },
{
    match event {
        Event::Answered(signal) => {
            if same_array(&signal.session, session) && same_array(&signal.author, peer) {
                match decode_candidates(signal.payload.as_slice(), true) {
                    Some(list) => Some(Ok(list)),
                    None => Some(Err(ConnectError::InvalidCandidates)),
                }
            } else {
                None
            }
        },
        Event::SignalTimedOut(id) => {
            if same_array(id, session) {
                Some(Err(ConnectError::SignalingTimedOut))
            } else {
                None
            }
        },
        _ => None,
    }
}

/// What a dialer signals, the listener it signals to reads: its candidates, in
/// their plain form.
pub proof fn law_offer_reaches_the_listener(
    candidates: Seq<SocketAddr>,
    signal: Signal,
    v: ListeningView,
)
    requires
        can_offer(candidates),
        signal.payload@ == offer_bytes(candidates, false),
        signal.recipient == v.id,
        !signal.answer,
    ensures
        is_offer(v.id, signal),
        read_offer(signal.payload@, false) == Some(plain_list(candidates)),
{
    law_candidates_roundtrip(candidates, false);
}

/// What a listener answers, the dialer that waits for it reads.
pub proof fn law_answer_reaches_the_dialer(
    candidates: Seq<SocketAddr>,
    signal: Signal,
    peer: [u8; 32],
)
    requires
        can_offer(candidates),
        signal.payload@ == offer_bytes(candidates, true),
        signal.author == peer,
    ensures
        dialer_hears(peer, signal.session, Event::Answered(signal)) == Some(
            Ok::<Seq<SocketAddr>, ConnectError>(plain_list(candidates)),
        ),
{
    law_candidates_roundtrip(candidates, true);
}

/// An answer by anyone but the peer that was dialed is ignored.
pub proof fn law_only_the_dialed_peer_answers(
    signal: Signal,
    peer: [u8; 32],
    session: [u8; 32],
)
    requires
        signal.author != peer || signal.session != session,
    ensures
        dialer_hears(peer, session, Event::Answered(signal)) is None,
{
}

/// Whether trying the candidates found a direct path. There is no other.
pub fn direct_path(found: bool) -> (r: Result<(), ConnectError>)
    ensures
        r == (if found {
            Ok::<(), ConnectError>(())
        } else {
            Err(ConnectError::DirectUnavailable)
        }),
{
    if found {
        Ok(())
    } else {
        Err(ConnectError::DirectUnavailable)
    }
}

/// How a connection attempt stands.
#[derive(Debug, Clone, Copy, PartialEq, Eq, Structural)]
pub enum Guarded {
    /// It goes on.
    Running,
    /// It has come to its own end.
    Finished,
    /// It was ended from outside.
    Failed(ConnectError),
}

/// How a connection attempt stands: a change of the local network ends it whether
/// or not it has finished; if it has, neither a stop nor the deadline does.
pub fn guarded(changed: bool, finished: bool, stopped: bool, expired: bool) -> (r: Guarded)
    ensures
        r == (if changed {
            Guarded::Failed(ConnectError::Dht(DhtError::NetworkChanged))
        } else if finished {
            Guarded::Finished
        } else if stopped {
            Guarded::Failed(ConnectError::Dht(DhtError::Closed))
        } else if expired {
            Guarded::Failed(ConnectError::Deadline)
        } else {
            Guarded::Running
        }),
{
    if changed {
        Guarded::Failed(ConnectError::Dht(DhtError::NetworkChanged))
    } else if finished {
        Guarded::Finished
    } else if stopped {
        Guarded::Failed(ConnectError::Dht(DhtError::Closed))
    } else if expired {
        Guarded::Failed(ConnectError::Deadline)
    } else {
        Guarded::Running
    }
}

/// What a frame inside an authenticated connection is.
#[derive(Debug, Clone, PartialEq, Eq)]
pub enum Frame {
    /// A payload for the application.
    Payload(Vec<u8>),
    /// The peer asks whether we are there: say so.
    Ping,
    /// The peer is there.
    Pong,
    /// No frame at all: the connection is broken.
    Invalid,
}

/// A [`Frame`] as a mathematical value.
#[verifier::ext_equal]
pub enum FrameView {
    /// A payload.
    Payload(Seq<u8>),
    /// Are we there?
    Ping,
    /// The peer is there.
    Pong,
    /// No frame.
    Invalid,
}

impl View for Frame {
    type V = FrameView;

    open spec fn view(&self) -> FrameView {
        match self {
            Frame::Payload(p) => FrameView::Payload(p@),
            Frame::Ping => FrameView::Ping,
            Frame::Pong => FrameView::Pong,
            Frame::Invalid => FrameView::Invalid,
        }
    }
}

/// A frame read.
pub open spec fn read_frame(s: Seq<u8>) -> FrameView {
    if s.len() > 0 && s[0] == 0 {
        FrameView::Payload(s.skip(1))
    } else if s == seq![1u8] {
        FrameView::Ping
    } else if s == seq![2u8] {
        FrameView::Pong
    } else {
        FrameView::Invalid
    }
}

/// What is due in a connection.
#[derive(Debug, Clone, Copy, PartialEq, Eq, Structural)]
pub enum Due {
    /// The peer stopped responding: the connection is over.
    Dead,
    /// A keepalive is to be sent.
    Beat,
    /// Nothing before this time.
    Wait(u128),
}

/// The receiving side of a connection: when the peer was last heard, and when to
/// send the next keepalive.
#[derive(Debug, Clone, Copy, PartialEq, Eq, Structural)]
pub struct Receiving {
    /// When a valid frame last arrived, in nanoseconds.
    pub last_received: u128,
    /// When the next keepalive is due.
    pub next_beat: u128,
}

/// What is due of a connection at a time, and the connection from then on.
pub open spec fn at_time(v: Receiving, now: u128) -> (Receiving, Due) {
    if now >= v.last_received + DEAD_PEER {
        (v, Due::Dead)
    } else if now >= v.next_beat {
        (Receiving { next_beat: (now + KEEPALIVE) as u128, ..v }, Due::Beat)
    } else if v.next_beat <= v.last_received + DEAD_PEER {
        (v, Due::Wait(v.next_beat))
    } else {
        (v, Due::Wait((v.last_received + DEAD_PEER) as u128))
    }
}

impl Receiving {
    /// A connection set up at a time.
    pub fn new(now: u128) -> (r: Self)
        requires
            now + DEAD_PEER <= u128::MAX,
        ensures
            r == (Receiving { last_received: now, next_beat: (now + KEEPALIVE) as u128 }),
    {
        Receiving { last_received: now, next_beat: now + KEEPALIVE }
    }

    /// Take in a frame that arrived at a time. Any valid frame shows that the
    /// peer is alive; an invalid one ends the connection and shows nothing.
    pub fn on_frame(&mut self, now: u128, bytes: &[u8]) -> (r: Frame)
        ensures
            r@ == read_frame(bytes@),
            *final(self) == (Receiving {
                last_received: if read_frame(bytes@) is Invalid {
                    old(self).last_received
                } else {
                    now
                },
                ..*old(self)
            }),
    {
        let len: usize = bytes.len();
        if len == 0 {
            return Frame::Invalid;
        }
        if bytes[0] == 0 {
            self.last_received = now;
            let rest: &[u8] = part(bytes, 1, len);
            assert(rest@ =~= bytes@.skip(1));
            return Frame::Payload(copy_of(rest));
        }
        if len == 1 && bytes[0] == 1 {
            self.last_received = now;
            assert(bytes@ =~= seq![1u8]);
            return Frame::Ping;
        }
        if len == 1 && bytes[0] == 2 {
            self.last_received = now;
            assert(bytes@ =~= seq![2u8]);
            return Frame::Pong;
        }
        Frame::Invalid
    }

    /// What is due at a time. A keepalive that is due is taken to be sent.
    pub fn on_time(&mut self, now: u128) -> (r: Due)
        requires
            now + DEAD_PEER <= u128::MAX,
        ensures
            if now >= old(self).last_received + DEAD_PEER {
                r == Due::Dead && *final(self) == *old(self)
            } else if now >= old(self).next_beat {
                r == Due::Beat && *final(self) == (Receiving {
                    next_beat: (now + KEEPALIVE) as u128,
                    ..*old(self)
                })
            } else {
                *final(self) == *old(self) && r == Due::Wait(
                    if old(self).next_beat <= old(self).last_received + DEAD_PEER {
                        old(self).next_beat
                    } else {
                        (old(self).last_received + DEAD_PEER) as u128
                    },
                )
            },
            (*final(self), r) == at_time(*old(self), now),
    {
        if now >= self.last_received && now - self.last_received >= DEAD_PEER {
            return Due::Dead;
        }
        if now >= self.next_beat {
            self.next_beat = now + KEEPALIVE;
            return Due::Beat;
        }
        if self.next_beat < self.last_received || self.next_beat - self.last_received
            <= DEAD_PEER {
            Due::Wait(self.next_beat)
        } else {
            Due::Wait(self.last_received + DEAD_PEER)
        }
    }
}

/// The answer to a keepalive, and the keepalive itself.
pub fn keepalive_frame(answer: bool) -> (r: Vec<u8>)
    ensures
        read_frame(r@) == (if answer {
            FrameView::Pong
        } else {
            FrameView::Ping
        }),
        r@.len() == 1,
{
    let mut r: Vec<u8> = Vec::new();
    if answer {
        r.push(2);
        assert(r@ =~= seq![2u8]);
    } else {
        r.push(1);
        assert(r@ =~= seq![1u8]);
    }
    r
}

/// The largest payload a connection may carry over a link: one byte tells
/// payloads from keepalives.
pub fn connection_payload(link: usize) -> (r: usize)
    requires
        link >= 1,
    ensures
        r == link - 1,
{
    link - 1
}

/// A payload framed for a connection that may carry up to `max` bytes.
pub fn frame_payload(payload: &[u8], max: usize) -> (r: Result<Vec<u8>, IoKind>)
    ensures
        if payload@.len() > max {
            r == Err::<Vec<u8>, IoKind>(IoKind::InvalidInput)
        } else {
            r is Ok && r->Ok_0@ == seq![0u8] + payload@
        },
{
    if payload.len() > max {
        return Err(IoKind::InvalidInput);
    }
    let mut frame: Vec<u8> = Vec::new();
    frame.push(0);
    append(&mut frame, payload);
    assert(frame@ =~= seq![0u8] + payload@);
    Ok(frame)
}

/// A payload framed is read back, and is never taken for a keepalive.
pub proof fn law_payload_roundtrip(payload: Seq<u8>)
    ensures
        read_frame(seq![0u8] + payload) == FrameView::Payload(payload),
{
    assert((seq![0u8] + payload).skip(1) =~= payload);
}

/// Whether a connection set up in one generation of the local network may still
/// be used: after a change a fresh one has to be authenticated.
pub fn still_connected(made: u64, current: u64) -> (r: Result<(), IoKind>)
    ensures
        r == (if made == current {
            Ok::<(), IoKind>(())
        } else {
            Err(IoKind::ConnectionAborted)
        }),
{
    if made == current {
        Ok(())
    } else {
        Err(IoKind::ConnectionAborted)
    }
}

/// Whether a datagram fits the buffer it is received into.
pub fn fits(len: usize, room: usize) -> (r: Result<(), IoKind>)
    ensures
        r == (if len <= room {
            Ok::<(), IoKind>(())
        } else {
            Err(IoKind::InvalidInput)
        }),
{
    if len <= room {
        Ok(())
    } else {
        Err(IoKind::InvalidInput)
    }
}

/// An endpoint whose network changed, waiting to be registered again.
#[derive(Debug, Clone, Copy)]
pub struct Rebinding {
    /// Its id, which is its topic.
    pub id: NodeId,
    /// Its public key.
    pub public_key: [u8; 32],
    /// Whether the change has been reported.
    pub changed: bool,
}

/// What an event tells an endpoint whose network changed: whether it is registered again,
/// and the endpoint from then on.
pub open spec fn rebound(v: Rebinding, event: Event) -> (Rebinding, bool) {
    match event {
        Event::NetworkChanged(_) => (Rebinding { changed: true, ..v }, false),
        Event::Registered(record) => (
            v,
            v.changed && record.topic == v.id && record.provider == v.public_key,
        ),
        _ => (v, false),
    }
}

impl Rebinding {
    /// Begin to wait.
    pub fn new(id: NodeId, public_key: [u8; 32]) -> (r: Self)
        ensures
            r == (Rebinding { id, public_key, changed: false }),
    {
        Rebinding { id, public_key, changed: false }
    }

    /// Take in an event: whether it acknowledges a registration of ours made
    /// after the change.
    pub fn on_event(&mut self, event: &Event) -> (r: bool)
        ensures
            r == (old(self).changed && (event matches Event::Registered(record) && record.topic
                == old(self).id && record.provider == old(self).public_key)),
            *final(self) == (Rebinding {
                changed: old(self).changed || event is NetworkChanged,
                ..*old(self)
            }),
            (*final(self), r) == rebound(*old(self), *event),
    {
        match event {
            Event::NetworkChanged(_) => {
                self.changed = true;
                false
            },
            Event::Registered(record) => self.changed && record.topic == self.id && same_array(
                &record.provider,
                &self.public_key,
            ),
            _ => false,
        }
    }
}

/// A peer is dead exactly once nothing has come from it for so long; until then a
/// keepalive is sent when it is due, and the next is due an interval later.
pub proof fn law_silent_peer_is_dead(v: Receiving, now: u128)
    requires
        v.last_received + DEAD_PEER <= u128::MAX,
        now + DEAD_PEER <= u128::MAX,
    ensures
        at_time(v, now).1 is Dead <==> now - v.last_received >= DEAD_PEER,
        at_time(v, now).1 is Beat <==> now - v.last_received < DEAD_PEER && now >= v.next_beat,
        at_time(v, now).1 is Beat ==> at_time(v, now).0.next_beat == now + KEEPALIVE,
        at_time(v, now).0.last_received == v.last_received,
        !(at_time(v, now).1 is Beat) ==> at_time(v, now).0 == v,
{
}

/// A wait ends when the next thing is due: nothing is due before, and something is then.
pub proof fn law_wait_ends_when_something_is_due(v: Receiving, now: u128, then: u128)
    requires
        v.last_received + DEAD_PEER <= u128::MAX,
        at_time(v, now).1 is Wait,
        now <= then,
    ensures
        ({
            let until = at_time(v, now).1->Wait_0;
            &&& now < until
            &&& then < until ==> at_time(v, then) == (v, Due::Wait(until))
            &&& then == until ==> !(at_time(v, then).1 is Wait)
        }),
{
}

/// An endpoint after events, one after the other.
pub open spec fn all_rebound(v: Rebinding, events: Seq<Event>) -> Rebinding
    decreases events.len(),
{
    if events.len() == 0 {
        v
    } else {
        rebound(all_rebound(v, events.drop_last()), events.last()).0
    }
}

/// An endpoint whose network changes is registered again exactly with a registration of
/// its own that comes after the change; one that comes before does not count.
pub proof fn law_registered_again_after_the_change(
    id: NodeId,
    public_key: [u8; 32],
    events: Seq<Event>,
    event: Event,
)
    ensures
        rebound(all_rebound(Rebinding { id, public_key, changed: false }, events), event).1 <==> (
        event matches Event::Registered(record) && record.topic == id && record.provider
            == public_key) && exists|i: int|
            0 <= i < events.len() && (#[trigger] events[i]) is NetworkChanged,
{
    lemma_change_is_remembered(Rebinding { id, public_key, changed: false }, events);
}

proof fn lemma_change_is_remembered(v: Rebinding, events: Seq<Event>)
    requires
        !v.changed,
    ensures
        all_rebound(v, events).id == v.id,
        all_rebound(v, events).public_key == v.public_key,
        all_rebound(v, events).changed <==> exists|i: int|
            0 <= i < events.len() && (#[trigger] events[i]) is NetworkChanged,
    decreases events.len(),
{
    if events.len() > 0 {
        let rest = events.drop_last();
        let n = events.len() - 1;
        lemma_change_is_remembered(v, rest);
        if all_rebound(v, rest).changed {
            let i = choose|i: int| 0 <= i < rest.len() && (#[trigger] rest[i]) is NetworkChanged;
            assert(events[i] is NetworkChanged);
        }
        if events.last() is NetworkChanged {
            assert(events[n] is NetworkChanged);
        }
        assert forall|i: int| 0 <= i < events.len() && (#[trigger] events[i]) is NetworkChanged
            && i < n implies all_rebound(v, rest).changed by {
            assert(rest[i] is NetworkChanged);
        }
    }
}

/// A registration of its own gives a listener a reflector, the first from then on; those
/// of other nodes stay while there is room. The first one makes the listener ready. A
/// registration of anyone else's changes nothing, and a change of network drops every
/// reflector.
pub proof fn law_registration_gives_a_reflector(
    v: ListeningView,
    record: crate::discovery::Record,
    authorized: bool,
    x: Contact,
    epoch: u64,
)
    ensures
        ({
            let (w, heard) = after_heard(v, Event::Registered(record), authorized);
            let own = record.topic == v.id && record.provider == v.public_key;
            &&& own && v.limit > 0 ==> w.reflectors.len() > 0 && w.reflectors[0]
                == record.coordinator
            &&& own && v.reflectors.contains(x) && x.id != record.coordinator.id
                && v.reflectors.len() < v.limit ==> w.reflectors.contains(x)
            &&& own && w.reflectors.contains(x) ==> x == record.coordinator
                || v.reflectors.contains(x)
            &&& own ==> w.registered && w.generation == v.generation && w.reflectors.len()
                <= v.limit
            &&& heard is Ready <==> own && !v.registered
            &&& !own ==> w == v
        }),
        ({
            let (w, heard) = after_heard(v, Event::NetworkChanged(epoch), authorized);
            &&& w.generation == epoch
            &&& w.reflectors.len() == 0
            &&& w.registered == v.registered
            &&& heard is Nothing
        }),
{
    let c = record.coordinator;
    let p = |x: Contact| x.id != c.id;
    let others = kept(v.reflectors, p);
    lemma_kept(v.reflectors, p);
    let all = seq![c] + others;
    let w = at_most(all, v.limit);
    if v.limit > 0 {
        assert(w[0] == all[0]);
    }
    if v.reflectors.contains(x) && x.id != c.id && v.reflectors.len() < v.limit {
        assert(others.contains(x));
        let k = others.index_of(x);
        assert(all[k + 1] == x);
        assert(w[k + 1] == x);
    }
    if w.contains(x) {
        let k = w.index_of(x);
        assert(all[k] == x);
        if k > 0 {
            assert(others[k - 1] == x);
            assert(others.contains(x));
        }
    }
}

/// The coordinator that passed an offer on is among those asked for one's own address,
/// where there is room for it, with those known so far.
pub proof fn law_coordinator_is_used_too(known: Seq<Contact>, c: Contact, limit: nat, i: int)
    ensures
        with_coordinator(known, c, limit).len() <= limit,
        0 <= i < known.len() && i < limit ==> i < with_coordinator(known, c, limit).len()
            && with_coordinator(known, c, limit)[i] == known[i],
        known.len() < limit ==> with_coordinator(known, c, limit).contains(c),
        forall|x: Contact| #[trigger]
            with_coordinator(known, c, limit).contains(x) ==> x == c || known.contains(x),
{
    let all = if known.contains(c) {
        known
    } else {
        known.push(c)
    };
    let r = with_coordinator(known, c, limit);
    if known.len() < limit {
        if known.contains(c) {
            assert(r[known.index_of(c)] == c);
        } else {
            assert(r[known.len() as int] == c);
        }
    }
    assert forall|x: Contact| #[trigger] r.contains(x) implies x == c || known.contains(x) by {
        let k = r.index_of(x);
        assert(all[k] == x);
        if k < known.len() {
            assert(known[k] == x);
        }
    }
}

/// An offer is accepted exactly if no change of network came since, its author may connect,
/// there is room and it can be read; it is then answered to its author, under its session.
pub proof fn law_offer_is_accepted(
    signal: Signal,
    coordinator: Contact,
    made: u64,
    current: u64,
    authorized: bool,
    has_room: bool,
    known: Vec<Contact>,
    limit: usize,
    r: Considered,
)
    requires
        call_ensures(
            consider,
            (&signal, coordinator, made, current, authorized, has_room, &known, limit),
            r,
        ),
    ensures
        r is Stale <==> made != current,
        r is Accepted <==> made == current && authorized && has_room && read_offer(
            signal.payload@,
            false,
        ) is Some,
        r matches Considered::Accepted(a) ==> a.peer == signal.author && a.session
            == signal.session && Some(a.candidates@) == read_offer(signal.payload@, false),
        made == current && !authorized ==> r == Considered::Refused(ConnectError::Unauthorized),
        made == current && authorized && !has_room ==> r == Considered::Refused(ConnectError::Busy),
{
}

/// A change of network fails what is under way although it is finished; a result counts
/// although the time is up; and nothing ends without a reason.
pub proof fn law_work_is_guarded(
    changed: bool,
    finished: bool,
    stopped: bool,
    expired: bool,
    r: Guarded,
)
    requires
        call_ensures(guarded, (changed, finished, stopped, expired), r),
    ensures
        changed ==> r == Guarded::Failed(ConnectError::Dht(DhtError::NetworkChanged)),
        r is Finished <==> finished && !changed,
        r is Running <==> !changed && !finished && !stopped && !expired,
        r == Guarded::Failed(ConnectError::Deadline) <==> expired && !changed && !finished
            && !stopped,
        r == Guarded::Failed(ConnectError::Dht(DhtError::Closed)) <==> stopped && !changed
            && !finished,
{
}

/// A payload that fits is read at the other end as it was given, and never as a
/// keepalive.
pub proof fn law_framed_payload_is_read(payload: &[u8], max: usize, r: Result<Vec<u8>, IoKind>)
    requires
        call_ensures(frame_payload, (payload, max), r),
    ensures
        r is Ok <==> payload@.len() <= max,
        r matches Ok(bytes) ==> read_frame(bytes@) == FrameView::Payload(payload@),
        r matches Err(kind) ==> kind == IoKind::InvalidInput,
{
    if let Ok(bytes) = r {
        law_payload_roundtrip(payload@);
    }
}

/// Only what the network's own change brought about is tried again: that it changed, or
/// that it forgot the session.
pub proof fn law_accepting_is_tried_again(e: ConnectError, r: bool)
    requires
        call_ensures(retry_accept, (&e,), r),
    ensures
        r <==> (e matches ConnectError::Dht(d) && (d is NetworkChanged || d is UnknownSession)),
{
}

/// A connection is good for the network it was made on, and what does not fit it is
/// refused.
pub proof fn law_connection_belongs_to_its_network(
    made: u64,
    current: u64,
    len: usize,
    room: usize,
    on: Result<(), IoKind>,
    fit: Result<(), IoKind>,
)
    requires
        call_ensures(still_connected, (made, current), on),
        call_ensures(fits, (len, room), fit),
    ensures
        on is Ok <==> made == current,
        fit is Ok <==> len <= room,
        on matches Err(kind) ==> kind == IoKind::ConnectionAborted,
        fit matches Err(kind) ==> kind == IoKind::InvalidInput,
{
}

/// An endpoint listens once, from no more nodes than it may start from.
pub proof fn law_endpoint_listens_once(
    seeds: usize,
    listening: bool,
    r: Result<(), ConnectError>,
)
    requires
        call_ensures(may_listen, (seeds, listening), r),
    ensures
        r is Ok <==> seeds <= MAX_SEEDS && !listening,
        r == Err::<(), ConnectError>(ConnectError::AlreadyListening) <==> seeds <= MAX_SEEDS
            && listening,
{
}

} // verus!
