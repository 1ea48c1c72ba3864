//! Running the sync protocol over an unreliable datagram link, without the link:
//! what to send, what to make of what arrives, and when to give up.
//!
//! A message larger than a datagram is split into fragments small enough never
//! to be fragmented further, and reassembled on the far side. Reliability is
//! selective repeat: a tiny request is retransmitted whole when the response goes
//! silent, but a large response is repaired fragment by fragment. When the
//! client's reassembly stalls, it names the fragments it is still missing, and
//! the server resends only those. The client keeps repairing as long as it makes
//! progress and gives up only after a bounded number of intervals with none.
use crate::congestion::{smaller, Congestion, Rtt, INIT_WINDOW, MAX_DURATION, MAX_RTT, MAX_WINDOW, MIN_WINDOW};
use crate::frame::{
    absent, data_bytes, fragment, fragment_at, nack_bytes, nack_datagram, piece, piece_count,
    pushed, read_packet, Missing, Packet, PacketView, Reassembler, ReassemblerView, HEADER_BUDGET,
    MAX_MESSAGE, NACK_MAX_INDICES,
};
use crate::lists::{lemma_views_push, views};
use crate::sync_msg::{
    message_bytes, read_message, requests, Message, MessageView, SyncError,
};
use vstd::prelude::*;

verus! {

/// Largest datagram that is read.
pub const MAX_DATAGRAM: usize = 65_487;

/// Target size of a datagram that is sent: small enough never to be fragmented.
pub const FRAGMENT: usize = 1200;

/// Smallest pause the pacer takes, in nanoseconds.
pub const MIN_PACING_SLEEP: u128 = 1_000_000;

/// How a channel failed.
#[derive(Debug, Clone, Copy, PartialEq, Eq, Structural)]
pub enum IoKind {
    /// The connection was given up locally.
    ConnectionAborted,
    /// Nobody listens there.
    ConnectionRefused,
    /// The peer reset the connection.
    ConnectionReset,
    /// The peer no longer reads.
    BrokenPipe,
    /// The channel ended early.
    UnexpectedEof,
    /// Nothing came in time.
    TimedOut,
    /// There is no connection.
    NotConnected,
    /// The network cannot be reached.
    NetworkUnreachable,
    /// The host cannot be reached.
    HostUnreachable,
    /// What came was malformed.
    InvalidData,
    /// What was asked for is not possible.
    InvalidInput,
    /// The peer is not who it should be.
    PermissionDenied,
    /// Anything else.
    Other,
}

/// Why a transfer failed.
#[derive(Debug, Clone, Copy, PartialEq, Eq)]
pub enum TransferError {
    /// A peer's response didn't verify.
    Sync(SyncError),
    /// A request went unanswered after all retransmits.
    Timeout,
    /// An encoded message exceeded the maximum message size.
    MessageTooLarge(usize),
    /// The download finished but the blob couldn't be put together.
    Incomplete,
    /// The channel failed.
    Io(IoKind),
}

/// Timing for a transfer over an unreliable channel, in nanoseconds.
#[derive(Debug, Clone, Copy, PartialEq, Eq, Structural)]
pub struct Config {
    /// How long the client waits for progress before acting.
    pub request_timeout: u128,
    /// How many consecutive intervals with no progress the client tolerates
    /// before giving up.
    pub retries: usize,
    /// How long a server waits for the next request before ending the session.
    pub idle: u128,
    /// Assumed round-trip time before the path is measured.
    pub initial_rtt: u128,
}

impl Default for Config {
    fn default() -> (r: Self)
        ensures
            r == (Config {
                request_timeout: 2_000_000_000,
                retries: 4,
                idle: 10_000_000_000,
                initial_rtt: 100_000_000,
            }),
    {
        Config {
            request_timeout: 2_000_000_000,
            retries: 4,
            idle: 10_000_000_000,
            initial_rtt: 100_000_000,
        }
    }
}

/// The session state carried from one [`Wire`] on a channel to the next: the
/// next outbound message id and the inbound watermark.
#[derive(Debug, Clone, Copy, PartialEq, Eq, Structural)]
pub struct Cursor {
    /// The next outbound message id.
    pub next_id: u64,
    /// The highest message id accepted so far.
    pub accepted: Option<u64>,
}

impl Default for Cursor {
    fn default() -> (r: Self)
        ensures
            r == (Cursor { next_id: 0, accepted: None }),
    {
        Cursor { next_id: 0, accepted: None }
    }
}

/// What a datagram brought.
#[derive(Debug, Clone, PartialEq, Eq)]
pub enum Recv {
    /// A whole message, reassembled and decoded.
    Message(Message),
    /// The peer is missing the listed fragments of a message.
    Nack {
        /// The message whose fragments the peer wants resent.
        id: u64,
        /// The missing indices to resend.
        indices: Vec<u64>,
    },
}

/// A [`Recv`] as a mathematical value.
#[verifier::ext_equal]
pub enum RecvView {
    /// A whole message.
    Message(MessageView),
    /// Fragments the peer is missing.
    Nack { id: u64, indices: Seq<u64> },
}

impl View for Recv {
    type V = RecvView;

    open spec fn view(&self) -> RecvView {
        match self {
            Recv::Message(m) => RecvView::Message(m@),
            Recv::Nack { id, indices } => RecvView::Nack { id: *id, indices: indices@ },
        }
    }
}

/// A [`Wire`] as a mathematical value.
#[verifier::ext_equal]
pub struct WireView {
    /// The next outbound message id.
    pub next_id: u64,
    /// The inbound reassembly.
    pub inbound: ReassemblerView,
    /// The message sent last, kept to repair it.
    pub last_sent: Option<(u64, Seq<u8>)>,
    /// The congestion window.
    pub window: int,
    /// The slow-start threshold.
    pub threshold: int,
    /// The smoothed round-trip time.
    pub rtt: int,
    /// The cap on it.
    pub max_rtt: int,
    /// Whether it has been measured.
    pub measured: bool,
    /// The largest payload a datagram may carry.
    pub mtu: int,
}

/// The fragments of a message as they are sent.
pub open spec fn fragments_of(id: u64, bytes: Seq<u8>, mtu: int) -> Seq<Seq<u8>> {
    Seq::new(
        piece_count(bytes.len() as int, mtu) as nat,
        |i: int|
            data_bytes(
                id,
                i as u64,
                piece_count(bytes.len() as int, mtu) as u64,
                piece(bytes, mtu, i),
            ),
    )
}

/// The distinct elements of a list, in the order they are first seen.
pub open spec fn each_once(s: Seq<u64>) -> Seq<u64>
    decreases s.len(),
{
    if s.len() == 0 {
        Seq::empty()
    } else if each_once(s.drop_last()).contains(s.last()) {
        each_once(s.drop_last())
    } else {
        each_once(s.drop_last()).push(s.last())
    }
}

/// The fragments there are among those named.
pub open spec fn named_fragments(id: u64, bytes: Seq<u8>, mtu: int, indices: Seq<u64>) -> Seq<
    Seq<u8>,
>
    decreases indices.len(),
{
    if indices.len() == 0 {
        Seq::empty()
    } else {
        let front = named_fragments(id, bytes, mtu, indices.drop_last());
        let i = indices.last();
        if i < piece_count(bytes.len() as int, mtu) {
            front.push(
                data_bytes(
                    id,
                    i,
                    piece_count(bytes.len() as int, mtu) as u64,
                    piece(bytes, mtu, i as int),
                ),
            )
        } else {
            front
        }
    }
}

/// What is resent when fragments of a message are reported missing.
pub open spec fn resent(v: WireView, id: u64, indices: Seq<u64>) -> Seq<Seq<u8>> {
    match v.last_sent {
        Some((last, bytes)) => if last == id {
            named_fragments(id, bytes, v.mtu, each_once(indices))
        } else {
            Seq::empty()
        },
        None => Seq::empty(),
    }
}

/// A message made ready to send.
pub open spec fn sent(v: WireView, m: MessageView) -> (WireView, Result<Seq<Seq<u8>>, TransferError>) {
    let bytes = message_bytes(m);
    if bytes.len() > MAX_MESSAGE {
        (v, Err(TransferError::MessageTooLarge(bytes.len() as usize)))
    } else {
        (
            WireView {
                next_id: (v.next_id + 1) as u64,
                last_sent: Some((v.next_id, bytes)),
                ..v
            },
            Ok(fragments_of(v.next_id, bytes, v.mtu)),
        )
    }
}

/// A watermark moved up to a message.
pub open spec fn accepted_to(s: ReassemblerView, id: u64) -> ReassemblerView {
    ReassemblerView {
        accepted: Some(
            match s.accepted {
                Some(cur) => if cur > id {
                    cur
                } else {
                    id
                },
                None => id,
            },
        ),
        ..s
    }
}

/// A datagram taken in: a fragment is folded into the reassembly, and a message
/// it completes is accepted once it decodes; a request to resend is handed on;
/// anything else is noise.
pub open spec fn arrived(v: WireView, datagram: Seq<u8>) -> (WireView, Option<RecvView>) {
    match read_packet(datagram) {
        Some(PacketView::Data { id, index, count, payload }) => {
            let (inbound, done) = pushed(v.inbound, id, index, count, payload);
            match done {
                Some((mid, bytes)) => match read_message(bytes) {
                    Ok(m) => (
                        WireView { inbound: accepted_to(inbound, mid), ..v },
                        Some(RecvView::Message(m)),
                    ),
                    Err(_) => (WireView { inbound, ..v }, None),
                },
                None => (WireView { inbound, ..v }, None),
            }
        },
        Some(PacketView::Nack { id, indices }) => (v, Some(RecvView::Nack { id, indices })),
        None => (v, None),
    }
}

/// The congestion window after a clean delivery.
pub open spec fn after_delivery(v: WireView) -> WireView {
    WireView {
        window: smaller(
            if v.window < v.threshold {
                2 * v.window
            } else {
                v.window + 1
            },
            MAX_WINDOW as int,
        ),
        ..v
    }
}

/// The congestion window after a loss.
pub open spec fn after_loss(v: WireView) -> WireView {
    let half = if v.window / 2 < MIN_WINDOW {
        MIN_WINDOW as int
    } else {
        v.window / 2
    };
    WireView { window: half, threshold: half, ..v }
}

/// The round-trip time after a measurement.
pub open spec fn after_sample(v: WireView, sample: int) -> WireView {
    WireView {
        rtt: smaller(
            if v.measured {
                (7 * v.rtt + sample) / 8
            } else {
                sample
            },
            v.max_rtt,
        ),
        measured: true,
        ..v
    }
}

/// The pause before each of `n` fragments, and the time still owed after the
/// last: nothing before the first, then one interval more for each fragment,
/// paid as soon as it is worth a pause.
pub open spec fn paced(interval: int, n: nat) -> (Seq<int>, int)
    decreases n,
{
    if n == 0 {
        (Seq::empty(), 0)
    } else if n == 1 {
        (seq![0int], 0)
    } else {
        let (pauses, owed) = paced(interval, (n - 1) as nat);
        if owed + interval >= MIN_PACING_SLEEP {
            (pauses.push(owed + interval), 0)
        } else {
            (pauses.push(0), owed + interval)
        }
    }
}

/// The sum of a list.
pub open spec fn sum(s: Seq<int>) -> int
    decreases s.len(),
{
    if s.len() == 0 {
        0
    } else {
        sum(s.drop_last()) + s.last()
    }
}

/// Pacing spreads the fragments evenly: the pauses and what is still owed come
/// to one interval for each fragment after the first. No pause is taken before
/// the first fragment, every pause is worth taking, and none is longer than the
/// shortest pause and an interval.
pub proof fn law_pacing_is_even(interval: int, n: nat)
    requires
        interval >= 0,
        n > 0,
    ensures
        ({
            let (pauses, owed) = paced(interval, n);
            &&& pauses.len() == n
            &&& sum(pauses) + owed == (n - 1) * interval
            &&& 0 <= owed < MIN_PACING_SLEEP
            &&& pauses[0] == 0
            &&& forall|i: int|
                0 <= i < n ==> #[trigger] pauses[i] == 0 || MIN_PACING_SLEEP <= pauses[i]
                    < MIN_PACING_SLEEP + interval
        }),
    decreases n,
{
    if n == 1 {
        assert(seq![0int].drop_last() =~= Seq::<int>::empty());
        assert(sum(Seq::<int>::empty()) == 0);
    } else {
        law_pacing_is_even(interval, (n - 1) as nat);
        let before = paced(interval, (n - 1) as nat).0;
        let pauses = paced(interval, n).0;
        assert(pauses.drop_last() =~= before);
        assert((n - 1) * interval == (n - 2) * interval + interval) by (nonlinear_arith)
            requires
                n >= 2,
        ;
    }
}

fn has_index(s: &Vec<u64>, x: u64) -> (r: bool)
    ensures
        r == s@.contains(x),
{
    let mut i: usize = 0;
    while i < s.len()
        invariant
            i <= s.len(),
            forall|j: int| 0 <= j < i ==> #[trigger] s@[j] != x,
        decreases s.len() - i,
    {
        if s[i] == x {
            assert(s@[i as int] == x);
            return true;
        }
        i += 1;
    }
    false
}

fn distinct_indices(s: &Vec<u64>) -> (r: Vec<u64>)
    ensures
        r@ == each_once(s@),
{
    let mut r: Vec<u64> = Vec::new();
    let mut i: usize = 0;
    while i < s.len()
        invariant
            i <= s.len(),
            r@ == each_once(s@.take(i as int)),
        decreases s.len() - i,
    {
        proof {
            assert(s@.take(i + 1).drop_last() =~= s@.take(i as int));
            assert(s@.take(i + 1).last() == s@[i as int]);
        }
        if !has_index(&r, s[i]) {
            r.push(s[i]);
        }
        i += 1;
    }
    assert(s@.take(s@.len() as int) =~= s@);
    r
}

/// Frames sync messages onto a datagram link: fragments each outgoing message,
/// remembering the last one to repair it, and reassembles incoming ones. One
/// `Wire` serves a whole transfer or server session.
pub struct Wire {
    next_id: u64,
    inbound: Reassembler,
    last_sent: Option<(u64, Vec<u8>)>,
    cong: Congestion,
    rtt: Rtt,
    mtu: usize,
}

impl View for Wire {
    type V = WireView;

    closed spec fn view(&self) -> WireView {
        WireView {
            next_id: self.next_id,
            inbound: self.inbound@,
            last_sent: match self.last_sent {
                Some((id, bytes)) => Some((id, bytes@)),
                None => None,
            },
            window: self.cong.cwnd(),
            threshold: self.cong.ssthresh(),
            rtt: self.rtt.srtt(),
            max_rtt: self.rtt.max(),
            measured: self.rtt.sampled(),
            mtu: self.mtu as int,
        }
    }
}

impl Wire {
    /// The window and the round-trip time are within their bounds, and a
    /// datagram has room for more than a header.
    pub closed spec fn wf(&self) -> bool {
        &&& self.inbound.wf()
        &&& self.cong.wf()
        &&& self.rtt.wf()
        &&& self.mtu > HEADER_BUDGET
    }

    /// A wire on a link whose datagrams carry up to `mtu` bytes. `max_rtt` caps
    /// the pacing round-trip time, and `cursor` seeds the session state.
    pub fn new(initial_rtt: u128, max_rtt: u128, cursor: Cursor, mtu: usize) -> (r: Self)
        requires
            mtu > HEADER_BUDGET,
        ensures
            r.wf(),
            r@ == (WireView {
                next_id: cursor.next_id,
                inbound: ReassemblerView { current: None, accepted: cursor.accepted, stored: 0 },
                last_sent: None,
                window: INIT_WINDOW as int,
                threshold: usize::MAX as int,
                rtt: smaller(initial_rtt as int, smaller(max_rtt as int, MAX_RTT as int)),
                max_rtt: smaller(max_rtt as int, MAX_RTT as int),
                measured: false,
                mtu: mtu as int,
            }),
    {
        Wire {
            next_id: cursor.next_id,
            inbound: Reassembler::resume(cursor.accepted),
            last_sent: None,
            cong: Congestion::new(),
            rtt: Rtt::new(initial_rtt, max_rtt),
            mtu,
        }
    }

    /// The session state to carry into the next wire on this channel.
    pub fn cursor(&self) -> (r: Cursor)
        ensures
            r == (Cursor { next_id: self@.next_id, accepted: self@.inbound.accepted }),
    {
        Cursor { next_id: self.next_id, accepted: self.inbound.accepted() }
    }

    /// Whether any message has been sent yet.
    pub fn has_sent(&self) -> (r: bool)
        ensures
            r == (self@.last_sent is Some),
    {
        self.last_sent.is_some()
    }

    /// Grow the congestion window: the last reply was delivered without loss.
    pub fn on_delivered(&mut self)
        requires
            old(self).wf(),
        ensures
            final(self).wf(),
            final(self)@ == after_delivery(old(self)@),
    {
        self.cong.on_delivered();
    }

    /// Shrink the congestion window: the last reply drew a loss.
    pub fn on_loss(&mut self)
        requires
            old(self).wf(),
        ensures
            final(self).wf(),
            final(self)@ == after_loss(old(self)@),
    {
        self.cong.on_loss();
    }

    /// Fold a round-trip sample into the estimate used to pace sends.
    pub fn rtt_sample(&mut self, sample: u128)
        requires
            old(self).wf(),
            sample <= MAX_DURATION - 7 * MAX_RTT,
        ensures
            final(self).wf(),
            final(self)@ == after_sample(old(self)@, sample as int),
    {
        self.rtt.sample(sample);
    }

    /// The pause to take before each of `n` fragments, in nanoseconds.
    pub fn pauses(&self, n: usize) -> (r: Vec<u128>)
        requires
            self.wf(),
        ensures
            r@.len() == n,
            forall|i: int|
                0 <= i < n ==> #[trigger] r@[i] == paced(
                    self@.rtt / self@.window,
                    n as nat,
                ).0[i],
    {
        let interval: u128 = self.rtt.get() / self.cong.window() as u128;
        assert(interval == self@.rtt / self@.window);
        assert(interval <= MAX_RTT) by (nonlinear_arith)
            requires
                interval == self@.rtt / self@.window,
                self@.window >= 1,
                0 <= self@.rtt <= MAX_RTT,
        ;
        let mut r: Vec<u128> = Vec::new();
        let mut owed: u128 = 0;
        let mut i: usize = 0;
        while i < n
            invariant
                i <= n,
                interval <= MAX_RTT,
                owed == paced(interval as int, i as nat).1,
                owed < MIN_PACING_SLEEP,
                r@.len() == i,
                paced(interval as int, i as nat).0.len() == i,
                forall|j: int|
                    0 <= j < i ==> #[trigger] r@[j] == paced(interval as int, i as nat).0[j],
            decreases n - i,
        {
            if i > 0 {
                owed = owed + interval;
            }
            if owed >= MIN_PACING_SLEEP {
                r.push(owed);
                owed = 0;
            } else {
                r.push(0);
            }
            i += 1;
        }
        r
    }

    /// Fragment `message` for sending, and remember it for repair. A message that
    /// is too large is refused up front.
    pub fn send(&mut self, message: &Message) -> (r: Result<Vec<Vec<u8>>, TransferError>)
        requires
            old(self).wf(),
            old(self)@.next_id < u64::MAX,
        ensures
            final(self).wf(),
            final(self)@ == sent(old(self)@, message@).0,
            match sent(old(self)@, message@).1 {
                Ok(datagrams) => r is Ok && views(r->Ok_0@) == datagrams,
                Err(e) => r == Err::<Vec<Vec<u8>>, TransferError>(e),
            },
    {
        let bytes: Vec<u8> = message.encode();
        if bytes.len() > MAX_MESSAGE {
            return Err(TransferError::MessageTooLarge(bytes.len()));
        }
        let id: u64 = self.next_id;
        self.next_id += 1;
        let datagrams: Vec<Vec<u8>> = fragment(id, bytes.as_slice(), self.mtu);
        proof {
            crate::frame::lemma_piece_count(bytes@.len() as int, self.mtu as int);
            assert(views(datagrams@) =~= fragments_of(id, bytes@, self.mtu as int));
        }
        self.last_sent = Some((id, bytes));
        assert(self@ =~= sent(old(self)@, message@).0);
        Ok(datagrams)
    }

    /// The requested fragments of the last message sent. A request that names a
    /// superseded message, or no fragment there is, gets none.
    pub fn resend(&self, id: u64, indices: &Vec<u64>) -> (r: Vec<Vec<u8>>)
        requires
            self.wf(),
        ensures
            views(r@) == resent(self@, id, indices@),
    {
        let mut r: Vec<Vec<u8>> = Vec::new();
        assert(views(r@) =~= Seq::<Seq<u8>>::empty());
        match &self.last_sent {
            Some((last, bytes)) => {
                if *last != id {
                    return r;
                }
                let named: Vec<u64> = distinct_indices(indices);
                let mut i: usize = 0;
                while i < named.len()
                    invariant
                        self.wf(),
                        i <= named.len(),
                        views(r@) == named_fragments(
                            id,
                            bytes@,
                            self.mtu as int,
                            named@.take(i as int),
                        ),
                    decreases named.len() - i,
                {
                    proof {
                        assert(named@.take(i + 1).drop_last() =~= named@.take(i as int));
                        assert(named@.take(i + 1).last() == named@[i as int]);
                    }
                    if let Some(d) = fragment_at(id, bytes.as_slice(), self.mtu, named[i]) {
                        proof {
                            lemma_views_push(r@, d);
                        }
                        r.push(d);
                    }
                    i += 1;
                }
                assert(named@.take(named@.len() as int) =~= named@);
                r
            },
            None => r,
        }
    }

    /// How many fragments have been stored so far. Lets the driver tell whether
    /// an interval made progress, even across messages.
    pub fn stored(&self) -> (r: usize)
        ensures
            r == self@.inbound.stored,
    {
        self.inbound.stored()
    }

    /// The fragments still missing from the message in progress, if any.
    pub fn missing(&self) -> (r: Option<Missing>)
        requires
            self.wf(),
        ensures
            match self@.inbound.current {
                Some(p) => r is Some && r->Some_0.id == p.id && r->Some_0.indices@ == front_gaps(
                    absent(p.frags, p.count),
                ),
                None => r is None,
            },
    {
        self.inbound.missing()
    }

    /// Take in a datagram: the message it completes, the request to resend it is,
    /// or nothing, for a fragment of a message still in flight and for junk.
    pub fn on_datagram(&mut self, datagram: &[u8]) -> (r: Option<Recv>)
        requires
            old(self).wf(),
            old(self)@.inbound.stored < usize::MAX,
        ensures
            final(self).wf(),
            final(self)@ == arrived(old(self)@, datagram@).0,
            match arrived(old(self)@, datagram@).1 {
                Some(m) => r is Some && r->Some_0@ == m,
                None => r is None,
            },
    {
        match Packet::decode(datagram) {
            Some(Packet::Data { id, index, count, payload }) => {
                if let Some((mid, bytes)) = self.inbound.push_data(id, index, count, payload) {
                    if let Ok(message) = Message::decode(bytes.as_slice()) {
                        self.inbound.accept(mid);
                        return Some(Recv::Message(message));
                    }
                }
                None
            },
            Some(Packet::Nack { id, indices }) => Some(Recv::Nack { id, indices }),
            None => None,
        }
    }
}

/// The lowest gaps, as many as one request to resend lists.
pub open spec fn front_gaps(gaps: Seq<u64>) -> Seq<u64> {
    gaps.take(
        if gaps.len() < NACK_MAX_INDICES {
            gaps.len() as int
        } else {
            NACK_MAX_INDICES as int
        },
    )
}

/// What an interval without a response calls for.
#[derive(Debug, Clone, PartialEq, Eq)]
pub enum Elapsed {
    /// Fragments are still arriving: wait on.
    Wait,
    /// Send this request to resend; then give up, or wait on.
    Repair {
        /// The datagram to send.
        datagram: Vec<u8>,
        /// Whether to give up.
        give_up: bool,
    },
    /// Send the request again; then give up, or wait on.
    Ask {
        /// Whether to give up.
        give_up: bool,
    },
}

/// An [`Elapsed`] as a mathematical value.
#[verifier::ext_equal]
pub enum ElapsedView {
    /// Wait on.
    Wait,
    /// Send a request to resend.
    Repair { datagram: Seq<u8>, give_up: bool },
    /// Send the request again.
    Ask { give_up: bool },
}

impl View for Elapsed {
    type V = ElapsedView;

    open spec fn view(&self) -> ElapsedView {
        match self {
            Elapsed::Wait => ElapsedView::Wait,
            Elapsed::Repair { datagram, give_up } => ElapsedView::Repair {
                datagram: datagram@,
                give_up: *give_up,
            },
            Elapsed::Ask { give_up } => ElapsedView::Ask { give_up: *give_up },
        }
    }
}

/// How an exchange stands.
#[derive(Debug, Clone, Copy, PartialEq, Eq, Structural)]
pub struct Exchange {
    /// How many fragments had been stored when the interval began.
    pub progress_from: usize,
    /// How many intervals in a row have made no progress.
    pub stalls: usize,
    /// How many are tolerated.
    pub retries: usize,
}

/// What an interval without a response leads to.
pub open spec fn interval_over(e: Exchange, w: WireView) -> (Exchange, ElapsedView) {
    if w.inbound.stored > e.progress_from {
        (
            Exchange { progress_from: w.inbound.stored as usize, stalls: 0, ..e },
            ElapsedView::Wait,
        )
    } else {
        let stalls = (e.stalls + 1) as usize;
        let give_up = stalls > e.retries;
        (
            Exchange { progress_from: w.inbound.stored as usize, stalls, ..e },
            match w.inbound.current {
                Some(p) => ElapsedView::Repair {
                    datagram: nack_bytes(p.id, front_gaps(absent(p.frags, p.count))),
                    give_up,
                },
                None => ElapsedView::Ask { give_up },
            },
        )
    }
}

impl Exchange {
    /// Begin waiting for a response on a wire.
    pub fn begin(wire: &Wire, cfg: &Config) -> (r: Self)
        ensures
            r == (Exchange {
                progress_from: wire@.inbound.stored as usize,
                stalls: 0,
                retries: cfg.retries,
            }),
    {
        Exchange { progress_from: wire.stored(), stalls: 0, retries: cfg.retries }
    }

    /// The response, if that is what arrived. A request or a request to resend,
    /// neither of which a client serves, is ignored without extending the
    /// interval.
    pub fn on_recv(recv: Recv) -> (r: Option<Message>)
        ensures
            match recv@ {
                RecvView::Message(m) => if requests(m) {
                    r is None
                } else {
                    r is Some && r->Some_0@ == m
                },
                RecvView::Nack { .. } => r is None,
            },
    {
        match recv {
            Recv::Message(m) => if m.is_request() {
                None
            } else {
                Some(m)
            },
            Recv::Nack { .. } => None,
        }
    }

    /// An interval elapsed without completing the response. If fragments were
    /// still arriving, wait on; otherwise repair the gaps, or ask again if
    /// nothing has arrived, and give up once too many intervals have stalled.
    pub fn on_elapsed(&mut self, wire: &Wire) -> (r: Elapsed)
        requires
            wire.wf(),
            old(self).stalls < usize::MAX,
        ensures
            (*final(self), r@) == interval_over(*old(self), wire@),
    {
        let stored: usize = wire.stored();
        if stored > self.progress_from {
            self.progress_from = stored;
            self.stalls = 0;
            return Elapsed::Wait;
        }
        self.progress_from = stored;
        self.stalls += 1;
        let give_up: bool = self.stalls > self.retries;
        match wire.missing() {
            Some(missing) => Elapsed::Repair {
                datagram: nack_datagram(missing.id, missing.indices.as_slice()),
                give_up,
            },
            None => Elapsed::Ask { give_up },
        }
    }
}

/// Intervals one after the other, none of which makes progress.
pub open spec fn stalled_intervals(e: Exchange, w: WireView, n: nat) -> Exchange
    decreases n,
{
    if n == 0 {
        e
    } else {
        interval_over(stalled_intervals(e, w, (n - 1) as nat), w).0
    }
}

/// A client gives up after exactly as many intervals without progress as are
/// tolerated and one more, and while fragments keep arriving it never does.
pub proof fn law_gives_up_only_when_stalled(e: Exchange, w: WireView, n: nat)
    requires
        e.stalls == 0,
        e.progress_from == w.inbound.stored,
        e.retries < usize::MAX,
        n <= e.retries,
    ensures
        stalled_intervals(e, w, n).stalls == n,
        match interval_over(stalled_intervals(e, w, n), w).1 {
            ElapsedView::Wait => false,
            ElapsedView::Repair { give_up, .. } => give_up == (n == e.retries),
            ElapsedView::Ask { give_up } => give_up == (n == e.retries),
        },
        forall|more: WireView|
            more.inbound.stored > e.progress_from ==> (#[trigger] interval_over(e, more)).1
                is Wait,
{
    lemma_stalled(e, w, n);
}

proof fn lemma_stalled(e: Exchange, w: WireView, n: nat)
    requires
        e.stalls == 0,
        e.progress_from == w.inbound.stored,
        e.retries < usize::MAX,
        n <= e.retries,
    ensures
        stalled_intervals(e, w, n) == (Exchange { stalls: n as usize, ..e }),
    decreases n,
{
    if n > 0 {
        lemma_stalled(e, w, (n - 1) as nat);
    }
}

/// Each clean delivery widens the window, twice as wide below the threshold and by one
/// above it, up to the widest; a loss halves it, down to the narrowest, and from there it
/// grows by one at a time.
pub proof fn law_window_follows_the_link(v: WireView)
    requires
        MIN_WINDOW <= v.window <= MAX_WINDOW,
    ensures
        after_delivery(v).window >= v.window,
        v.window < v.threshold && 2 * v.window <= MAX_WINDOW ==> after_delivery(v).window == 2
            * v.window,
        v.window >= v.threshold && v.window < MAX_WINDOW ==> after_delivery(v).window == v.window
            + 1,
        MIN_WINDOW <= after_loss(v).window <= v.window,
        v.window >= 2 * MIN_WINDOW ==> after_loss(v).window == v.window / 2,
        after_loss(v).window < MAX_WINDOW ==> after_delivery(after_loss(v)).window
            == after_loss(v).window + 1,
        after_delivery(v).threshold == v.threshold,
        after_delivery(v).rtt == v.rtt,
        after_loss(v).rtt == v.rtt,
{
}

/// The first round trip measured is taken as it is; each later one counts for an eighth.
/// None counts for more than the longest.
pub proof fn law_round_trips_are_smoothed(v: WireView, sample: int)
    requires
        0 <= sample,
        0 <= v.rtt <= v.max_rtt,
    ensures
        !v.measured && sample <= v.max_rtt ==> after_sample(v, sample).rtt == sample,
        v.measured && sample <= v.max_rtt ==> 8 * after_sample(v, sample).rtt <= 7 * v.rtt + sample
            && 7 * v.rtt + sample < 8 * after_sample(v, sample).rtt + 8,
        0 <= after_sample(v, sample).rtt <= v.max_rtt,
        after_sample(v, sample).measured,
        after_sample(v, sample).window == v.window,
{
}

/// A client takes answers only: it ignores what asks for something and what asks it to
/// send again.
pub proof fn law_client_takes_answers_only(recv: Recv, r: Option<Message>)
    requires
        call_ensures(Exchange::on_recv, (recv,), r),
    ensures
        match recv@ {
            RecvView::Message(m) => match r {
                Some(got) => got@ == m && !requests(m),
                None => requests(m),
            },
            RecvView::Nack { .. } => r is None,
        },
{
}

/// Fragments are paced so that as many as may be under way take a round trip: the pauses
/// come to one round trip for every window's worth, within what is lost by rounding and what
/// is not worth a pause yet.
pub proof fn law_window_takes_a_round_trip(wire: Wire, n: usize, r: Vec<u128>)
    requires
        call_ensures(Wire::pauses, (&wire, n), r),
        wire.wf(),
        wire@.rtt >= 0,
        wire@.window > 0,
        n == wire@.window + 1,
    ensures
        ({
            let total = sum(r@.map_values(|x: u128| x as int));
            wire@.rtt - wire@.window - MIN_PACING_SLEEP < total <= wire@.rtt
        }),
{
    let interval = wire@.rtt / wire@.window;
    assert(interval >= 0 && wire@.rtt - wire@.window < wire@.window * interval <= wire@.rtt)
        by (nonlinear_arith)
        requires
            interval == wire@.rtt / wire@.window,
            wire@.rtt >= 0,
            wire@.window > 0,
    ;
    law_pacing_is_even(interval, n as nat);
    assert(r@.map_values(|x: u128| x as int) =~= paced(interval, n as nat).0);
}

} // verus!
