//! A server's session: which requests draw a reply, what is resent, how the pace
//! follows what became of each reply, and when the session ends.
//!
//! The session itself neither sends nor waits. Each [`Event`] gives the one
//! [`Action`] to take next, and taking it gives the next event.
use crate::bytes::same_array;
use crate::congestion::{MAX_DURATION, MAX_RTT, MAX_WINDOW, MIN_WINDOW};
use crate::feed::Head;
use crate::lists::views;
use crate::sync_msg::{requests, Message, MessageView};
use crate::transfer::{
    after_delivery, after_loss, after_sample, resent, sent, Config, TransferError, Wire, WireView,
};
use vstd::prelude::*;

verus! {

/// What a request says of the reply before it.
#[derive(Debug, Clone, Copy, PartialEq, Eq, Structural)]
pub enum Feedback {
    /// Nothing.
    Silent,
    /// It was delivered without loss.
    Delivered,
    /// It was lost.
    Lost,
}

/// What a session is about.
#[derive(Debug, Clone, Copy, PartialEq, Eq)]
pub enum Phase {
    /// Waiting for a datagram.
    Waiting,
    /// Waiting for the response to the last request.
    Asked {
        /// Whether an append is watched for meanwhile.
        watching: bool,
    },
    /// Holding a live-tail poll.
    Held {
        /// The head to answer it with if the feed does not grow.
        head: Head,
    },
    /// Sending a reply.
    Replying,
    /// Sending fragments again.
    Resending,
    /// Over.
    Ended,
}

/// What happened.
pub enum Event {
    /// A message arrived.
    Message(Message),
    /// The client is missing fragments of a message.
    Nack {
        /// The message.
        id: u64,
        /// The fragments.
        indices: Vec<u64>,
    },
    /// Nothing arrived in time.
    Silence,
    /// The response to the request.
    Response(Message),
    /// The feed grew.
    Appended,
    /// The keepalive elapsed.
    Kept,
    /// What was to be sent is sent.
    Sent,
}

/// An [`Event`] as a mathematical value.
#[verifier::ext_equal]
pub enum EventView {
    /// A message arrived.
    Message(MessageView),
    /// The client is missing fragments of a message.
    Nack { id: u64, indices: Seq<u64> },
    /// Nothing arrived in time.
    Silence,
    /// The response to the request.
    Response(MessageView),
    /// The feed grew.
    Appended,
    /// The keepalive elapsed.
    Kept,
    /// What was to be sent is sent.
    Sent,
}

impl View for Event {
    type V = EventView;

    open spec fn view(&self) -> EventView {
        match self {
            Event::Message(m) => EventView::Message(m@),
            Event::Nack { id, indices } => EventView::Nack { id: *id, indices: indices@ },
            Event::Silence => EventView::Silence,
            Event::Response(m) => EventView::Response(m@),
            Event::Appended => EventView::Appended,
            Event::Kept => EventView::Kept,
            Event::Sent => EventView::Sent,
        }
    }
}

/// What to do next.
pub enum Action {
    /// Receive until the deadline.
    Wait,
    /// Respond to this request.
    Ask(Message),
    /// Watch for an append, then respond to this request again.
    Watch(Message),
    /// Wait for the append that is watched for, no longer than the keepalive.
    Hold,
    /// Send a reply.
    Reply(Vec<Vec<u8>>),
    /// Send fragments again.
    Resend(Vec<Vec<u8>>),
    /// Return: the client has stopped asking.
    End,
    /// Return with an error.
    Fail(TransferError),
    /// Nothing: this is not what the session waits for.
    Ignore,
}

/// An [`Action`] as a mathematical value.
#[verifier::ext_equal]
pub enum ActionView {
    /// Receive until the deadline.
    Wait,
    /// Respond to this request.
    Ask(MessageView),
    /// Watch for an append, then respond to this request again.
    Watch(MessageView),
    /// Wait for the append.
    Hold,
    /// Send a reply.
    Reply(Seq<Seq<u8>>),
    /// Send fragments again.
    Resend(Seq<Seq<u8>>),
    /// Return.
    End,
    /// Return with an error.
    Fail(TransferError),
    /// Nothing.
    Ignore,
}

impl View for Action {
    type V = ActionView;

    open spec fn view(&self) -> ActionView {
        match self {
            Action::Wait => ActionView::Wait,
            Action::Ask(m) => ActionView::Ask(m@),
            Action::Watch(m) => ActionView::Watch(m@),
            Action::Hold => ActionView::Hold,
            Action::Reply(d) => ActionView::Reply(views(d@)),
            Action::Resend(d) => ActionView::Resend(views(d@)),
            Action::End => ActionView::End,
            Action::Fail(e) => ActionView::Fail(*e),
            Action::Ignore => ActionView::Ignore,
        }
    }
}

/// A server's session.
pub struct Serving {
    last_request: Option<Message>,
    lost: bool,
    tail: bool,
    idle: u128,
    deadline: u128,
    last_reply: Option<u128>,
    phase: Phase,
}

/// A [`Serving`] as a mathematical value. Times are in nanoseconds, of one clock.
#[verifier::ext_equal]
pub struct ServingView {
    /// The last request served.
    pub last_request: Option<MessageView>,
    /// Whether its reply has been counted as lost.
    pub lost: bool,
    /// Whether a live-tail poll is held.
    pub tail: bool,
    /// How long the session waits for a client that is idle.
    pub idle: u128,
    /// When the session ends if nothing extends it.
    pub deadline: int,
    /// When the last reply was sent.
    pub last_reply: Option<u128>,
    /// What the session is about.
    pub phase: Phase,
}

impl View for Serving {
    type V = ServingView;

    closed spec fn view(&self) -> ServingView {
        ServingView {
            last_request: match self.last_request {
                Some(m) => Some(m@),
                None => None,
            },
            lost: self.lost,
            tail: self.tail,
            idle: self.idle,
            deadline: self.deadline as int,
            last_reply: self.last_reply,
            phase: self.phase,
        }
    }
}

/// The time since the last reply was sent.
pub open spec fn since(last_reply: Option<u128>, now: u128) -> Option<u128> {
    match last_reply {
        Some(at) => Some(
            if at < now {
                (now - at) as u128
            } else {
                0
            },
        ),
        None => None,
    }
}

/// A request taken in. The same one again means that the client got none of the
/// last reply; another one, that it accepted it, cleanly if nothing of it was
/// counted as lost.
pub open spec fn request_seen(s: ServingView, has_sent: bool, m: MessageView) -> (
    ServingView,
    Feedback,
) {
    let again = s.last_request == Some(m);
    (
        ServingView {
            last_request: Some(m),
            lost: if again {
                s.lost || has_sent
            } else {
                false
            },
            phase: Phase::Asked { watching: false },
            ..s
        },
        if !has_sent || s.lost {
            Feedback::Silent
        } else if again {
            Feedback::Lost
        } else {
            Feedback::Delivered
        },
    )
}

/// What feedback does to a wire; a clean delivery is also a round-trip sample.
pub open spec fn fed_back(w: WireView, f: Feedback, sample: Option<u128>) -> WireView {
    match f {
        Feedback::Silent => w,
        Feedback::Lost => after_loss(w),
        Feedback::Delivered => match sample {
            Some(s) => after_sample(after_delivery(w), s as int),
            None => after_delivery(w),
        },
    }
}

/// Whether a live-tail poll is to be held: the feed has not grown past what the
/// subscriber holds.
pub open spec fn is_held(request: MessageView, response: MessageView) -> bool {
    match (request, response) {
        (MessageView::Tail { have }, MessageView::Head(h)) => h.len == have,
        _ => false,
    }
}

/// A message that arrived: a request is to be answered, a response is not.
pub open spec fn message_taken(s: ServingView, w: WireView, m: MessageView, now: u128) -> (
    ServingView,
    WireView,
    ActionView,
) {
    if requests(m) {
        let (next, f) = request_seen(s, w.last_sent is Some, m);
        (next, fed_back(w, f, since(s.last_reply, now)), ActionView::Ask(m))
    } else {
        (s, w, ActionView::Wait)
    }
}

/// A request to resend that arrived: what it names of the last reply is sent
/// again, if anything is.
pub open spec fn nack_taken(s: ServingView, w: WireView, id: u64, indices: Seq<u64>) -> (
    ServingView,
    WireView,
    ActionView,
) {
    let out = resent(w, id, indices);
    if out.len() > 0 {
        (ServingView { phase: Phase::Resending, ..s }, w, ActionView::Resend(out))
    } else {
        (s, w, ActionView::Wait)
    }
}

/// A response sent as the reply.
pub open spec fn replied(s: ServingView, w: WireView, response: MessageView) -> (
    ServingView,
    WireView,
    ActionView,
) {
    match sent(w, response) {
        (after, Ok(out)) => (
            ServingView { phase: Phase::Replying, ..s },
            after,
            ActionView::Reply(out),
        ),
        (after, Err(e)) => (
            ServingView { phase: Phase::Ended, ..s },
            after,
            ActionView::Fail(e),
        ),
    }
}

/// The response to the request. A live-tail poll at the head is held: an append
/// is watched for before the feed is read again, so that none is missed.
pub open spec fn responded(s: ServingView, w: WireView, watching: bool, response: MessageView) -> (
    ServingView,
    WireView,
    ActionView,
) {
    let request = s.last_request->Some_0;
    if s.tail && is_held(request, response) {
        if watching {
            (
                ServingView { phase: Phase::Held { head: response->Head_0 }, ..s },
                w,
                ActionView::Hold,
            )
        } else {
            (
                ServingView { phase: Phase::Asked { watching: true }, ..s },
                w,
                ActionView::Watch(request),
            )
        }
    } else {
        replied(s, w, response)
    }
}

/// What was to be sent is sent: the client has as long again. Only the first
/// resend of a reply counts as a loss.
pub open spec fn sending_over(s: ServingView, w: WireView, now: u128) -> (
    ServingView,
    WireView,
    ActionView,
) {
    if s.phase is Replying {
        (
            ServingView {
                phase: Phase::Waiting,
                last_reply: Some(now),
                deadline: now + s.idle,
                ..s
            },
            w,
            ActionView::Wait,
        )
    } else {
        (
            ServingView { phase: Phase::Waiting, lost: true, deadline: now + s.idle, ..s },
            if s.lost {
                w
            } else {
                after_loss(w)
            },
            ActionView::Wait,
        )
    }
}

/// What an event makes of a session and its wire, and what to do next.
pub open spec fn stepped(s: ServingView, w: WireView, e: EventView, now: u128) -> (
    ServingView,
    WireView,
    ActionView,
) {
    match (s.phase, e) {
        (Phase::Waiting, EventView::Message(m)) => message_taken(s, w, m, now),
        (Phase::Waiting, EventView::Nack { id, indices }) => nack_taken(s, w, id, indices),
        (Phase::Waiting, EventView::Silence) => if s.deadline <= now {
            (ServingView { phase: Phase::Ended, ..s }, w, ActionView::End)
        } else {
            (s, w, ActionView::Wait)
        },
        (Phase::Asked { watching }, EventView::Response(m)) => responded(s, w, watching, m),
        (Phase::Held { head }, EventView::Appended) => (
            ServingView { phase: Phase::Asked { watching: false }, ..s },
            w,
            ActionView::Ask(s.last_request->Some_0),
        ),
        (Phase::Held { head }, EventView::Kept) => replied(s, w, MessageView::Head(head)),
        (Phase::Replying, EventView::Sent) => sending_over(s, w, now),
        (Phase::Resending, EventView::Sent) => sending_over(s, w, now),
        _ => (s, w, ActionView::Ignore),
    }
}

/// Whether two requests are the same.
fn same_request(a: &Message, b: &Message) -> (r: bool)
    requires
        requests(a@),
        requests(b@),
    ensures
        r == (a@ == b@),
{
    match (a, b) {
        (Message::GetHead, Message::GetHead) => true,
        (Message::Tail { have: x }, Message::Tail { have: y }) => *x == *y,
        (Message::GetBlock { index: x }, Message::GetBlock { index: y }) => *x == *y,
        (Message::GetManifest { id: x }, Message::GetManifest { id: y }) => same_array(x, y),
        (Message::GetChunk { hash: x }, Message::GetChunk { hash: y }) => same_array(x, y),
        (Message::GetHave { id: x }, Message::GetHave { id: y }) => same_array(x, y),
        (Message::GetPeaks, Message::GetPeaks) => true,
        (Message::GetFeedHave, Message::GetFeedHave) => true,
        _ => false,
    }
}

/// A copy of a request.
fn copy_request(m: &Message) -> (r: Message)
    requires
        requests(m@),
    ensures
        r@ == m@,
{
    match m {
        Message::Tail { have } => Message::Tail { have: *have },
        Message::GetBlock { index } => Message::GetBlock { index: *index },
        Message::GetManifest { id } => Message::GetManifest { id: *id },
        Message::GetChunk { hash } => Message::GetChunk { hash: *hash },
        Message::GetHave { id } => Message::GetHave { id: *id },
        Message::GetPeaks => Message::GetPeaks,
        Message::GetFeedHave => Message::GetFeedHave,
        _ => Message::GetHead,
    }
}

impl Serving {
    /// Only a request has been served, and one that is being answered is the last.
    pub closed spec fn wf(&self) -> bool {
        &&& self@.last_request matches Some(m) ==> requests(m)
        &&& self@.phase is Asked || self@.phase is Held ==> self@.last_request is Some
        &&& self@.idle <= MAX_DURATION
    }

    /// A session that has served nothing, and waits `idle` nanoseconds for a
    /// client that is idle. With `tail`, a live-tail poll is held until the feed
    /// grows.
    pub fn new(idle: u128, tail: bool, now: u128) -> (r: Self)
        requires
            idle <= MAX_DURATION,
            now <= MAX_DURATION - 7 * MAX_RTT,
        ensures
            r.wf(),
            r@ == (ServingView {
                last_request: None,
                lost: false,
                tail,
                idle,
                deadline: now + idle,
                last_reply: None,
                phase: Phase::Waiting,
            }),
    {
        Serving {
            last_request: None,
            lost: false,
            tail,
            idle,
            deadline: now + idle,
            last_reply: None,
            phase: Phase::Waiting,
        }
    }

    /// When the session ends, if nothing extends it.
    pub fn deadline(&self) -> (r: u128)
        ensures
            r == self@.deadline,
    {
        self.deadline
    }

    /// Take in what happened. Returns what to do next.
    pub fn step(&mut self, wire: &mut Wire, event: Event, now: u128) -> (r: Action)
        requires
            old(self).wf(),
            old(wire).wf(),
            old(wire)@.next_id < u64::MAX,
            now <= MAX_DURATION - 7 * MAX_RTT,
        ensures
            final(self).wf(),
            final(wire).wf(),
            (final(self)@, final(wire)@, r@) == stepped(old(self)@, old(wire)@, event@, now),
    {
        match (self.phase, event) {
            (Phase::Waiting, Event::Message(m)) => self.on_message(wire, m, now),
            (Phase::Waiting, Event::Nack { id, indices }) => self.on_nack(wire, id, &indices),
            (Phase::Waiting, Event::Silence) => {
                if self.deadline <= now {
                    self.phase = Phase::Ended;
                    Action::End
                } else {
                    Action::Wait
                }
            },
            (Phase::Asked { watching }, Event::Response(m)) => self.on_response(wire, m, watching),
            (Phase::Held { .. }, Event::Appended) => {
                self.phase = Phase::Asked { watching: false };
                Action::Ask(self.request())
            },
            (Phase::Held { head }, Event::Kept) => self.reply(wire, &Message::Head(head)),
            (Phase::Replying, Event::Sent) => self.on_sent(wire, now),
            (Phase::Resending, Event::Sent) => self.on_sent(wire, now),
            _ => Action::Ignore,
        }
    }

    /// Take in a message that arrived, and adjust the wire's pace by what it says
    /// of the last reply. A response, which no server answers, is ignored.
    fn on_message(&mut self, wire: &mut Wire, message: Message, now: u128) -> (r: Action)
        requires
            old(self).wf(),
            old(self)@.phase is Waiting,
            old(wire).wf(),
            now <= MAX_DURATION - 7 * MAX_RTT,
        ensures
            final(self).wf(),
            final(wire).wf(),
            (final(self)@, final(wire)@, r@) == message_taken(
                old(self)@,
                old(wire)@,
                message@,
                now,
            ),
    {
        if !message.is_request() {
            return Action::Wait;
        }
        let again: bool = match &self.last_request {
            Some(last) => same_request(last, &message),
            None => false,
        };
        if wire.has_sent() {
            if again {
                if !self.lost {
                    wire.on_loss();
                    self.lost = true;
                }
            } else if !self.lost {
                wire.on_delivered();
                if let Some(at) = self.last_reply {
                    wire.rtt_sample(
                        if at < now {
                            now - at
                        } else {
                            0
                        },
                    );
                }
            }
        }
        if !again {
            self.lost = false;
            self.last_request = Some(copy_request(&message));
        }
        self.phase = Phase::Asked { watching: false };
        Action::Ask(message)
    }

    /// Take in a request to resend. Only one that names something to send again
    /// counts as activity.
    fn on_nack(&mut self, wire: &Wire, id: u64, indices: &Vec<u64>) -> (r: Action)
        requires
            old(self).wf(),
            wire.wf(),
        ensures
            final(self).wf(),
            (final(self)@, wire@, r@) == nack_taken(old(self)@, wire@, id, indices@),
    {
        let datagrams: Vec<Vec<u8>> = wire.resend(id, indices);
        if datagrams.len() > 0 {
            self.phase = Phase::Resending;
            Action::Resend(datagrams)
        } else {
            Action::Wait
        }
    }

    /// Take in the response to the last request.
    fn on_response(&mut self, wire: &mut Wire, response: Message, watching: bool) -> (r: Action)
        requires
            old(self).wf(),
            old(self)@.phase is Asked,
            old(wire).wf(),
            old(wire)@.next_id < u64::MAX,
        ensures
            final(self).wf(),
            final(wire).wf(),
            (final(self)@, final(wire)@, r@) == responded(
                old(self)@,
                old(wire)@,
                watching,
                response@,
            ),
    {
        let request: Message = self.request();
        if self.tail && Serving::holds(&request, &response) {
            if watching {
                if let Message::Head(head) = response {
                    self.phase = Phase::Held { head };
                }
                Action::Hold
            } else {
                self.phase = Phase::Asked { watching: true };
                Action::Watch(request)
            }
        } else {
            self.reply(wire, &response)
        }
    }

    /// Send a response as the reply.
    fn reply(&mut self, wire: &mut Wire, response: &Message) -> (r: Action)
        requires
            old(self).wf(),
            old(wire).wf(),
            old(wire)@.next_id < u64::MAX,
        ensures
            final(self).wf(),
            final(wire).wf(),
            (final(self)@, final(wire)@, r@) == replied(old(self)@, old(wire)@, response@),
    {
        match wire.send(response) {
            Ok(datagrams) => {
                self.phase = Phase::Replying;
                Action::Reply(datagrams)
            },
            Err(e) => {
                self.phase = Phase::Ended;
                Action::Fail(e)
            },
        }
    }

    /// What was to be sent is sent.
    fn on_sent(&mut self, wire: &mut Wire, now: u128) -> (r: Action)
        requires
            old(self).wf(),
            old(self)@.phase is Replying || old(self)@.phase is Resending,
            old(wire).wf(),
            now <= MAX_DURATION - 7 * MAX_RTT,
        ensures
            final(self).wf(),
            final(wire).wf(),
            (final(self)@, final(wire)@, r@) == sending_over(old(self)@, old(wire)@, now),
    {
        match self.phase {
            Phase::Replying => {
                self.last_reply = Some(now);
            },
            _ => {
                if !self.lost {
                    wire.on_loss();
                    self.lost = true;
                }
            },
        }
        self.phase = Phase::Waiting;
        self.deadline = now + self.idle;
        Action::Wait
    }

    /// The request being answered.
    fn request(&self) -> (r: Message)
        requires
            self.wf(),
            self@.last_request is Some,
        ensures
            r@ == self@.last_request->Some_0,
    {
        match &self.last_request {
            Some(m) => copy_request(m),
            None => Message::GetHead,
        }
    }

    /// Whether a live-tail poll is to be held until the feed grows, or a
    /// keepalive elapses. Held only while exactly at the head.
    pub fn holds(request: &Message, response: &Message) -> (r: bool)
        ensures
            r == is_held(request@, response@),
    {
        match (request, response) {
            (Message::Tail { have }, Message::Head(h)) => h.len == *have,
            _ => false,
        }
    }
}

/// The keepalive of a held poll: half the client's interval, in nanoseconds.
pub fn keepalive(cfg: &Config) -> (r: u128)
    ensures
        r == cfg.request_timeout / 2,
{
    cfg.request_timeout / 2
}

/// A loss is counted once for each reply, however often fragments of it are
/// resent.
pub proof fn law_loss_is_counted_once(s: ServingView, w: WireView, now: u128)
    requires
        s.phase is Resending,
    ensures
        sending_over(s, w, now).0.lost,
        s.lost ==> sending_over(s, w, now).1 == w,
{
}

/// What happened, and when.
pub type Happening = (EventView, u128);

/// A session and its wire after a series of events.
pub open spec fn run(s: ServingView, w: WireView, events: Seq<Happening>) -> (ServingView, WireView)
    decreases events.len(),
{
    if events.len() == 0 {
        (s, w)
    } else {
        let (a, b) = run(s, w, events.drop_last());
        let r = stepped(a, b, events.last().0, events.last().1);
        (r.0, r.1)
    }
}

/// What the last event of a series gives to do.
pub open spec fn last_action(s: ServingView, w: WireView, events: Seq<Happening>) -> ActionView {
    let (a, b) = run(s, w, events.drop_last());
    stepped(a, b, events.last().0, events.last().1).2
}

/// How many requests a session took in.
pub open spec fn asked(s: ServingView, w: WireView, events: Seq<Happening>) -> nat
    decreases events.len(),
{
    if events.len() == 0 {
        0
    } else {
        let before = run(s, w, events.drop_last()).0;
        let n: nat = match events.last().0 {
            EventView::Message(m) => if before.phase is Waiting && requests(m) {
                1
            } else {
                0
            },
            _ => 0,
        };
        asked(s, w, events.drop_last()) + n
    }
}

/// How many of a series' events gave a reply to send, or the error that it is too
/// large.
pub open spec fn answered(s: ServingView, w: WireView, events: Seq<Happening>) -> nat
    decreases events.len(),
{
    if events.len() == 0 {
        0
    } else {
        let a = last_action(s, w, events);
        let n: nat = if a is Reply || a is Fail {
            1
        } else {
            0
        };
        answered(s, w, events.drop_last()) + n
    }
}

/// The last response that a session asked for and got.
pub open spec fn last_response(s: ServingView, w: WireView, events: Seq<Happening>) -> Option<
    MessageView,
>
    decreases events.len(),
{
    if events.len() == 0 {
        None
    } else {
        match (run(s, w, events.drop_last()).0.phase, events.last().0) {
            (Phase::Asked { .. }, EventView::Response(m)) => Some(m),
            _ => last_response(s, w, events.drop_last()),
        }
    }
}

/// Whether a request is being answered.
pub open spec fn is_answering(s: ServingView) -> bool {
    s.phase is Asked || s.phase is Held
}

proof fn lemma_held_response(s: ServingView, w: WireView, events: Seq<Happening>)
    requires
        s.phase is Waiting,
    ensures
        run(s, w, events).0.phase matches Phase::Held { head } ==> last_response(s, w, events) == Some(
            MessageView::Head(head),
        ),
    decreases events.len(),
{
    if events.len() > 0 {
        lemma_held_response(s, w, events.drop_last());
    }
}

/// Each request draws exactly one reply, and it is the last response that it
/// got; nothing else draws one. Only a reply that cannot be sent ends the
/// session instead.
pub proof fn law_each_request_draws_one_reply(
    s: ServingView,
    w: WireView,
    events: Seq<Happening>,
)
    requires
        s.phase is Waiting,
    ensures
        asked(s, w, events) == answered(s, w, events) + (if is_answering(run(s, w, events).0) {
            1nat
        } else {
            0
        }),
        events.len() > 0 ==> match last_action(s, w, events) {
            ActionView::Reply(out) => last_response(s, w, events) matches Some(m) && sent(
                run(s, w, events.drop_last()).1,
                m,
            ).1 == Ok::<Seq<Seq<u8>>, TransferError>(out),
            ActionView::Fail(e) => last_response(s, w, events) matches Some(m) && sent(
                run(s, w, events.drop_last()).1,
                m,
            ).1 == Err::<Seq<Seq<u8>>, TransferError>(e),
            _ => true,
        },
    decreases events.len(),
{
    if events.len() > 0 {
        law_each_request_draws_one_reply(s, w, events.drop_last());
        lemma_held_response(s, w, events.drop_last());
    }
}

/// Only a reply and a resend extend the session: the deadline moves exactly when
/// one of them has been sent, to the idle time from then.
pub proof fn law_only_sending_extends(s: ServingView, w: WireView, e: EventView, now: u128)
    ensures
        ({
            let (next, _, action) = stepped(s, w, e, now);
            let sent = e is Sent && (s.phase is Replying || s.phase is Resending);
            &&& next.deadline == if sent {
                now + s.idle
            } else {
                s.deadline
            }
            &&& next.phase is Replying <==> s.phase is Replying && !sent || action is Reply
            &&& next.phase is Resending <==> s.phase is Resending && !sent || action is Resend
            &&& action matches ActionView::Resend(out) ==> out.len() > 0 && (e matches
                EventView::Nack { id, indices } && out == resent(w, id, indices))
        }),
{
}

/// A session that waits ends, without an error, exactly when nothing arrives until
/// its deadline.
pub proof fn law_idle_session_ends(s: ServingView, w: WireView, e: EventView, now: u128)
    ensures
        stepped(s, w, e, now).2 is End <==> s.phase is Waiting && e is Silence && s.deadline <= now,
        stepped(s, w, e, now).0.phase is Ended <==> s.phase is Ended || stepped(s, w, e, now).2
            is End || stepped(s, w, e, now).2 is Fail,
{
}

/// A request is handed on as it came and remembered; a message that asks for nothing
/// changes nothing.
pub proof fn law_request_is_handed_on(s: ServingView, w: WireView, m: MessageView, now: u128)
    requires
        s.phase is Waiting,
    ensures
        ({
            let (next, wire, action) = stepped(s, w, EventView::Message(m), now);
            if requests(m) {
                &&& action == ActionView::Ask(m)
                &&& next.last_request == Some(m)
                &&& next.phase is Asked
                &&& next.deadline == s.deadline
                &&& next.last_reply == s.last_reply
            } else {
                action is Wait && next == s && wire == w
            }
        }),
{
}

/// The same request again after a reply tells of a loss, which narrows the window; a new
/// one tells that the reply was delivered, which widens it. The first request of all, and
/// one that follows a loss already counted, do neither.
pub proof fn law_requests_tell_what_was_lost(
    s: ServingView,
    w: WireView,
    m: MessageView,
    now: u128,
)
    requires
        s.phase is Waiting,
        requests(m),
        MIN_WINDOW <= w.window <= MAX_WINDOW,
    ensures
        ({
            let (next, wire, action) = stepped(s, w, EventView::Message(m), now);
            &&& w.last_sent is None || s.lost ==> wire == w
            &&& w.last_sent is Some && !s.lost && s.last_request == Some(m) ==> next.lost
                && wire.window <= w.window && (w.window > MIN_WINDOW
                ==> wire.window < w.window)
            &&& w.last_sent is Some && !s.lost && s.last_request != Some(m) ==> wire.window
                >= w.window && (w.window < MAX_WINDOW ==> wire.window > w.window)
            &&& s.last_request != Some(m) ==> !next.lost
        }),
{
}

/// A follower that has every block is not answered at once: its request is watched over,
/// asked once more, and then held until something is appended, when it is asked again, or
/// until the keepalive, when it gets the head it would have got. Every other response is
/// sent.
pub proof fn law_caught_up_follower_is_held(
    s: ServingView,
    w: WireView,
    have: u64,
    response: MessageView,
    now: u128,
)
    requires
        s.last_request == Some(MessageView::Tail { have }),
        s.tail,
    ensures
        response matches MessageView::Head(h) && h.len == have ==> {
            let e = EventView::Response(response);
            let watched = stepped(
                ServingView { phase: Phase::Asked { watching: false }, ..s },
                w,
                e,
                now,
            );
            let held = stepped(watched.0, watched.1, e, now);
            let appended = stepped(held.0, held.1, EventView::Appended, now);
            let kept = stepped(held.0, held.1, EventView::Kept, now);
            &&& watched.2 == ActionView::Watch(MessageView::Tail { have })
            &&& held.2 is Hold
            &&& appended.2 == ActionView::Ask(MessageView::Tail { have })
            &&& sent(w, response).1 matches Ok(out) ==> kept.2 == ActionView::Reply(out)
            &&& watched.1 == w && held.1 == w
        },
        !(response matches MessageView::Head(h) && h.len == have) ==> forall|watching: bool|
            sent(w, response).1 matches Ok(out) ==> (#[trigger] stepped(
                ServingView { phase: Phase::Asked { watching }, ..s },
                w,
                EventView::Response(response),
                now,
            )).2 == ActionView::Reply(out),
{
}

/// What a request other than a follower's asks for is sent, whatever it is.
pub proof fn law_response_is_sent(
    s: ServingView,
    w: WireView,
    response: MessageView,
    now: u128,
)
    requires
        s.phase is Asked,
        s.last_request is Some,
        !s.tail || !(s.last_request->Some_0 is Tail),
    ensures
        ({
            let (next, wire, action) = stepped(s, w, EventView::Response(response), now);
            &&& sent(w, response).1 matches Ok(out) ==> action == ActionView::Reply(out)
            &&& sent(w, response).1 matches Err(e) ==> action == ActionView::Fail(e)
            &&& wire == sent(w, response).0
        }),
{
}

/// A report of missing fragments is answered with those of the last reply that it names,
/// and counts as a loss once they are sent; one that names none changes nothing.
pub proof fn law_missing_fragments_are_resent(
    s: ServingView,
    w: WireView,
    id: u64,
    indices: Seq<u64>,
    now: u128,
    later: u128,
)
    requires
        s.phase is Waiting,
        MIN_WINDOW <= w.window <= MAX_WINDOW,
    ensures
        ({
            let (next, wire, action) = stepped(s, w, EventView::Nack { id, indices }, now);
            let (after, narrowed, _) = stepped(next, wire, EventView::Sent, later);
            let out = resent(w, id, indices);
            &&& wire == w
            &&& out.len() == 0 ==> next == s && action is Wait
            &&& out.len() > 0 ==> action == ActionView::Resend(out) && after.lost
                && after.deadline == later + s.idle
            &&& out.len() > 0 && !s.lost && w.window > MIN_WINDOW
                ==> narrowed.window < w.window
            &&& out.len() > 0 && s.lost ==> narrowed == w
        }),
{
}

} // verus!
