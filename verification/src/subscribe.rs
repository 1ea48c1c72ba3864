//! Following a feed as it grows.
//!
//! Each round a subscriber asks for a head past what it has, which the server
//! holds back until there is one, fetches the blocks up to it, delivers them and
//! moves its cursor on. No block is fetched or delivered twice.
use crate::feed::Head;
use crate::lists::views;
use crate::sync::{
    blocks_between, download_handled, download_ok, download_polled, fresh_download,
    lemma_blocks_between, next_missing, DownloadView, FeedDownload,
};
use crate::sync_msg::{Message, MessageView, SyncError};
use vstd::prelude::*;

verus! {

/// Where a subscriber's cursor stands after a round: it never goes backwards,
/// even if a provider's head is behind it.
pub open spec fn cursor_after(from: u64, head: Option<Head>) -> u64 {
    match head {
        Some(h) => if h.len > from {
            h.len
        } else {
            from
        },
        None => from,
    }
}

/// A [`Subscription`] as a mathematical value.
#[verifier::ext_equal]
pub struct SubscriptionView {
    /// The feed's public key.
    pub key: Seq<u8>,
    /// How many blocks have been delivered, or were there before.
    pub from: u64,
    /// The round under way, once its head has arrived.
    pub round: Option<DownloadView>,
}

/// What holds of every subscription: the round under way continues where the
/// last one ended, and has every block before its cursor.
pub open spec fn subscription_ok(v: SubscriptionView) -> bool {
    v.round matches Some(d) ==> {
        &&& download_ok(d)
        &&& d.key == v.key
        &&& d.base == v.from
        &&& d.head is Some
        &&& d.base <= d.cursor
        &&& forall|k: u64|
            d.base <= k < d.cursor && k < d.head->Some_0.len ==> #[trigger] d.received.contains_key(
                k,
            )
    }
}

/// The next request of a subscription; `None` if the round is complete.
pub open spec fn subscription_polled(v: SubscriptionView) -> (
    SubscriptionView,
    Option<MessageView>,
) {
    match v.round {
        None => (v, Some(MessageView::Tail { have: v.from })),
        Some(d) => (
            SubscriptionView { round: Some(download_polled(d).0), ..v },
            download_polled(d).1,
        ),
    }
}

/// A response taken in by a subscription, given whether what it carries
/// verifies. One that is refused changes nothing, and neither does a response
/// to a new round that carries no head.
pub open spec fn subscription_handled(v: SubscriptionView, m: MessageView, verified: bool) -> (
    SubscriptionView,
    Result<(), SyncError>,
) {
    let d = match v.round {
        Some(d) => d,
        None => fresh_download(v.key, v.from),
    };
    let (d1, r) = download_handled(d, m, verified);
    if r is Ok {
        (SubscriptionView { round: Some(d1), ..v }, r)
    } else {
        (v, r)
    }
}

/// A round that is over: the cursor moved on, and the blocks to deliver.
pub open spec fn subscription_finished(v: SubscriptionView) -> (SubscriptionView, Seq<Seq<u8>>) {
    match v.round {
        None => (v, Seq::empty()),
        Some(d) => (
            SubscriptionView { from: cursor_after(v.from, d.head), round: None, ..v },
            match d.head {
                Some(h) => blocks_between(d.received, d.base, h.len),
                None => Seq::empty(),
            },
        ),
    }
}

proof fn lemma_before_next_missing(received: Map<u64, Seq<u8>>, c: u64, len: u64)
    ensures
        c <= next_missing(received, c, len),
        c <= len ==> next_missing(received, c, len) <= len,
        forall|k: u64|
            c <= k < next_missing(received, c, len) ==> #[trigger] received.contains_key(k),
    decreases len - c,
{
    if c < len && received.contains_key(c) {
        lemma_before_next_missing(received, (c + 1) as u64, len);
    }
}

proof fn lemma_polled_ok(v: SubscriptionView)
    requires
        subscription_ok(v),
    ensures
        subscription_ok(subscription_polled(v).0),
{
    if let Some(d) = v.round {
        lemma_before_next_missing(d.received, d.cursor, d.head->Some_0.len);
    }
}

/// A subscription to a feed.
pub struct Subscription {
    public_key: [u8; 32],
    from: u64,
    round: Option<FeedDownload>,
}

impl View for Subscription {
    type V = SubscriptionView;

    closed spec fn view(&self) -> SubscriptionView {
        SubscriptionView {
            key: self.public_key@,
            from: self.from,
            round: match self.round {
                Some(d) => Some(d@),
                None => None,
            },
        }
    }
}

impl Subscription {
    /// Whether what holds of every subscription holds of this one.
    pub open spec fn wf(&self) -> bool {
        subscription_ok(self@)
    }

    /// Follow a feed of which the first `from` blocks are there already.
    pub fn new(public_key: [u8; 32], from: u64) -> (r: Self)
        ensures
            r.wf(),
            r@ == (SubscriptionView { key: public_key@, from, round: None }),
    {
        Subscription { public_key, from, round: None }
    }

    /// How many blocks have been delivered, or were there before.
    pub fn cursor(&self) -> (r: u64)
        ensures
            r == self@.from,
    {
        self.from
    }

    /// The head of the round under way.
    pub fn head(&self) -> (r: Option<Head>)
        ensures
            r == (match self@.round {
                Some(d) => d.head,
                None => None,
            }),
    {
        match &self.round {
            Some(d) => d.head(),
            None => None,
        }
    }

    /// The next request to send, or `None` if the round is complete.
    pub fn poll_request(&mut self) -> (r: Option<Message>)
        requires
            old(self).wf(),
        ensures
            final(self).wf(),
            final(self)@ == subscription_polled(old(self)@).0,
            match subscription_polled(old(self)@).1 {
                Some(m) => r is Some && r->Some_0@ == m,
                None => r is None,
            },
    {
        proof {
            lemma_polled_ok(self@);
        }
        match &mut self.round {
            None => Some(Message::Tail { have: self.from }),
            Some(d) => d.poll_request(),
        }
    }

    /// Fold in a response. `verified` says, of a head, whether it is signed with
    /// the feed's key, and of a block, whether its proof verifies against the
    /// head of the round.
    pub fn handle_response(&mut self, response: &Message, verified: bool) -> (r: Result<
        (),
        SyncError,
    >)
        requires
            old(self).wf(),
        ensures
            final(self).wf(),
            (final(self)@, r) == subscription_handled(old(self)@, response@, verified),
    {
        match &mut self.round {
            Some(d) => d.handle_response(response, verified),
            None => {
                let mut d = FeedDownload::resume(self.public_key, self.from);
                match d.handle_response(response, verified) {
                    Ok(_) => {
                        self.round = Some(d);
                        Ok(())
                    },
                    Err(e) => Err(e),
                }
            },
        }
    }

    /// End the round: the blocks to deliver, the first being the one at the
    /// cursor, which then moves past them.
    pub fn finish_round(&mut self) -> (r: Vec<Vec<u8>>)
        requires
            old(self).wf(),
        ensures
            final(self).wf(),
            (final(self)@, views(r@)) == subscription_finished(old(self)@),
    {
        match self.round.take() {
            Some(d) => {
                let head: Option<Head> = d.head();
                let blocks: Vec<Vec<u8>> = d.into_blocks();
                if let Some(h) = head {
                    if h.len > self.from {
                        self.from = h.len;
                    }
                }
                blocks
            },
            None => {
                let none: Vec<Vec<u8>> = Vec::new();
                assert(views(none@) =~= Seq::<Seq<u8>>::empty());
                none
            },
        }
    }
}

/// The cursor never goes backwards, whatever a provider reports.
pub proof fn law_cursor_never_regresses(v: SubscriptionView, m: MessageView, verified: bool)
    ensures
        subscription_polled(v).0.from == v.from,
        subscription_handled(v, m, verified).0.from == v.from,
        subscription_finished(v).0.from >= v.from,
{
}

/// A complete round delivers each block from the cursor up to the head, once and
/// in order, and the cursor moves on by as many.
pub proof fn law_round_delivers_each_block_once(v: SubscriptionView, i: int)
    requires
        subscription_ok(v),
        v.round is Some,
        subscription_polled(v).1 is None,
    ensures
        ({
            let (w, blocks) = subscription_finished(v);
            &&& w.from == v.from + blocks.len()
            &&& 0 <= i < blocks.len() ==> blocks[i] == v.round->Some_0.received[(v.from
                + i) as u64]
        }),
{
    let d = v.round->Some_0;
    let len = d.head->Some_0.len;
    lemma_before_next_missing(d.received, d.cursor, len);
    let c = next_missing(d.received, d.cursor, len);
    if v.from <= len {
        assert forall|k: u64| v.from <= k < len implies #[trigger] d.received.contains_key(k) by {
            if k >= d.cursor {
                assert(k < c);
            }
        }
        lemma_blocks_between(d.received, v.from, len, i);
    }
}

/// What does not verify is never delivered.
pub proof fn law_subscription_takes_only_what_verifies(v: SubscriptionView, m: MessageView)
    requires
        !(m is Head && v.round is Some),
    ensures
        subscription_handled(v, m, false).0 == v,
        subscription_handled(v, m, false).1 is Err,
{
}

/// A subscriber polls for what comes after what it has: from its start at first, and
/// after each round from the end of the feed as it then stood, or where it was.
pub proof fn law_next_poll_goes_on_from_the_head(v: SubscriptionView)
    ensures
        v.round is None ==> subscription_polled(v).1 == Some(MessageView::Tail { have: v.from }),
        v.round matches Some(d) ==> (d.head matches Some(h) ==> {
            let r = subscription_finished(v).0;
            subscription_polled(r).1 == Some(
                MessageView::Tail {
                    have: if h.len > v.from {
                        h.len
                    } else {
                        v.from
                    },
                },
            )
        }),
{
}

} // verus!
