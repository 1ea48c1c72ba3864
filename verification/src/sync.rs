//! Synchronization without I/O: pull a feed or a blob from a peer, verifying
//! everything received before accepting it.
//!
//! A client state machine ([`FeedDownload`], [`FeedWindow`], [`BlobDownload`])
//! emits requests and consumes responses; a server function ([`serve_feed`],
//! [`serve_blob`]) answers a request from what is held locally.
//!
//! The downloads mirror the two trust models of the data layer:
//!
//! - a feed is trusted via a public key the client already knows: the head must
//!   be signed by it, and every block must carry an inclusion proof that verifies
//!   against that signed head. Whoever holds the feed's tree checks both, and
//!   hands the verdict to the download along with the response;
//! - a blob is trusted via its content address: the manifest must hash to the id
//!   requested, and every chunk must hash to one the manifest names.
//!
//! Either way a peer that sends anything that doesn't verify is rejected.
pub use crate::blob_download::{serve_blob, BlobDownload};
pub use crate::feed_window::{FeedWindow, WindowData};
pub use crate::sync_msg::{Message, MessageView, SyncError};

use crate::bytes::copy_of;
use crate::crypto::Digest;
use crate::feed::{Head, Proof};
use crate::lists::{
    copied, first, found, lemma_first, lemma_first_at, lemma_first_none, lemma_views_push, views,
};
use crate::sync_msg::requests;
use std::collections::HashMap;
use vstd::prelude::*;

verus! {

broadcast use vstd::std_specs::hash::group_hash_axioms;

/// Upper bound on the number of blocks a download will sync. The head's length
/// is attacker-influenced, so a client refuses a head claiming more than this.
pub const MAX_SYNC_BLOCKS: u64 = 1_048_576;

/// A block, its index and the proof that it belongs to the head.
#[derive(Debug, Clone)]
pub struct HeldBlock {
    /// The block's index.
    pub index: u64,
    /// The block bytes.
    pub data: Vec<u8>,
    /// Inclusion proof against the head.
    pub proof: Proof,
}

/// A [`HeldBlock`] as a mathematical value.
#[verifier::ext_equal]
pub struct HeldBlockView {
    /// The block's index.
    pub index: u64,
    /// The block bytes.
    pub data: Seq<u8>,
    /// Inclusion proof against the head.
    pub proof: Seq<Digest>,
}

impl View for HeldBlock {
    type V = HeldBlockView;

    open spec fn view(&self) -> HeldBlockView {
        HeldBlockView { index: self.index, data: self.data@, proof: self.proof@ }
    }
}

/// What a server can show of a feed.
#[derive(Debug, Clone)]
pub struct FeedState {
    /// The signed head.
    pub head: Head,
    /// The blocks held, each with its proof.
    pub blocks: Vec<HeldBlock>,
    /// The peak nodes as flat index and hash, largest peak first.
    pub peaks: Vec<(u64, Digest)>,
    /// The half-open index ranges held, ascending.
    pub ranges: Vec<(u64, u64)>,
}

/// A [`FeedState`] as a mathematical value.
#[verifier::ext_equal]
pub struct FeedStateView {
    /// The signed head.
    pub head: Head,
    /// The blocks held.
    pub blocks: Seq<HeldBlockView>,
    /// The peak nodes.
    pub peaks: Seq<(u64, Digest)>,
    /// The index ranges held.
    pub ranges: Seq<(u64, u64)>,
}

impl View for FeedState {
    type V = FeedStateView;

    open spec fn view(&self) -> FeedStateView {
        FeedStateView {
            head: self.head,
            blocks: views(self.blocks@),
            peaks: self.peaks@,
            ranges: self.ranges@,
        }
    }
}

/// The block with an index.
pub open spec fn at_index(index: u64) -> spec_fn(HeldBlockView) -> bool {
    |b: HeldBlockView| b.index == index
}

/// A feed server's answer.
pub open spec fn feed_answer(request: MessageView, source: FeedStateView) -> MessageView {
    match request {
        MessageView::GetHead => MessageView::Head(source.head),
        MessageView::Tail { .. } => MessageView::Head(source.head),
        MessageView::GetBlock { index } => match first(source.blocks, at_index(index)) {
            Some(k) => MessageView::Block {
                index,
                data: source.blocks[k].data,
                proof: source.blocks[k].proof,
            },
            None => MessageView::Absent,
        },
        MessageView::GetPeaks => MessageView::Peaks { nodes: source.peaks },
        MessageView::GetFeedHave => MessageView::FeedHave { ranges: source.ranges },
        _ => MessageView::Absent,
    }
}

fn find_block(s: &Vec<HeldBlock>, index: u64) -> (r: Option<usize>)
    ensures
        found(views(s@), at_index(index), r),
{
    let mut i: usize = 0;
    while i < s.len()
        invariant
            i <= s.len(),
            forall|j: int| 0 <= j < i ==> !at_index(index)(#[trigger] views(s@)[j]),
        decreases s.len() - i,
    {
        assert(views(s@)[i as int] == s@[i as int]@);
        if s[i].index == index {
            proof {
                lemma_first_at(views(s@), at_index(index), i as int);
            }
            return Some(i);
        }
        i += 1;
    }
    proof {
        lemma_first_none(views(s@), at_index(index));
    }
    None
}

/// Answer a sync request from a local feed. Requests the server can't satisfy
/// get [`Message::Absent`].
pub fn serve_feed(request: &Message, source: &FeedState) -> (r: Message)
    ensures
        r@ == feed_answer(request@, source@),
{
    match request {
        Message::GetHead => Message::Head(source.head),
        Message::Tail { .. } => Message::Head(source.head),
        Message::GetBlock { index } => match find_block(&source.blocks, *index) {
            Some(k) => {
                assert(views(source.blocks@)[k as int] == source.blocks@[k as int]@);
                Message::Block {
                    index: *index,
                    data: copy_of(source.blocks[k].data.as_slice()),
                    proof: source.blocks[k].proof.copy(),
                }
            },
            None => Message::Absent,
        },
        Message::GetPeaks => Message::Peaks { nodes: copied(&source.peaks) },
        Message::GetFeedHave => Message::FeedHave { ranges: copied(&source.ranges) },
        _ => Message::Absent,
    }
}

/// A [`FeedDownload`] as a mathematical value.
#[verifier::ext_equal]
pub struct DownloadView {
    /// The feed's public key.
    pub key: Seq<u8>,
    /// The verified head, once there is one.
    pub head: Option<Head>,
    /// The verified blocks received so far.
    pub received: Map<u64, Seq<u8>>,
    /// The block to request next, if it is still missing.
    pub cursor: u64,
    /// Blocks below this index are already held: never requested, never stored,
    /// never returned.
    pub base: u64,
}

/// What holds of every download: nothing is received before the head, and
/// nothing outside what the download is for.
pub open spec fn download_ok(v: DownloadView) -> bool {
    &&& v.received.dom().finite()
    &&& match v.head {
        Some(h) => h.len <= MAX_SYNC_BLOCKS && forall|k: u64| #[trigger]
            v.received.contains_key(k) ==> v.base <= k < h.len,
        None => v.received == Map::<u64, Seq<u8>>::empty(),
    }
}

/// The first block from `c` on that has not been received.
pub open spec fn next_missing(received: Map<u64, Seq<u8>>, c: u64, len: u64) -> u64
    decreases len - c,
{
    if c < len && received.contains_key(c) {
        next_missing(received, (c + 1) as u64, len)
    } else {
        c
    }
}

/// The next request of a download: the head first, then missing blocks in order.
pub open spec fn download_polled(v: DownloadView) -> (DownloadView, Option<MessageView>) {
    match v.head {
        None => (v, Some(MessageView::GetHead)),
        Some(h) => {
            let c = next_missing(v.received, v.cursor, h.len);
            (
                DownloadView { cursor: c, ..v },
                if c < h.len {
                    Some(MessageView::GetBlock { index: c })
                } else {
                    None
                },
            )
        },
    }
}

/// A response taken in by a download, given whether what it carries verifies.
pub open spec fn download_handled(v: DownloadView, m: MessageView, verified: bool) -> (
    DownloadView,
    Result<(), SyncError>,
) {
    match m {
        MessageView::Head(head) => if v.head is Some {
            (v, Ok(()))
        } else if head.len > MAX_SYNC_BLOCKS {
            (v, Err(SyncError::TooLong))
        } else if !verified {
            (v, Err(SyncError::BadHead))
        } else {
            (DownloadView { head: Some(head), ..v }, Ok(()))
        },
        MessageView::Block { index, data, proof } => match v.head {
            None => (v, Err(SyncError::Unsolicited)),
            Some(h) => if !verified || index >= h.len {
                (v, Err(SyncError::BadBlock))
            } else if index < v.base || v.received.contains_key(index) {
                (v, Ok(()))
            } else {
                (DownloadView { received: v.received.insert(index, data), ..v }, Ok(()))
            },
        },
        MessageView::Absent => (v, Err(SyncError::Absent)),
        _ => (v, Err(SyncError::Unexpected)),
    }
}

/// Whether every block from the base up to the head has been received.
pub open spec fn download_complete(v: DownloadView) -> bool {
    match v.head {
        Some(h) => forall|k: u64| v.base <= k < h.len ==> #[trigger] v.received.contains_key(k),
        None => false,
    }
}

/// The blocks received from one index up to another, in order.
pub open spec fn blocks_between(received: Map<u64, Seq<u8>>, from: u64, to: u64) -> Seq<Seq<u8>>
    decreases to - from,
{
    if from >= to {
        Seq::empty()
    } else if received.contains_key(from) {
        seq![received[from]] + blocks_between(received, (from + 1) as u64, to)
    } else {
        blocks_between(received, (from + 1) as u64, to)
    }
}

/// The indices from one up to another.
spec fn index_range(from: u64, to: u64) -> Set<u64> {
    Set::new(|k: u64| from <= k < to)
}

proof fn lemma_index_range(from: u64, to: u64)
    requires
        from <= to,
    ensures
        index_range(from, to).finite(),
        index_range(from, to).len() == to - from,
    decreases to - from,
{
    if from == to {
        assert(index_range(from, to) =~= Set::empty());
    } else {
        let last = (to - 1) as u64;
        lemma_index_range(from, last);
        assert(index_range(from, last).insert(last) =~= index_range(from, to));
    }
}

/// All of a download's blocks have been received exactly if as many have been
/// received as there are.
proof fn lemma_complete_by_count(v: DownloadView)
    requires
        download_ok(v),
        v.head is Some,
    ensures
        download_complete(v) <==> v.received.dom().len() == (if v.base <= v.head->Some_0.len {
            v.head->Some_0.len - v.base
        } else {
            0
        }),
{
    let len = v.head->Some_0.len;
    let to = if v.base <= len {
        len
    } else {
        v.base
    };
    let all = index_range(v.base, to);
    let got = v.received.dom();
    lemma_index_range(v.base, to);
    assert(got.subset_of(all)) by {
        assert forall|k: u64| got.contains(k) implies all.contains(k) by {
            assert(v.received.contains_key(k));
        }
    }
    if download_complete(v) {
        assert(got =~= all) by {
            assert forall|k: u64| all.contains(k) implies got.contains(k) by {
                assert(v.received.contains_key(k));
            }
        }
    }
    if got.len() == all.len() {
        vstd::set_lib::lemma_subset_equality(got, all);
        assert forall|k: u64| v.base <= k < len implies #[trigger] v.received.contains_key(k) by {
            assert(all.contains(k));
        }
    }
}

/// The bytes of the blocks received.
spec fn block_bytes(m: Map<u64, Vec<u8>>) -> Map<u64, Seq<u8>> {
    m.map_values(|v: Vec<u8>| v@)
}

/// The client side of a feed sync: request the head, then each block, verifying
/// every response against the feed's public key. Drive it by alternating
/// [`FeedDownload::poll_request`] and [`FeedDownload::handle_response`].
pub struct FeedDownload {
    public_key: [u8; 32],
    head: Option<Head>,
    received: HashMap<u64, Vec<u8>>,
    cursor: u64,
    base: u64,
}

impl View for FeedDownload {
    type V = DownloadView;

    closed spec fn view(&self) -> DownloadView {
        DownloadView {
            key: self.public_key@,
            head: self.head,
            received: block_bytes(self.received@),
            cursor: self.cursor,
            base: self.base,
        }
    }
}

impl FeedDownload {
    /// Whether what holds of every download holds of this one.
    pub open spec fn wf(&self) -> bool {
        download_ok(self@)
    }

    /// Begin syncing the feed identified by `public_key` from the start.
    pub fn new(public_key: [u8; 32]) -> (r: Self)
        ensures
            r.wf(),
            r@ == (DownloadView {
                key: public_key@,
                head: None,
                received: Map::empty(),
                cursor: 0,
                base: 0,
            }),
    {
        Self::resume(public_key, 0)
    }

    /// Resume syncing from block `have`: the caller already holds blocks below
    /// it, so this download requests, stores, and returns only the rest.
    pub fn resume(public_key: [u8; 32], have: u64) -> (r: Self)
        ensures
            r.wf(),
            r@ == (DownloadView {
                key: public_key@,
                head: None,
                received: Map::empty(),
                cursor: have,
                base: have,
            }),
    {
        let r = FeedDownload {
            public_key,
            head: None,
            received: HashMap::new(),
            cursor: have,
            base: have,
        };
        assert(r@.received =~= Map::empty());
        r
    }

    /// The key the head must be signed with.
    pub fn public_key(&self) -> (r: [u8; 32])
        ensures
            r@ == self@.key,
    {
        self.public_key
    }

    /// The next request to send, or `None` when the sync is complete. Requests
    /// the head first, then missing blocks in order.
    pub fn poll_request(&mut self) -> (r: Option<Message>)
        requires
            old(self).wf(),
        ensures
            final(self).wf(),
            final(self)@ == download_polled(old(self)@).0,
            match download_polled(old(self)@).1 {
                Some(m) => r is Some && r->Some_0@ == m,
                None => r is None,
            },
    {
        let len: u64 = match &self.head {
            Some(head) => head.len,
            None => {
                return Some(Message::GetHead);
            },
        };
        while self.cursor < len && self.received.contains_key(&self.cursor)
            invariant
                self.head == old(self).head,
                self.head is Some && self.head->Some_0.len == len,
                self.received == old(self).received,
                self.public_key == old(self).public_key,
                self.base == old(self).base,
                next_missing(self@.received, self.cursor, len) == next_missing(
                    old(self)@.received,
                    old(self).cursor,
                    len,
                ),
            decreases len - self.cursor,
        {
            assert(self@.received.contains_key(self.cursor));
            self.cursor += 1;
        }
        assert(self.cursor < len ==> !self@.received.contains_key(self.cursor));
        if self.cursor < len {
            Some(Message::GetBlock { index: self.cursor })
        } else {
            None
        }
    }

    /// Fold in a response. `verified` says, of a head, whether it is signed with
    /// [`FeedDownload::public_key`], and of a block, whether its proof verifies
    /// against the accepted head.
    ///
    /// The first head wins: a later one is ignored, not re-validated, so a peer
    /// can't abort a healthy download with a crafted second head.
    pub fn handle_response(&mut self, response: &Message, verified: bool) -> (r: Result<
        (),
        SyncError,
    >)
        requires
            old(self).wf(),
        ensures
            final(self).wf(),
            (final(self)@, r) == download_handled(old(self)@, response@, verified),
    {
        match response {
            Message::Head(head) => {
                if self.head.is_some() {
                    return Ok(());
                }
                if head.len > MAX_SYNC_BLOCKS {
                    return Err(SyncError::TooLong);
                }
                if !verified {
                    return Err(SyncError::BadHead);
                }
                self.head = Some(*head);
                Ok(())
            },
            Message::Block { index, data, proof } => {
                let len: u64 = match &self.head {
                    Some(head) => head.len,
                    None => {
                        return Err(SyncError::Unsolicited);
                    },
                };
                if !verified || *index >= len {
                    return Err(SyncError::BadBlock);
                }
                assert(self.received@.contains_key(*index) == self@.received.contains_key(*index));
                if *index < self.base || self.received.contains_key(index) {
                    return Ok(());
                }
                let copy: Vec<u8> = copy_of(data.as_slice());
                self.received.insert(*index, copy);
                assert(self@.received =~= old(self)@.received.insert(*index, data@));
                Ok(())
            },
            Message::Absent => Err(SyncError::Absent),
            _ => Err(SyncError::Unexpected),
        }
    }

    /// The synced feed's head, once received and verified.
    pub fn head(&self) -> (r: Option<Head>)
        ensures
            r == self@.head,
    {
        self.head
    }

    /// Whether every block from the base up to the head has been received and
    /// verified.
    pub fn is_complete(&self) -> (r: bool)
        requires
            self.wf(),
        ensures
            r == download_complete(self@),
    {
        match &self.head {
            Some(head) => {
                proof {
                    lemma_complete_by_count(self@);
                    assert(self@.received.dom() =~= self.received@.dom());
                }
                let want: u64 = if self.base <= head.len {
                    head.len - self.base
                } else {
                    0
                };
                self.received.len() as u64 == want
            },
            None => false,
        }
    }

    /// The verified blocks in order, from the base to the head. A missing block
    /// is skipped.
    pub fn into_blocks(self) -> (r: Vec<Vec<u8>>)
        ensures
            views(r@) == (match self@.head {
                Some(h) => blocks_between(self@.received, self@.base, h.len),
                None => Seq::<Seq<u8>>::empty(),
            }),
    {
        let mut out: Vec<Vec<u8>> = Vec::new();
        assert(views(out@) =~= Seq::<Seq<u8>>::empty());
        let len: u64 = match &self.head {
            Some(head) => head.len,
            None => {
                return out;
            },
        };
        let base: u64 = self.base;
        let mut received = self.received;
        let ghost all = block_bytes(received@);
        let ghost want = blocks_between(all, base, len);
        let mut i: u64 = base;
        assert(views(out@) + want =~= want);
        while i < len
            invariant
                base <= i,
                views(out@) + blocks_between(all, i, len) == want,
                forall|k: u64|
                    k >= i ==> #[trigger] received@.contains_key(k) == all.contains_key(k),
                forall|k: u64|
                    k >= i && #[trigger] received@.contains_key(k) ==> received@[k]@ == all[k],
            decreases len - i,
        {
            let ghost before = out@;
            let ghost rest = blocks_between(all, (i + 1) as u64, len);
            let ghost had = received@;
            match received.remove(&i) {
                Some(data) => {
                    assert(had.contains_key(i));
                    proof {
                        lemma_views_push(before, data);
                        assert(views(before).push(data@) + rest =~= views(before) + (seq![data@]
                            + rest));
                    }
                    out.push(data);
                },
                None => {
                    assert(!had.contains_key(i));
                },
            }
            i += 1;
        }
        assert(views(out@) + Seq::<Seq<u8>>::empty() =~= views(out@));
        out
    }
}

/// One round of a download against a server whose responses verify.
pub open spec fn download_round(v: DownloadView, source: FeedStateView) -> DownloadView {
    let (v1, request) = download_polled(v);
    match request {
        Some(m) => download_handled(v1, feed_answer(m, source), true).0,
        None => v1,
    }
}

/// Rounds of a download, one after the other.
pub open spec fn download_rounds(v: DownloadView, source: FeedStateView, n: nat) -> DownloadView
    decreases n,
{
    if n == 0 {
        v
    } else {
        download_round(download_rounds(v, source, (n - 1) as nat), source)
    }
}

/// A download that has asked for nothing yet.
pub open spec fn fresh_download(key: Seq<u8>, have: u64) -> DownloadView {
    DownloadView { key, head: None, received: Map::empty(), cursor: have, base: have }
}

/// Whether a server holds every block from `base` up to its head.
pub open spec fn serves_from(source: FeedStateView, base: u64) -> bool {
    forall|k: u64|
        base <= k < source.head.len ==> #[trigger] first(source.blocks, at_index(k)) is Some
}

/// The bytes of a block a server holds.
pub open spec fn served_bytes(source: FeedStateView, k: u64) -> Seq<u8> {
    source.blocks[first(source.blocks, at_index(k))->Some_0].data
}

proof fn lemma_next_missing(received: Map<u64, Seq<u8>>, c: u64, m: u64, len: u64)
    requires
        c <= m <= len,
        forall|k: u64| c <= k < m ==> #[trigger] received.contains_key(k),
        m < len ==> !received.contains_key(m),
    ensures
        next_missing(received, c, len) == m,
    decreases m - c,
{
    if c < m {
        assert(received.contains_key(c));
        lemma_next_missing(received, (c + 1) as u64, m, len);
    }
}

proof fn lemma_honest_rounds(key: Seq<u8>, have: u64, source: FeedStateView, k: nat)
    requires
        source.head.len <= MAX_SYNC_BLOCKS,
        serves_from(source, have),
        have <= source.head.len,
        k <= source.head.len - have,
    ensures
        ({
            let v = download_rounds(fresh_download(key, have), source, k + 1);
            &&& v.key == key
            &&& v.head == Some(source.head)
            &&& v.base == have
            &&& have <= v.cursor <= have + k
            &&& forall|i: u64| #[trigger] v.received.contains_key(i) <==> have <= i < have + k
            &&& forall|i: u64|
                have <= i < have + k ==> #[trigger] v.received[i] == served_bytes(source, i)
        }),
    decreases k,
{
    let v0 = fresh_download(key, have);
    if k == 0 {
        assert(download_rounds(v0, source, 0) == v0);
        assert(download_rounds(v0, source, 1) == download_round(v0, source));
    } else {
        lemma_honest_rounds(key, have, source, (k - 1) as nat);
        let u = download_rounds(v0, source, k);
        let next = (have + k - 1) as u64;
        lemma_next_missing(u.received, u.cursor, next, source.head.len);
        assert(download_polled(u).1 == Some(MessageView::GetBlock { index: next }));
        assert(first(source.blocks, at_index(next)) is Some);
    }
}

/// Where every block was received, they come out one by one.
pub proof fn lemma_blocks_between(received: Map<u64, Seq<u8>>, from: u64, to: u64, i: int)
    requires
        from <= to,
        forall|k: u64| from <= k < to ==> #[trigger] received.contains_key(k),
    ensures
        blocks_between(received, from, to).len() == to - from,
        0 <= i < to - from ==> blocks_between(received, from, to)[i] == received[(from + i) as u64],
    decreases to - from,
{
    if from < to {
        assert(received.contains_key(from));
        lemma_blocks_between(received, (from + 1) as u64, to, i - 1);
    }
}

/// Whether a round's response, if there is one, was taken without an error.
pub open spec fn round_is_ok(v: DownloadView, source: FeedStateView) -> bool {
    let (v1, request) = download_polled(v);
    match request {
        Some(m) => download_handled(v1, feed_answer(m, source), true).1 is Ok,
        None => true,
    }
}

/// How many blocks of a feed are left from a start on.
pub open spec fn left_from(len: u64, have: u64) -> nat {
    if have < len {
        (len - have) as nat
    } else {
        0
    }
}

/// Syncing from an honest server that holds the feed completes, in one round for
/// the head and one for each block that is left, none of which fails, and yields
/// exactly the server's blocks from the start on: none, for a start past the head.
pub proof fn law_honest_sync_reproduces_the_feed(key: Seq<u8>, have: u64, source: FeedStateView)
    requires
        source.head.len <= MAX_SYNC_BLOCKS,
        serves_from(source, have),
    ensures
        ({
            let rounds = left_from(source.head.len, have) + 1;
            let v = download_rounds(fresh_download(key, have), source, rounds);
            let blocks = blocks_between(v.received, have, source.head.len);
            &&& download_complete(v)
            &&& download_polled(v).1 is None
            &&& v.head == Some(source.head)
            &&& v.base == have
            &&& blocks.len() == left_from(source.head.len, have)
            &&& forall|i: int|
                0 <= i < blocks.len() ==> #[trigger] blocks[i] == served_bytes(
                    source,
                    (have + i) as u64,
                )
            &&& forall|n: nat|
                n < rounds ==> round_is_ok(
                    #[trigger] download_rounds(fresh_download(key, have), source, n),
                    source,
                )
        }),
{
    let len = source.head.len;
    let k = left_from(len, have);
    let v0 = fresh_download(key, have);
    let v = download_rounds(v0, source, k + 1);
    let blocks = blocks_between(v.received, have, len);
    assert(download_rounds(v0, source, 0) == v0);
    if have <= len {
        lemma_honest_rounds(key, have, source, k);
        lemma_next_missing(v.received, v.cursor, len, len);
        lemma_blocks_between(v.received, have, len, 0);
        assert forall|i: int| 0 <= i < blocks.len() implies #[trigger] blocks[i] == served_bytes(
            source,
            (have + i) as u64,
        ) by {
            lemma_blocks_between(v.received, have, len, i);
        }
        assert forall|n: nat| n < k + 1 implies round_is_ok(
            #[trigger] download_rounds(v0, source, n),
            source,
        ) by {
            if n > 0 {
                lemma_honest_rounds(key, have, source, (n - 1) as nat);
                let u = download_rounds(v0, source, n);
                let next = (have + n - 1) as u64;
                lemma_next_missing(u.received, u.cursor, next, len);
                assert(first(source.blocks, at_index(next)) is Some);
            }
        }
    } else {
        assert(download_rounds(v0, source, 1) == download_round(v0, source));
        assert(v.received =~= Map::empty());
    }
}

/// What does not verify changes nothing: only a head and blocks that verify are
/// ever accepted.
pub proof fn law_unverified_is_never_accepted(v: DownloadView, m: MessageView)
    ensures
        download_handled(v, m, false).0 == v,
        m is Head && v.head is None ==> download_handled(v, m, false).1 is Err,
        m is Block ==> download_handled(v, m, false).1 is Err,
{
}

/// Once a head is accepted, no other replaces it, and none aborts the download.
pub proof fn law_first_head_wins(v: DownloadView, head: Head, verified: bool)
    requires
        v.head is Some,
    ensures
        download_handled(v, MessageView::Head(head), verified) == (v, Ok::<(), SyncError>(())),
{
}

/// A server gives the head it has, to a poll as well, and of each block that it holds the
/// bytes and the proof that it holds; of what it lacks it says so.
pub proof fn law_server_gives_what_it_has(
    source: FeedStateView,
    index: u64,
    have: u64,
    k: int,
)
    ensures
        feed_answer(MessageView::GetHead, source) == MessageView::Head(source.head),
        feed_answer(MessageView::Tail { have }, source) == MessageView::Head(source.head),
        feed_answer(MessageView::GetPeaks, source) == (MessageView::Peaks { nodes: source.peaks }),
        feed_answer(MessageView::GetFeedHave, source) == (MessageView::FeedHave {
            ranges: source.ranges,
        }),
        (forall|i: int|
            0 <= i < source.blocks.len() ==> (#[trigger] source.blocks[i]).index != index)
            ==> feed_answer(MessageView::GetBlock { index }, source) == MessageView::Absent,
        0 <= k < source.blocks.len() && source.blocks[k].index == index && (forall|i: int|
            0 <= i < k ==> (#[trigger] source.blocks[i]).index != index) ==> feed_answer(
            MessageView::GetBlock { index },
            source,
        ) == (MessageView::Block {
            index,
            data: source.blocks[k].data,
            proof: source.blocks[k].proof,
        }),
{
    let p = at_index(index);
    lemma_first(source.blocks, p);
    if forall|i: int| 0 <= i < source.blocks.len() ==> (#[trigger] source.blocks[i]).index
        != index {
        assert forall|i: int| 0 <= i < source.blocks.len() implies !p(
            #[trigger] source.blocks[i],
        ) by {}
        crate::lists::lemma_first_none(source.blocks, p);
    }
    if 0 <= k < source.blocks.len() && source.blocks[k].index == index && (forall|i: int|
        0 <= i < k ==> (#[trigger] source.blocks[i]).index != index) {
        assert forall|i: int| 0 <= i < k implies !p(#[trigger] source.blocks[i]) by {}
        lemma_first_at(source.blocks, p, k);
    }
}

/// A server never answers with a request, and a client never asks with an answer.
pub proof fn law_requests_go_one_way(source: FeedStateView, request: MessageView, v: DownloadView)
    ensures
        !requests(feed_answer(request, source)),
        download_polled(v).1 matches Some(m) ==> requests(m),
{
}

/// A block that verifies, is part of the feed and is still missing is kept as it came,
/// and nothing else changes; so is a head that verifies, where there is none yet.
pub proof fn law_verified_block_is_kept(
    v: DownloadView,
    index: u64,
    data: Seq<u8>,
    proof: Seq<Digest>,
    head: Head,
)
    requires
        v.head matches Some(h) ==> v.base <= index < h.len,
        !v.received.contains_key(index),
    ensures
        v.head is Some ==> download_handled(
            v,
            MessageView::Block { index, data, proof },
            true,
        ) == (
            DownloadView { received: v.received.insert(index, data), ..v },
            Ok::<(), SyncError>(()),
        ),
        v.head is None && head.len <= MAX_SYNC_BLOCKS ==> download_handled(
            v,
            MessageView::Head(head),
            true,
        ) == (DownloadView { head: Some(head), ..v }, Ok::<(), SyncError>(())),
{
}

/// A download asks for the first block that it lacks, and for no more once it has them
/// all.
pub proof fn law_download_asks_for_the_first_missing(v: DownloadView, h: Head)
    requires
        v.head == Some(h),
    ensures
        match download_polled(v).1 {
            Some(MessageView::GetBlock { index }) => v.cursor <= index < h.len
                && !v.received.contains_key(index) && forall|k: u64|
                v.cursor <= k < index ==> #[trigger] v.received.contains_key(k),
            Some(_) => false,
            None => forall|k: u64|
                v.cursor <= k < h.len ==> #[trigger] v.received.contains_key(k),
        },
{
    lemma_next_missing_is_first(v.received, v.cursor, h.len);
}

proof fn lemma_next_missing_is_first(received: Map<u64, Seq<u8>>, c: u64, len: u64)
    ensures
        ({
            let n = next_missing(received, c, len);
            &&& c <= n
            &&& n < len ==> !received.contains_key(n)
            &&& forall|k: u64| c <= k < n ==> #[trigger] received.contains_key(k)
        }),
    decreases len - c,
{
    if c < len && received.contains_key(c) {
        lemma_next_missing_is_first(received, (c + 1) as u64, len);
    }
}

/// What a download does not take it refuses, and stays as it is: a feed too long, a block
/// before the head, one past the head's end, what does not verify, and what it did not ask
/// for. A block it has, or one from before it began, it passes over.
pub proof fn law_download_refuses(
    v: DownloadView,
    head: Head,
    index: u64,
    data: Seq<u8>,
    proof: Seq<Digest>,
    m: MessageView,
    verified: bool,
)
    ensures
        v.head is None && head.len > MAX_SYNC_BLOCKS ==> download_handled(
            v,
            MessageView::Head(head),
            verified,
        ) == (v, Err::<(), SyncError>(SyncError::TooLong)),
        v.head is None && head.len <= MAX_SYNC_BLOCKS ==> download_handled(
            v,
            MessageView::Head(head),
            false,
        ) == (v, Err::<(), SyncError>(SyncError::BadHead)),
        v.head is None ==> download_handled(
            v,
            MessageView::Block { index, data, proof },
            verified,
        ) == (v, Err::<(), SyncError>(SyncError::Unsolicited)),
        v.head matches Some(h) ==> (!verified || index >= h.len ==> download_handled(
            v,
            MessageView::Block { index, data, proof },
            verified,
        ) == (v, Err::<(), SyncError>(SyncError::BadBlock))),
        v.head matches Some(h) ==> (index < h.len && (index < v.base || v.received.contains_key(
            index,
        )) ==> download_handled(v, MessageView::Block { index, data, proof }, true) == (
            v,
            Ok::<(), SyncError>(()),
        )),
        download_handled(v, MessageView::Absent, verified) == (
            v,
            Err::<(), SyncError>(SyncError::Absent),
        ),
        !(m is Head || m is Block || m is Absent) ==> download_handled(v, m, verified) == (
            v,
            Err::<(), SyncError>(SyncError::Unexpected),
        ),
{
}

/// The blocks handed on are those received, each once and in the order of the feed.
pub proof fn law_blocks_come_in_order(
    received: Map<u64, Seq<u8>>,
    from: u64,
    middle: u64,
    to: u64,
)
    requires
        from <= middle <= to,
    ensures
        blocks_between(received, from, to) == blocks_between(received, from, middle)
            + blocks_between(received, middle, to),
        middle < to ==> blocks_between(received, middle, (middle + 1) as u64) == (
        if received.contains_key(middle) {
            seq![received[middle]]
        } else {
            Seq::empty()
        }),
        blocks_between(received, from, from).len() == 0,
    decreases middle - from,
{
    reveal_with_fuel(blocks_between, 2);
    if from < middle {
        law_blocks_come_in_order(received, (from + 1) as u64, middle, to);
        if received.contains_key(from) {
            assert(blocks_between(received, from, to) =~= seq![received[from]] + (blocks_between(
                received,
                (from + 1) as u64,
                middle,
            ) + blocks_between(received, middle, to)));
        }
    } else {
        assert(blocks_between(received, from, middle) =~= Seq::empty());
        assert(blocks_between(received, from, to) =~= Seq::empty() + blocks_between(
            received,
            middle,
            to,
        ));
    }
}

/// A server of a feed answers nothing that is asked of a server of blobs.
pub proof fn law_feed_server_has_no_blobs(source: FeedStateView, id: Digest)
    ensures
        feed_answer(MessageView::GetManifest { id }, source) is Absent,
        feed_answer(MessageView::GetChunk { hash: id }, source) is Absent,
        feed_answer(MessageView::GetHave { id }, source) is Absent,
{
}

} // verus!
