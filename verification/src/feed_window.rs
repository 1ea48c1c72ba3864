//! The windowed feed sync: the head, the peaks, and only a chosen set of blocks.
use crate::bytes::copy_of;
use crate::crypto::Digest;
use crate::feed::{Head, Proof};
use crate::lists::{copied, first, kept, lemma_kept, lemma_push_contains};
use crate::sync::{at_index, feed_answer, FeedStateView, MAX_SYNC_BLOCKS};
use crate::sync_msg::{Message, MessageView, SyncError};
use std::collections::{HashMap, HashSet};
use vstd::prelude::*;

verus! {

broadcast use vstd::std_specs::hash::group_hash_axioms;

/// Indices stand in ascending order, each once.
pub open spec fn ascending(s: Seq<u64>) -> bool {
    forall|i: int, j: int| 0 <= i < j < s.len() ==> #[trigger] s[i] < #[trigger] s[j]
}

/// The indices from one up to another.
pub open spec fn counting(from: u64, to: u64) -> Seq<u64> {
    Seq::new((to - from) as nat, |i: int| (from + i) as u64)
}

/// The verified pieces a sparse holder needs: the signed head, the peaks, and
/// the window's blocks, each with the proof under which it was verified.
#[derive(Debug, Clone)]
pub struct WindowData {
    /// The feed's signed head.
    pub head: Head,
    /// The feed's peak nodes as flat index and hash, largest peak first.
    pub peaks: Vec<(u64, Digest)>,
    /// The fetched blocks, ascending by index.
    pub blocks: Vec<(u64, Vec<u8>, Proof)>,
}

/// A [`FeedWindow`] as a mathematical value.
#[verifier::ext_equal]
pub struct WindowView {
    /// The feed's public key.
    pub key: Seq<u8>,
    /// The verified head, once there is one.
    pub head: Option<Head>,
    /// The peaks, once there are some.
    pub peaks: Option<Seq<(u64, Digest)>>,
    /// Whether the holdings hint has been answered or declined.
    pub have_done: bool,
    /// The indices wanted, ascending.
    pub want: Seq<u64>,
    /// The verified blocks received so far, each with its proof.
    pub received: Map<u64, (Seq<u8>, Seq<Digest>)>,
    /// The wanted indices this peer can't serve.
    pub missing: Set<u64>,
    /// The place of the next request among the indices wanted.
    pub cursor: nat,
    /// How many blocks at the end of the feed are wanted, where that is what is
    /// wanted.
    pub window: Option<u64>,
}

/// What holds of every window: what is wanted stands in order, nothing else is
/// received or missing, and nothing is received before the head.
pub open spec fn window_ok(v: WindowView) -> bool {
    &&& ascending(v.want)
    &&& v.cursor <= v.want.len()
    &&& forall|k: u64| #[trigger] v.received.contains_key(k) ==> v.want.contains(k)
    &&& forall|k: u64| #[trigger] v.missing.contains(k) ==> v.want.contains(k)
    &&& v.head is None ==> v.cursor == 0 && forall|k: u64| !#[trigger] v.received.contains_key(k)
    &&& v.head is None && v.window is Some ==> v.want.len() == 0
    &&& v.head matches Some(h) ==> h.len <= MAX_SYNC_BLOCKS
}

/// Whether nothing more is to be asked about an index.
pub open spec fn is_settled(v: WindowView, len: u64, index: u64) -> bool {
    index >= len || v.received.contains_key(index) || v.missing.contains(index)
}

/// The place of the first index from `c` on that is not settled.
pub open spec fn next_open(v: WindowView, len: u64, c: nat) -> nat
    decreases v.want.len() - c,
{
    if c < v.want.len() && is_settled(v, len, v.want[c as int]) {
        next_open(v, len, c + 1)
    } else {
        c
    }
}

/// The next request of a window: the head, the peaks, the holdings hint, then
/// each wanted block that is not settled.
pub open spec fn window_polled(v: WindowView) -> (WindowView, Option<MessageView>) {
    match v.head {
        None => (v, Some(MessageView::GetHead)),
        Some(h) => if v.peaks is None {
            (v, Some(MessageView::GetPeaks))
        } else if !v.have_done {
            (v, Some(MessageView::GetFeedHave))
        } else {
            let c = next_open(v, h.len, v.cursor);
            (
                WindowView { cursor: c, ..v },
                if c < v.want.len() {
                    Some(MessageView::GetBlock { index: v.want[c as int] })
                } else {
                    None
                },
            )
        },
    }
}

/// Whether an index lies in one of the ranges.
pub open spec fn covered(ranges: Seq<(u64, u64)>, index: u64) -> bool {
    exists|i: int| 0 <= i < ranges.len() && (#[trigger] ranges[i]).0 <= index < ranges[i].1
}

/// The indices wanted once the head is known.
pub open spec fn wanted_of(v: WindowView, len: u64) -> Seq<u64> {
    match v.window {
        Some(window) => counting(
            if window <= len {
                (len - window) as u64
            } else {
                0
            },
            len,
        ),
        None => v.want,
    }
}

/// The wanted indices that lie in none of the ranges.
pub open spec fn uncovered(v: WindowView, ranges: Seq<(u64, u64)>) -> Set<u64> {
    Set::new(|k: u64| v.want.contains(k) && !covered(ranges, k))
}

/// A response taken in by a window, given whether what it carries verifies.
pub open spec fn window_handled(v: WindowView, m: MessageView, verified: bool) -> (
    WindowView,
    Result<(), SyncError>,
) {
    match m {
        MessageView::Head(head) => if v.head is Some {
            (v, Ok(()))
        } else if head.len > MAX_SYNC_BLOCKS {
            (v, Err(SyncError::TooLong))
        } else if !verified {
            (v, Err(SyncError::BadHead))
        } else {
            (WindowView { head: Some(head), want: wanted_of(v, head.len), ..v }, Ok(()))
        },
        MessageView::Peaks { nodes } => if v.peaks is Some {
            (v, Ok(()))
        } else if v.head is None {
            (v, Err(SyncError::Unsolicited))
        } else {
            (WindowView { peaks: Some(nodes), ..v }, Ok(()))
        },
        MessageView::FeedHave { ranges } => (
            WindowView {
                missing: v.missing.union(uncovered(v, ranges)),
                have_done: true,
                ..v
            },
            Ok(()),
        ),
        MessageView::Block { index, data, proof } => match v.head {
            None => (v, Err(SyncError::Unsolicited)),
            Some(h) => if !verified || index >= h.len {
                (v, Err(SyncError::BadBlock))
            } else if !v.want.contains(index) || v.received.contains_key(index) {
                (v, Ok(()))
            } else {
                (WindowView { received: v.received.insert(index, (data, proof)), ..v }, Ok(()))
            },
        },
        MessageView::Absent => if v.head is None || v.peaks is None {
            (v, Err(SyncError::Absent))
        } else if !v.have_done {
            (WindowView { have_done: true, ..v }, Ok(()))
        } else if v.cursor < v.want.len() {
            (WindowView { missing: v.missing.insert(v.want[v.cursor as int]), ..v }, Ok(()))
        } else {
            (v, Ok(()))
        },
        _ => (v, Err(SyncError::Unexpected)),
    }
}

/// Whether the head, the peaks and the holdings hint have been answered and
/// every wanted index is settled.
pub open spec fn window_complete(v: WindowView) -> bool {
    match v.head {
        Some(h) => v.peaks is Some && v.have_done && forall|i: int|
            0 <= i < v.want.len() ==> is_settled(v, h.len, #[trigger] v.want[i]),
        None => false,
    }
}

/// The indices this peer can't serve: those it does not hold, and those beyond the
/// head's length.
pub open spec fn is_missing(v: WindowView) -> spec_fn(u64) -> bool {
    |k: u64| v.missing.contains(k) || (v.head matches Some(h) && k >= h.len)
}

/// The indices that have been received.
pub open spec fn is_received(v: WindowView) -> spec_fn(u64) -> bool {
    |k: u64| v.received.contains_key(k)
}

/// The blocks received and their proofs.
spec fn window_blocks(m: Map<u64, (Vec<u8>, Proof)>) -> Map<u64, (Seq<u8>, Seq<Digest>)> {
    m.map_values(|v: (Vec<u8>, Proof)| (v.0@, v.1@))
}

/// The indices in ascending order, each once.
fn in_order(want: &Vec<u64>) -> (r: Vec<u64>)
    ensures
        ascending(r@),
        forall|k: u64| r@.contains(k) <==> want@.contains(k),
{
    let mut r: Vec<u64> = Vec::new();
    let mut n: usize = 0;
    while n < want.len()
        invariant
            n <= want.len(),
            ascending(r@),
            forall|k: u64| r@.contains(k) <==> want@.take(n as int).contains(k),
        decreases want.len() - n,
    {
        let x: u64 = want[n];
        let ghost s = r@;
        let mut i: usize = r.len();
        while i > 0 && r[i - 1] > x
            invariant
                i <= r.len(),
                r@ == s,
                ascending(s),
                forall|j: int| i <= j < s.len() ==> #[trigger] s[j] > x,
            decreases i,
        {
            i -= 1;
        }
        proof {
            assert(want@.take(n + 1) =~= want@.take(n as int).push(x));
            assert forall|k: u64| want@.take(n + 1).contains(k) <==> s.contains(k) || k == x by {
                lemma_push_contains(want@.take(n as int), x, k);
            }
        }
        if i == 0 || r[i - 1] != x {
            proof {
                let t = s.insert(i as int, x);
                assert forall|a: int, b: int| 0 <= a < b < t.len() implies #[trigger] t[a]
                    < #[trigger] t[b] by {
                    let a2 = if a < i {
                        a
                    } else {
                        a - 1
                    };
                    let b2 = if b < i {
                        b
                    } else {
                        b - 1
                    };
                    if a != i {
                        assert(t[a] == s[a2]);
                    }
                    if b != i {
                        assert(t[b] == s[b2]);
                    }
                    if a != i && b != i {
                        assert(s[a2] < s[b2]);
                    } else if b == i {
                        if a < i - 1 {
                            assert(s[a] < s[i - 1]);
                        }
                    }
                }
                assert forall|k: u64| t.contains(k) <==> s.contains(k) || k == x by {
                    if t.contains(k) {
                        let j = t.index_of(k);
                        if j < i {
                            assert(s[j] == k);
                        } else if j > i {
                            assert(s[j - 1] == k);
                        }
                    }
                    if s.contains(k) {
                        let j = s.index_of(k);
                        if j < i {
                            assert(t[j] == k);
                        } else {
                            assert(t[j + 1] == k);
                        }
                    }
                    assert(t[i as int] == x);
                }
            }
            r.insert(i, x);
        } else {
            assert(s[i - 1] == x);
        }
        n += 1;
    }
    assert(want@.take(want@.len() as int) =~= want@);
    r
}

/// Whether an index is among those in ascending order.
fn is_wanted(want: &Vec<u64>, x: u64) -> (r: bool)
    requires
        ascending(want@),
    ensures
        r == want@.contains(x),
{
    let mut lo: usize = 0;
    let mut hi: usize = want.len();
    while lo < hi
        invariant
            lo <= hi <= want.len(),
            ascending(want@),
            forall|i: int| 0 <= i < lo ==> #[trigger] want@[i] < x,
            forall|i: int| hi <= i < want.len() ==> x < #[trigger] want@[i],
        decreases hi - lo,
    {
        let mid: usize = lo + (hi - lo) / 2;
        if want[mid] == x {
            assert(want@[mid as int] == x);
            return true;
        } else if want[mid] < x {
            assert forall|i: int| 0 <= i < mid + 1 implies #[trigger] want@[i] < x by {
                if i < mid {
                    assert(want@[i] < want@[mid as int]);
                }
            }
            lo = mid + 1;
        } else {
            assert forall|i: int| mid <= i < want.len() implies x < #[trigger] want@[i] by {
                if i > mid {
                    assert(want@[mid as int] < want@[i]);
                }
            }
            hi = mid;
        }
    }
    false
}

fn is_covered(ranges: &Vec<(u64, u64)>, index: u64) -> (r: bool)
    ensures
        r == covered(ranges@, index),
{
    let mut i: usize = 0;
    while i < ranges.len()
        invariant
            i <= ranges.len(),
            forall|j: int| 0 <= j < i ==> !((#[trigger] ranges@[j]).0 <= index < ranges@[j].1),
        decreases ranges.len() - i,
    {
        if ranges[i].0 <= index && index < ranges[i].1 {
            assert(ranges@[i as int].0 <= index < ranges@[i as int].1);
            return true;
        }
        i += 1;
    }
    false
}

/// The indices from one up to another.
fn count_up(from: u64, to: u64) -> (r: Vec<u64>)
    requires
        from <= to,
    ensures
        r@ == counting(from, to),
        ascending(r@),
{
    let mut r: Vec<u64> = Vec::new();
    let mut i: u64 = from;
    while i < to
        invariant
            from <= i <= to,
            r@ == counting(from, i),
        decreases to - i,
    {
        r.push(i);
        assert(r@ =~= counting(from, (i + 1) as u64));
        i += 1;
    }
    r
}

/// The client side of a windowed feed sync: fetch the head and the peaks, then
/// only a chosen set of blocks, verifying each against the signed head and
/// retaining its proof.
///
/// A block a peer reports absent is not terminal: the index is recorded as
/// missing for the caller to fetch from another peer. A holdings hint is asked
/// for up front, so blocks the peer doesn't hold are skipped without a wasted
/// probe; a peer that declines it just gets probed block by block.
pub struct FeedWindow {
    public_key: [u8; 32],
    head: Option<Head>,
    peaks: Option<Vec<(u64, Digest)>>,
    have_done: bool,
    want: Vec<u64>,
    received: HashMap<u64, (Vec<u8>, Proof)>,
    missing: HashSet<u64>,
    cursor: usize,
    window: Option<u64>,
}

impl View for FeedWindow {
    type V = WindowView;

    closed spec fn view(&self) -> WindowView {
        WindowView {
            key: self.public_key@,
            head: self.head,
            peaks: match self.peaks {
                Some(p) => Some(p@),
                None => None,
            },
            have_done: self.have_done,
            want: self.want@,
            received: window_blocks(self.received@),
            missing: self.missing@,
            cursor: self.cursor as nat,
            window: self.window,
        }
    }
}

impl FeedWindow {
    /// Whether what holds of every window holds of this one.
    pub open spec fn wf(&self) -> bool {
        window_ok(self@)
    }

    /// Begin a windowed sync of `public_key`'s feed for the block indices `want`.
    /// The head and peaks are fetched first, then only those wanted indices the
    /// peer holds and that are within the head's length.
    pub fn new(public_key: [u8; 32], want: Vec<u64>) -> (r: Self)
        ensures
            r.wf(),
            r@ == (WindowView {
                key: public_key@,
                head: None,
                peaks: None,
                have_done: false,
                want: r@.want,
                received: Map::empty(),
                missing: Set::empty(),
                cursor: 0,
                window: None,
            }),
            ascending(r@.want),
            forall|k: u64| #[trigger] r@.want.contains(k) <==> want@.contains(k),
    {
        let want: Vec<u64> = in_order(&want);
        let r = FeedWindow {
            public_key,
            head: None,
            peaks: None,
            have_done: false,
            want,
            received: HashMap::new(),
            missing: HashSet::new(),
            cursor: 0,
            window: None,
        };
        assert(r@.received =~= Map::empty());
        r
    }

    /// Begin a windowed sync that keeps the feed's last `window` blocks. The
    /// wanted indices are derived once the head's length arrives.
    pub fn suffix(public_key: [u8; 32], window: u64) -> (r: Self)
        ensures
            r.wf(),
            r@ == (WindowView {
                key: public_key@,
                head: None,
                peaks: None,
                have_done: false,
                want: Seq::empty(),
                received: Map::empty(),
                missing: Set::empty(),
                cursor: 0,
                window: Some(window),
            }),
    {
        let r = FeedWindow {
            public_key,
            head: None,
            peaks: None,
            have_done: false,
            want: Vec::new(),
            received: HashMap::new(),
            missing: HashSet::new(),
            cursor: 0,
            window: Some(window),
        };
        assert(r@.received =~= Map::empty());
        r
    }

    /// The key the head must be signed with.
    pub fn public_key(&self) -> (r: [u8; 32])
        ensures
            r@ == self@.key,
    {
        self.public_key
    }

    fn settled(&self, len: u64, index: u64) -> (r: bool)
        ensures
            r == is_settled(self@, len, index),
    {
        assert(self.received@.contains_key(index) == self@.received.contains_key(index));
        index >= len || self.received.contains_key(&index) || self.missing.contains(&index)
    }

    /// The next request to send, or `None` when every want is settled. Order:
    /// head, peaks, holdings hint, then each block still open.
    pub fn poll_request(&mut self) -> (r: Option<Message>)
        requires
            old(self).wf(),
        ensures
            final(self).wf(),
            final(self)@ == window_polled(old(self)@).0,
            match window_polled(old(self)@).1 {
                Some(m) => r is Some && r->Some_0@ == m,
                None => r is None,
            },
    {
        let len: u64 = match &self.head {
            Some(head) => head.len,
            None => {
                return Some(Message::GetHead);
            },
        };
        if self.peaks.is_none() {
            return Some(Message::GetPeaks);
        }
        if !self.have_done {
            return Some(Message::GetFeedHave);
        }
        let ghost v = self@;
        let mut c: usize = self.cursor;
        while c < self.want.len() && self.settled(len, self.want[c])
            invariant
                v == self@,
                c <= self.want.len(),
                next_open(v, len, v.cursor) == next_open(v, len, c as nat),
            decreases self.want.len() - c,
        {
            c += 1;
        }
        self.cursor = c;
        assert(self@ =~= (WindowView { cursor: c as nat, ..v }));
        if c < self.want.len() {
            Some(Message::GetBlock { index: self.want[c] })
        } else {
            None
        }
    }

    fn mark_uncovered(&mut self, ranges: &Vec<(u64, u64)>)
        requires
            old(self).wf(),
        ensures
            final(self)@ == (WindowView {
                missing: old(self)@.missing.union(uncovered(old(self)@, ranges@)),
                ..old(self)@
            }),
    {
        let ghost v = self@;
        let mut i: usize = 0;
        while i < self.want.len()
            invariant
                i <= self.want.len(),
                self@ == (WindowView { missing: self@.missing, ..v }),
                v == old(self)@,
                forall|k: u64| #[trigger]
                    self@.missing.contains(k) <==> v.missing.contains(k) || (v.want.take(
                        i as int,
                    ).contains(k) && !covered(ranges@, k)),
            decreases self.want.len() - i,
        {
            let x: u64 = self.want[i];
            let ghost before = self@.missing;
            proof {
                assert(v.want.take(i + 1) =~= v.want.take(i as int).push(x));
            }
            if !is_covered(ranges, x) {
                self.missing.insert(x);
            }
            assert forall|k: u64| #[trigger]
                self@.missing.contains(k) <==> v.missing.contains(k) || (v.want.take(
                    i + 1,
                ).contains(k) && !covered(ranges@, k)) by {
                lemma_push_contains(v.want.take(i as int), x, k);
                assert(before.contains(k) <==> v.missing.contains(k) || (v.want.take(
                    i as int,
                ).contains(k) && !covered(ranges@, k)));
            }
            i += 1;
        }
        assert(v.want.take(v.want.len() as int) =~= v.want);
        assert(self@.missing =~= v.missing.union(uncovered(v, ranges@)));
    }

    /// Fold in a response. `verified` says, of a head, whether it is signed with
    /// [`FeedWindow::public_key`], and of a block, whether its proof verifies
    /// against the accepted head. The first head and the first peaks win.
    pub fn handle_response(&mut self, response: &Message, verified: bool) -> (r: Result<
        (),
        SyncError,
    >)
        requires
            old(self).wf(),
        ensures
            final(self).wf(),
            (final(self)@, r) == window_handled(old(self)@, response@, verified),
    {
        match response {
            Message::Head(head) => {
                if self.head.is_some() {
                    return Ok(());
                }
                if head.len > MAX_SYNC_BLOCKS {
                    return Err(SyncError::TooLong);
                }
                if !verified {
                    return Err(SyncError::BadHead);
                }
                if let Some(window) = self.window {
                    let from: u64 = if window <= head.len {
                        head.len - window
                    } else {
                        0
                    };
                    proof {
                        assert forall|k: u64| !#[trigger] self@.missing.contains(k) by {}
                    }
                    self.want = count_up(from, head.len);
                }
                self.head = Some(*head);
                assert(self@ =~= window_handled(old(self)@, response@, verified).0);
                Ok(())
            },
            Message::Peaks { nodes } => {
                if self.peaks.is_some() {
                    return Ok(());
                }
                if self.head.is_none() {
                    return Err(SyncError::Unsolicited);
                }
                self.peaks = Some(copied(nodes));
                Ok(())
            },
            Message::FeedHave { ranges } => {
                self.mark_uncovered(ranges);
                self.have_done = true;
                Ok(())
            },
            Message::Block { index, data, proof } => {
                let len: u64 = match &self.head {
                    Some(head) => head.len,
                    None => {
                        return Err(SyncError::Unsolicited);
                    },
                };
                if !verified || *index >= len {
                    return Err(SyncError::BadBlock);
                }
                assert(self.received@.contains_key(*index) == self@.received.contains_key(*index));
                if is_wanted(&self.want, *index) && !self.received.contains_key(index) {
                    let copy: (Vec<u8>, Proof) = (copy_of(data.as_slice()), proof.copy());
                    self.received.insert(*index, copy);
                    assert(self@.received =~= old(self)@.received.insert(
                        *index,
                        (data@, proof@),
                    ));
                }
                Ok(())
            },
            Message::Absent => {
                if self.head.is_none() || self.peaks.is_none() {
                    return Err(SyncError::Absent);
                }
                if !self.have_done {
                    self.have_done = true;
                    return Ok(());
                }
                if self.cursor < self.want.len() {
                    let x: u64 = self.want[self.cursor];
                    self.missing.insert(x);
                    assert(self.want@.contains(x));
                }
                Ok(())
            },
            _ => Err(SyncError::Unexpected),
        }
    }

    /// The verified head, once received.
    pub fn head(&self) -> (r: Option<Head>)
        ensures
            r == self@.head,
    {
        self.head
    }

    /// The peaks, once received.
    pub fn peaks(&self) -> (r: Option<&Vec<(u64, Digest)>>)
        ensures
            match r {
                Some(p) => self@.peaks == Some(p@),
                None => self@.peaks is None,
            },
    {
        match &self.peaks {
            Some(p) => Some(p),
            None => None,
        }
    }

    /// Wanted indices this peer could not serve (outside its holdings, beyond the
    /// head's length, or reported absent), ascending, for the caller to fetch from
    /// another peer.
    pub fn missing(&self) -> (r: Vec<u64>)
        requires
            self.wf(),
        ensures
            r@ == kept(self@.want, is_missing(self@)),
            ascending(r@),
            forall|k: u64| #[trigger]
                r@.contains(k) <==> self@.want.contains(k) && is_missing(self@)(k),
    {
        let len: Option<u64> = match &self.head {
            Some(head) => Some(head.len),
            None => None,
        };
        let ghost p = is_missing(self@);
        let ghost s = self@.want;
        let mut r: Vec<u64> = Vec::new();
        let mut i: usize = 0;
        while i < self.want.len()
            invariant
                i <= self.want.len(),
                s == self.want@,
                p == is_missing(self@),
                match self@.head {
                    Some(h) => len == Some(h.len),
                    None => len is None,
                },
                r@ == kept(s.take(i as int), p),
            decreases self.want.len() - i,
        {
            proof {
                assert(s.take(i + 1).drop_last() =~= s.take(i as int));
                assert(s.take(i + 1).last() == s[i as int]);
            }
            let x: u64 = self.want[i];
            let beyond: bool = match len {
                Some(len) => x >= len,
                None => false,
            };
            if beyond || self.missing.contains(&x) {
                r.push(x);
            }
            i += 1;
        }
        proof {
            assert(s.take(s.len() as int) =~= s);
            lemma_kept(s, p);
            lemma_kept_ascending(s, p);
        }
        r
    }

    /// Whether the head, the peaks and the holdings hint have been answered and
    /// every wanted index is received, known to be missing from this peer, or
    /// beyond the head's length.
    pub fn is_complete(&self) -> (r: bool)
        ensures
            r == window_complete(self@),
    {
        let len: u64 = match &self.head {
            Some(head) => head.len,
            None => {
                return false;
            },
        };
        if self.peaks.is_none() || !self.have_done {
            return false;
        }
        let ghost v = self@;
        let mut i: usize = 0;
        while i < self.want.len()
            invariant
                i <= self.want.len(),
                v == self@,
                v.head is Some && v.head->Some_0.len == len,
                forall|j: int| 0 <= j < i ==> is_settled(v, len, #[trigger] v.want[j]),
            decreases self.want.len() - i,
        {
            let x: u64 = self.want[i];
            assert(v.want[i as int] == x);
            if !self.settled(len, x) {
                return false;
            }
            i += 1;
        }
        true
    }

    /// The pieces needed to build a sparse holder, or `None` if the head or the
    /// peaks never arrived. Blocks are ascending by index.
    pub fn into_window(self) -> (r: Option<WindowData>)
        requires
            self.wf(),
        ensures
            match r {
                Some(w) => {
                    let indices = kept(self@.want, is_received(self@));
                    &&& self@.head == Some(w.head)
                    &&& self@.peaks == Some(w.peaks@)
                    &&& ascending(indices)
                    &&& forall|k: u64| #[trigger] indices.contains(k) <==> self@.received.contains_key(k)
                    &&& w.blocks@.len() == indices.len()
                    &&& forall|i: int|
                        0 <= i < w.blocks@.len() ==> {
                            let b = #[trigger] w.blocks@[i];
                            &&& b.0 == indices[i]
                            &&& (b.1@, b.2@) == self@.received[indices[i]]
                        }
                },
                None => self@.head is None || self@.peaks is None,
            },
    {
        let ghost v = self@;
        let ghost p = is_received(v);
        let ghost s = v.want;
        let head: Head = match self.head {
            Some(head) => head,
            None => {
                return None;
            },
        };
        let peaks: Vec<(u64, Digest)> = match self.peaks {
            Some(peaks) => peaks,
            None => {
                return None;
            },
        };
        let want: Vec<u64> = self.want;
        let mut received = self.received;
        let mut blocks: Vec<(u64, Vec<u8>, Proof)> = Vec::new();
        let mut i: usize = 0;
        while i < want.len()
            invariant
                i <= want.len(),
                s == want@,
                ascending(s),
                s == v.want,
                p == is_received(v),
                blocks@.len() == kept(s.take(i as int), p).len(),
                forall|j: int|
                    0 <= j < blocks@.len() ==> {
                        let b = #[trigger] blocks@[j];
                        &&& b.0 == kept(s.take(i as int), p)[j]
                        &&& (b.1@, b.2@) == v.received[kept(s.take(i as int), p)[j]]
                    },
                forall|j: int|
                    i <= j < s.len() ==> received@.contains_key(#[trigger] s[j])
                        == v.received.contains_key(s[j]),
                forall|j: int|
                    i <= j < s.len() && received@.contains_key(#[trigger] s[j]) ==> (
                        received@[s[j]].0@,
                        received@[s[j]].1@,
                    ) == v.received[s[j]],
            decreases want.len() - i,
        {
            proof {
                assert(s.take(i + 1).drop_last() =~= s.take(i as int));
                assert(s.take(i + 1).last() == s[i as int]);
                assert forall|j: int| i < j < s.len() implies #[trigger] s[j] != s[i as int] by {}
            }
            let x: u64 = want[i];
            if let Some(b) = received.remove(&x) {
                blocks.push((x, b.0, b.1));
            }
            i += 1;
        }
        proof {
            assert(s.take(s.len() as int) =~= s);
            lemma_kept(s, p);
            lemma_kept_ascending(s, p);
        }
        Some(WindowData { head, peaks, blocks })
    }
}

/// What is kept of an ascending sequence is ascending.
proof fn lemma_kept_ascending(s: Seq<u64>, p: spec_fn(u64) -> bool)
    requires
        ascending(s),
    ensures
        ascending(kept(s, p)),
    decreases s.len(),
{
    if s.len() > 0 {
        let rest = s.drop_last();
        assert(ascending(rest)) by {
            assert forall|i: int, j: int| 0 <= i < j < rest.len() implies #[trigger] rest[i]
                < #[trigger] rest[j] by {
                assert(s[i] < s[j]);
            }
        }
        lemma_kept_ascending(rest, p);
        lemma_kept(rest, p);
        let k = kept(rest, p);
        let r = kept(s, p);
        assert forall|i: int, j: int| 0 <= i < j < r.len() implies #[trigger] r[i]
            < #[trigger] r[j] by {
            if j < k.len() {
                assert(r[i] == k[i] && r[j] == k[j]);
            } else {
                assert(r[i] == k[i]);
                assert(k.contains(k[i]));
                let m = rest.index_of(k[i]);
                assert(s[m] < s[s.len() - 1]);
            }
        }
    }
}

/// What does not verify changes nothing: only a head and blocks that verify are
/// ever accepted into a window.
pub proof fn law_window_takes_only_what_verifies(v: WindowView, m: MessageView)
    ensures
        window_handled(v, m, false).0.head == v.head,
        window_handled(v, m, false).0.received == v.received,
        m is Head && v.head is None ==> window_handled(v, m, false).1 is Err,
        m is Block ==> window_handled(v, m, false).1 is Err,
{
}

/// A suffix window wider than the feed takes all of it, and one of no blocks
/// takes none.
pub proof fn law_suffix_is_clamped(v: WindowView, len: u64)
    ensures
        v.window matches Some(w) ==> w >= len ==> wanted_of(v, len) == counting(0, len),
        v.window == Some(0u64) ==> wanted_of(v, len) == Seq::<u64>::empty(),
{
    if v.window == Some(0u64) {
        assert(wanted_of(v, len) =~= Seq::<u64>::empty());
    }
}

/// One round of a window against a server whose responses verify.
pub open spec fn window_round(v: WindowView, source: FeedStateView) -> WindowView {
    let (v1, request) = window_polled(v);
    match request {
        Some(m) => window_handled(v1, feed_answer(m, source), true).0,
        None => v1,
    }
}

/// Rounds of a window, one after the other.
pub open spec fn window_rounds(v: WindowView, source: FeedStateView, n: nat) -> WindowView
    decreases n,
{
    if n == 0 {
        v
    } else {
        window_rounds(window_round(v, source), source, (n - 1) as nat)
    }
}

/// Whether a server holds a block.
pub open spec fn serves(source: FeedStateView, index: u64) -> bool {
    first(source.blocks, at_index(index)) is Some
}

/// The block a server holds, with its proof.
pub open spec fn served(source: FeedStateView, index: u64) -> (Seq<u8>, Seq<Digest>) {
    let b = source.blocks[first(source.blocks, at_index(index))->Some_0];
    (b.data, b.proof)
}

/// Whether a server is honest about a feed: it says exactly which blocks it holds,
/// and holds none beyond the head.
pub open spec fn is_honest(source: FeedStateView) -> bool {
    &&& source.head.len <= MAX_SYNC_BLOCKS
    &&& forall|k: u64| #[trigger] serves(source, k) ==> k < source.head.len
    &&& forall|k: u64| #[trigger] serves(source, k) <==> covered(source.ranges, k)
}

/// A window that has asked for nothing yet.
pub open spec fn fresh_window(key: Seq<u8>, want: Seq<u64>, window: Option<u64>) -> WindowView {
    WindowView {
        key,
        head: None,
        peaks: None,
        have_done: false,
        want,
        received: Map::empty(),
        missing: Set::empty(),
        cursor: 0,
        window,
    }
}

/// A window that has settled its first `c` indices with a server.
spec fn settled_to(v: WindowView, source: FeedStateView, c: nat) -> bool {
    &&& v.head == Some(source.head)
    &&& v.peaks == Some(source.peaks)
    &&& v.have_done
    &&& ascending(v.want)
    &&& v.cursor <= c <= v.want.len()
    &&& forall|k: u64| #[trigger]
        v.missing.contains(k) <==> v.want.contains(k) && !serves(source, k)
    &&& forall|k: u64| #[trigger]
        v.received.contains_key(k) <==> serves(source, k) && v.want.take(c as int).contains(k)
    &&& forall|k: u64| #[trigger] v.received.contains_key(k) ==> v.received[k] == served(source, k)
}

proof fn lemma_place(s: Seq<u64>, c: nat, i: int)
    requires
        ascending(s),
        c <= s.len(),
        0 <= i < s.len(),
    ensures
        s.contains(s[i]),
        s.take(c as int).contains(s[i]) <==> i < c,
{
    if i < c {
        assert(s.take(c as int)[i] == s[i]);
    } else if s.take(c as int).contains(s[i]) {
        let j = s.take(c as int).index_of(s[i]);
        assert(s[j] == s[i]);
        assert(s[j] < s[i]);
    }
}

proof fn lemma_next_open(v: WindowView, source: FeedStateView, c: nat, from: nat)
    requires
        is_honest(source),
        settled_to(v, source, c),
        from <= c,
    ensures
        ({
            let len = source.head.len;
            let next = next_open(v, len, from);
            &&& c <= next <= v.want.len()
            &&& next < v.want.len() ==> serves(source, v.want[next as int])
            &&& forall|i: int| c <= i < next ==> !serves(source, #[trigger] v.want[i])
        }),
    decreases v.want.len() - from,
{
    let len = source.head.len;
    if from < c {
        lemma_place(v.want, c, from as int);
        let k = v.want[from as int];
        assert(v.received.contains_key(k) || v.missing.contains(k));
        lemma_next_open(v, source, c, from + 1);
    } else {
        lemma_open_from(v, source, c, from);
    }
}

proof fn lemma_open_from(v: WindowView, source: FeedStateView, c: nat, from: nat)
    requires
        is_honest(source),
        settled_to(v, source, c),
        c <= from <= v.want.len(),
    ensures
        ({
            let next = next_open(v, source.head.len, from);
            &&& from <= next <= v.want.len()
            &&& next < v.want.len() ==> serves(source, v.want[next as int])
            &&& forall|i: int| from <= i < next ==> !serves(source, #[trigger] v.want[i])
        }),
    decreases v.want.len() - from,
{
    let len = source.head.len;
    if from < v.want.len() {
        lemma_place(v.want, c, from as int);
        let k = v.want[from as int];
        assert(!v.received.contains_key(k));
        assert(v.missing.contains(k) <==> !serves(source, k));
        if !serves(source, k) {
            lemma_open_from(v, source, c, from + 1);
        }
    }
}

proof fn lemma_window_ends(v: WindowView, source: FeedStateView, c: nat) -> (n: nat)
    requires
        is_honest(source),
        settled_to(v, source, c),
    ensures
        n <= v.want.len() - c,
        ({
            let w = window_rounds(v, source, n);
            &&& w.want == v.want
            &&& settled_to(w, source, v.want.len())
            &&& window_polled(w).1 is None
        }),
    decreases v.want.len() - c,
{
    let len = source.head.len;
    lemma_next_open(v, source, c, v.cursor);
    let next = next_open(v, len, v.cursor);
    if next == v.want.len() {
        assert forall|k: u64| #[trigger] v.received.contains_key(k) <==> serves(source, k)
            && v.want.take(v.want.len() as int).contains(k) by {
            if serves(source, k) && v.want.take(v.want.len() as int).contains(k) {
                let i = v.want.take(v.want.len() as int).index_of(k);
                assert(v.want[i] == k);
                lemma_place(v.want, c, i);
            }
            if v.want.take(c as int).contains(k) {
                let i = v.want.take(c as int).index_of(k);
                assert(v.want.take(v.want.len() as int)[i] == k);
            }
        }
        assert(window_rounds(v, source, 0) == v);
        0
    } else {
        let k = v.want[next as int];
        let w = window_round(v, source);
        lemma_place(v.want, c, next as int);
        assert(w == (WindowView {
            cursor: next,
            received: v.received.insert(k, served(source, k)),
            ..v
        }));
        assert forall|x: u64| #[trigger] w.received.contains_key(x) <==> serves(source, x)
            && w.want.take((next + 1) as int).contains(x) by {
            if w.want.take((next + 1) as int).contains(x) {
                let i = w.want.take((next + 1) as int).index_of(x);
                assert(v.want[i] == x);
                lemma_place(v.want, c, i);
            }
            if v.want.take(c as int).contains(x) {
                let i = v.want.take(c as int).index_of(x);
                assert(w.want.take((next + 1) as int)[i] == x);
            }
            assert(w.want.take((next + 1) as int)[next as int] == k);
        }
        assert(settled_to(w, source, next + 1));
        let m = lemma_window_ends(w, source, next + 1);
        assert(window_rounds(v, source, m + 1) == window_rounds(w, source, m));
        m + 1
    }
}

/// A windowed sync from an honest server ends, in one round each for the head,
/// the peaks and the holdings and at most one for each wanted block. Then every
/// wanted block that the server holds has been received as it holds it, and every
/// other is reported missing.
pub proof fn law_honest_window_fetches_what_is_held(
    key: Seq<u8>,
    want: Seq<u64>,
    window: Option<u64>,
    source: FeedStateView,
)
    requires
        is_honest(source),
        ascending(want),
        window is Some ==> want.len() == 0,
    ensures
        ({
            let all = wanted_of(fresh_window(key, want, window), source.head.len);
            exists|n: nat|
                n <= 3 + all.len() && is_fetched(
                    #[trigger] window_rounds(fresh_window(key, want, window), source, n),
                    all,
                    source,
                )
        }),
{
    let v0 = fresh_window(key, want, window);
    let all = wanted_of(v0, source.head.len);
    assert(ascending(all));
    let v1 = window_round(v0, source);
    let v2 = window_round(v1, source);
    let v3 = window_round(v2, source);
    assert(v1 == (WindowView { head: Some(source.head), want: all, ..v0 }));
    assert(v2 == (WindowView { peaks: Some(source.peaks), ..v1 }));
    assert(v3.have_done);
    assert(settled_to(v3, source, 0)) by {
        assert(v3.want.take(0) =~= Seq::<u64>::empty());
        assert forall|k: u64| #[trigger] v3.missing.contains(k) <==> v3.want.contains(k) && !serves(
            source,
            k,
        ) by {
            assert(serves(source, k) <==> covered(source.ranges, k));
        }
    }
    let n = lemma_window_ends(v3, source, 0);
    assert(window_rounds(v2, source, n + 1) == window_rounds(v3, source, n));
    assert(window_rounds(v1, source, n + 2) == window_rounds(v2, source, n + 1));
    assert(window_rounds(v0, source, n + 3) == window_rounds(v1, source, n + 2));
    let w = window_rounds(v0, source, n + 3);
    assert(w.want == all);
    assert(w.want.take(w.want.len() as int) =~= w.want);
    assert forall|i: int| 0 <= i < w.want.len() implies is_settled(
        w,
        source.head.len,
        #[trigger] w.want[i],
    ) by {
        lemma_place(w.want, w.want.len(), i);
        let k = w.want[i];
        assert(w.received.contains_key(k) || w.missing.contains(k));
    }
    assert forall|k: u64| #[trigger] all.contains(k) implies (if serves(source, k) {
        w.received.contains_key(k) && w.received[k] == served(source, k) && !is_missing(w)(k)
    } else {
        !w.received.contains_key(k) && is_missing(w)(k)
    }) by {
        assert(w.missing.contains(k) <==> !serves(source, k));
        assert(w.received.contains_key(k) <==> serves(source, k));
    }
    assert(is_fetched(w, all, source));
}

/// Whether a window has ended with everything a server holds of what is wanted.
pub open spec fn is_fetched(w: WindowView, all: Seq<u64>, source: FeedStateView) -> bool {
    &&& window_complete(w)
    &&& window_polled(w).1 is None
    &&& w.head == Some(source.head)
    &&& w.peaks == Some(source.peaks)
    &&& w.want == all
    &&& forall|k: u64| #[trigger]
        all.contains(k) ==> if serves(source, k) {
            w.received.contains_key(k) && w.received[k] == served(source, k) && !is_missing(w)(k)
        } else {
            !w.received.contains_key(k) && is_missing(w)(k)
        }
}

/// What a server says it has decides what is missing: of the wanted blocks exactly those
/// that lie in none of its ranges are added to the missing ones.
pub proof fn law_ranges_tell_what_is_missing(
    v: WindowView,
    ranges: Seq<(u64, u64)>,
    verified: bool,
    k: u64,
)
    ensures
        ({
            let (r, result) = window_handled(v, MessageView::FeedHave { ranges }, verified);
            let lies_in_one = exists|i: int|
                0 <= i < ranges.len() && (#[trigger] ranges[i]).0 <= k && k < ranges[i].1;
            &&& result is Ok
            &&& r.missing.contains(k) <==> v.missing.contains(k) || (v.want.contains(k)
                && !lies_in_one)
            &&& r.received == v.received
            &&& r.want == v.want
        }),
{
    let r = window_handled(v, MessageView::FeedHave { ranges }, verified).0;
    let lies_in_one = exists|i: int|
        0 <= i < ranges.len() && (#[trigger] ranges[i]).0 <= k && k < ranges[i].1;
    assert(covered(ranges, k) == lies_in_one) by {
        if lies_in_one {
            let i = choose|i: int|
                0 <= i < ranges.len() && (#[trigger] ranges[i]).0 <= k && k < ranges[i].1;
            assert(ranges[i].0 <= k < ranges[i].1);
        }
        if covered(ranges, k) {
            let i = choose|i: int|
                0 <= i < ranges.len() && (#[trigger] ranges[i]).0 <= k < ranges[i].1;
            assert(ranges[i].0 <= k && k < ranges[i].1);
        }
    }
}

/// A wanted block that verifies is kept with its proof as they came; what was not asked
/// for is not kept.
pub proof fn law_wanted_block_is_kept(
    v: WindowView,
    index: u64,
    data: Seq<u8>,
    proof: Seq<Digest>,
    h: Head,
)
    requires
        v.head == Some(h),
        index < h.len,
        !v.received.contains_key(index),
    ensures
        ({
            let (r, result) = window_handled(v, MessageView::Block { index, data, proof }, true);
            &&& result is Ok
            &&& v.want.contains(index) ==> r.received == v.received.insert(index, (data, proof))
            &&& !v.want.contains(index) ==> r.received == v.received
            &&& r.missing == v.missing
        }),
{
}

/// The last blocks of a feed are what a suffix wants: as many as the window takes, or all
/// there are.
pub proof fn law_suffix_wants_the_last_blocks(v: WindowView, window: u64, len: u64, k: u64)
    requires
        v.window == Some(window),
    ensures
        wanted_of(v, len).contains(k) <==> k < len && len <= k + window,
{
    let w = wanted_of(v, len);
    let from = if window <= len {
        (len - window) as u64
    } else {
        0
    };
    if k < len && len <= k + window {
        assert(w[k - from] == k);
    }
    if w.contains(k) {
        let i = w.index_of(k);
        assert(w[i] == (from + i) as u64);
    }
}

/// A window download asks for the head, then the peaks, then which blocks there are, and
/// then for one block after the other of those it wants that are neither received nor
/// missing nor past the end; once there is none, for nothing.
pub proof fn law_window_asks_in_turn(v: WindowView)
    ensures
        ({
            let (r, request) = window_polled(v);
            match v.head {
                None => request == Some(MessageView::GetHead),
                Some(h) => if v.peaks is None {
                    request == Some(MessageView::GetPeaks)
                } else if !v.have_done {
                    request == Some(MessageView::GetFeedHave)
                } else {
                    &&& v.cursor <= r.cursor
                    &&& forall|i: int|
                        v.cursor <= i < r.cursor && i < v.want.len() ==> (#[trigger] v.want[i])
                            >= h.len || v.received.contains_key(v.want[i]) || v.missing.contains(
                            v.want[i],
                        )
                    &&& r.cursor < v.want.len() ==> {
                        let index = v.want[r.cursor as int];
                        &&& request == Some(MessageView::GetBlock { index })
                        &&& index < h.len
                        &&& !v.received.contains_key(index)
                        &&& !v.missing.contains(index)
                    }
                    &&& r.cursor >= v.want.len() ==> request is None
                },
            }
        }),
{
    if let Some(h) = v.head {
        if v.peaks is Some && v.have_done {
            lemma_open_block(v, h.len, v.cursor);
        }
    }
}

proof fn lemma_open_block(v: WindowView, len: u64, c: nat)
    ensures
        c <= next_open(v, len, c),
        forall|i: int|
            c <= i < next_open(v, len, c) && i < v.want.len() ==> is_settled(
                v,
                len,
                #[trigger] v.want[i],
            ),
        next_open(v, len, c) < v.want.len() ==> !is_settled(
            v,
            len,
            v.want[next_open(v, len, c) as int],
        ),
    decreases v.want.len() - c,
{
    if c < v.want.len() && is_settled(v, len, v.want[c as int]) {
        lemma_open_block(v, len, c + 1);
    }
}

/// A peer without the block that was asked for makes that block missing, and no other; one
/// that does not tell which blocks it has makes none missing; one without a head or peaks
/// ends the download.
pub proof fn law_absent_block_is_missing(v: WindowView, verified: bool, k: u64)
    ensures
        ({
            let (r, result) = window_handled(v, MessageView::Absent, verified);
            &&& v.head is None || v.peaks is None ==> r == v && result == Err::<(), SyncError>(
                SyncError::Absent,
            )
            &&& v.head is Some && v.peaks is Some ==> result is Ok && r.received == v.received
                && r.have_done
            &&& v.head is Some && v.peaks is Some && !v.have_done ==> r.missing == v.missing
            &&& v.head is Some && v.peaks is Some && v.have_done && v.cursor < v.want.len() ==> (
            r.missing.contains(k) <==> v.missing.contains(k) || k == v.want[v.cursor as int])
        }),
{
}

/// What a window download does not take it refuses, and stays as it is.
pub proof fn law_window_refuses(
    v: WindowView,
    head: Head,
    nodes: Seq<(u64, Digest)>,
    index: u64,
    data: Seq<u8>,
    proof: Seq<Digest>,
    m: MessageView,
    verified: bool,
)
    ensures
        v.head is None && head.len > MAX_SYNC_BLOCKS ==> window_handled(
            v,
            MessageView::Head(head),
            verified,
        ) == (v, Err::<(), SyncError>(SyncError::TooLong)),
        v.head is None && head.len <= MAX_SYNC_BLOCKS ==> window_handled(
            v,
            MessageView::Head(head),
            false,
        ) == (v, Err::<(), SyncError>(SyncError::BadHead)),
        v.head is None && v.peaks is None ==> window_handled(
            v,
            MessageView::Peaks { nodes },
            verified,
        ) == (v, Err::<(), SyncError>(SyncError::Unsolicited)),
        v.head is Some && v.peaks is None ==> window_handled(
            v,
            MessageView::Peaks { nodes },
            verified,
        ) == (WindowView { peaks: Some(nodes), ..v }, Ok::<(), SyncError>(())),
        v.peaks is Some ==> window_handled(v, MessageView::Peaks { nodes }, verified) == (
            v,
            Ok::<(), SyncError>(()),
        ),
        v.head is None ==> window_handled(
            v,
            MessageView::Block { index, data, proof },
            verified,
        ) == (v, Err::<(), SyncError>(SyncError::Unsolicited)),
        v.head matches Some(h) ==> (!verified || index >= h.len ==> window_handled(
            v,
            MessageView::Block { index, data, proof },
            verified,
        ) == (v, Err::<(), SyncError>(SyncError::BadBlock))),
        !(m is Head || m is Peaks || m is FeedHave || m is Block || m is Absent)
            ==> window_handled(v, m, verified) == (v, Err::<(), SyncError>(SyncError::Unexpected)),
{
}

/// The blocks left for another peer are those wanted that were reported absent or lie past
/// the head's end.
pub proof fn law_what_is_left_for_another_peer(v: WindowView, k: u64)
    ensures
        kept(v.want, is_missing(v)).contains(k) <==> v.want.contains(k) && (v.missing.contains(k)
            || (v.head is Some && k >= v.head->Some_0.len)),
{
    lemma_kept(v.want, is_missing(v));
}

} // verus!
