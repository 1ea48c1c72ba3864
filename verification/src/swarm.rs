//! Downloading a blob from several providers at once, without the providers.
//!
//! The manifest comes from the first provider that serves it; each live provider
//! is then asked which chunks it holds, so that several partial seeders together
//! make up a blob none of them has in full. Fetching is work-stealing: each
//! provider is handed a small batch and, the moment it finishes, the next. A
//! chunk that was assigned but not delivered goes back to the pool, and a
//! provider that stops responding is retired. Chunks are handed to the caller in
//! playback order as soon as every earlier one has arrived.
use crate::blob::{
    assembled, blob_id, held, holds, law_put_is_held, law_put_leaves_the_rest,
    law_taken_leaves_the_rest, named, Manifest, StoredView,
};
use crate::blob_download::{bit_at, tells_holdings};
use crate::bytes::{array_of, copy_of, lemma_array_of, same_array};
use crate::crypto::{blake3_digest, hash, Digest};
use crate::lists::{
    copied, first, found, lemma_first, lemma_first_at, lemma_first_none, lemma_push_contains,
    lemma_views_push, lemma_views_remove, views,
};
use crate::plan::{
    after_refusal, all_handed, delivered, eligible, folded, is_given, is_holder, is_order,
    law_assignment_is_sound, law_order_has_no_repeats, law_pick_is_best, left_over, might_serve,
    offers, order_of, taken_back, Holdings, HoldingsView, Plan, PlanView, Selection,
};
use crate::sync_msg::{Message, MessageView, SyncError};
use crate::transfer::TransferError;
use vstd::prelude::*;

verus! {

/// How many chunks a provider is handed at once before it comes back for more.
/// Small on purpose: most of the work stays in the shared pool for whichever
/// provider frees up next.
pub const STEAL_BATCH: usize = 4;

/// What a provider's answer to a request for a manifest comes to, given the hash
/// of the manifest it carries.
pub open spec fn manifest_answer(id: Digest, reply: MessageView, digest: Digest) -> Result<
    Seq<Digest>,
    SyncError,
> {
    match reply {
        MessageView::Manifest(chunks) => if digest == id {
            Ok(chunks)
        } else {
            Err(SyncError::BadManifest)
        },
        _ => Err(SyncError::Absent),
    }
}

/// What a provider's answer to a request for a manifest comes to.
pub fn manifest_reply(id: &Digest, reply: Message) -> (r: Result<Manifest, SyncError>)
    ensures
        match manifest_answer(
            *id,
            reply@,
            (match reply@ {
                MessageView::Manifest(chunks) => array_of::<32>(blob_id(chunks)),
                _ => *id,
            }),
        ) {
            Ok(chunks) => r is Ok && r->Ok_0@ == chunks,
            Err(e) => r == Err::<Manifest, SyncError>(e),
        },
{
    let digest: Digest = match &reply {
        Message::Manifest(m) => {
            let d: Digest = m.id();
            proof {
                lemma_array_of(d);
            }
            d
        },
        _ => *id,
    };
    manifest_checked(id, reply, &digest)
}

/// What a provider's answer to a request for a manifest comes to, given the hash
/// of the manifest it carries.
pub fn manifest_checked(id: &Digest, reply: Message, digest: &Digest) -> (r: Result<
    Manifest,
    SyncError,
>)
    ensures
        match manifest_answer(*id, reply@, *digest) {
            Ok(chunks) => r is Ok && r->Ok_0@ == chunks,
            Err(e) => r == Err::<Manifest, SyncError>(e),
        },
{
    match reply {
        Message::Manifest(m) => if same_array(digest, id) {
            Ok(m)
        } else {
            Err(SyncError::BadManifest)
        },
        _ => Err(SyncError::Absent),
    }
}

/// What a provider's answer to the question which chunks it holds comes to. One
/// that can't say, or says too little to cover the manifest, might hold
/// anything; an answer to another question is not relied on.
pub open spec fn haveset_answer(reply: MessageView, chunks: Seq<Digest>) -> HoldingsView {
    match reply {
        MessageView::Have { bits } => if bits.len() < (chunks.len() + 7) / 8 {
            HoldingsView::Unknown(Set::empty())
        } else {
            HoldingsView::Known(
                Set::new(
                    |x: Digest|
                        exists|i: int|
                            0 <= i < chunks.len() && #[trigger] chunks[i] == x && bit_at(bits, i),
                ),
            )
        },
        MessageView::Absent => HoldingsView::Unknown(Set::empty()),
        _ => HoldingsView::Known(Set::empty()),
    }
}

/// What a provider's answer to the question which chunks it holds comes to.
pub fn haveset_reply(reply: &Message, manifest: &Manifest) -> (r: Holdings)
    ensures
        r@ == haveset_answer(reply@, manifest@),
{
    match reply {
        Message::Have { bits } => {
            let n: usize = manifest.chunks.len();
            let size: usize = if n % 8 == 0 {
                n / 8
            } else {
                n / 8 + 1
            };
            if bits.len() < size {
                return Holdings::unknown();
            }
            let ghost chunks = manifest@;
            let mut set: Vec<Digest> = Vec::new();
            let mut i: usize = 0;
            while i < n
                invariant
                    i <= n,
                    n == manifest.chunks.len(),
                    chunks == manifest.chunks@,
                    bits@.len() >= (n + 7) / 8,
                    forall|x: Digest| #[trigger]
                        set@.contains(x) <==> exists|k: int|
                            0 <= k < i && #[trigger] chunks[k] == x && bit_at(bits@, k),
                decreases n - i,
            {
                let ghost before = set@;
                let x: Digest = manifest.chunks[i];
                let k: u8 = (i % 8) as u8;
                let set_bit: bool = bits[i / 8] & (1u8 << k) != 0;
                assert(set_bit == bit_at(bits@, i as int));
                if set_bit {
                    set.push(x);
                }
                proof {
                    assert forall|y: Digest| #[trigger] set@.contains(y) <==> exists|k: int|
                        0 <= k < i + 1 && #[trigger] chunks[k] == y && bit_at(bits@, k) by {
                        lemma_push_contains(before, x, y);
                        let old_one = exists|k: int|
                            0 <= k < i && #[trigger] chunks[k] == y && bit_at(bits@, k);
                        assert(before.contains(y) <==> old_one);
                        if old_one {
                            let k = choose|k: int|
                                0 <= k < i && #[trigger] chunks[k] == y && bit_at(bits@, k);
                            assert(0 <= k < i + 1 && chunks[k] == y);
                        }
                        if set_bit && y == x {
                            assert(chunks[i as int] == y);
                        }
                        if exists|k: int|
                            0 <= k < i + 1 && #[trigger] chunks[k] == y && bit_at(bits@, k) {
                            let k = choose|k: int|
                                0 <= k < i + 1 && #[trigger] chunks[k] == y && bit_at(bits@, k);
                            if k < i {
                                assert(0 <= k < i && chunks[k] == y);
                            }
                        }
                    }
                }
                i += 1;
            }
            let r = Holdings::Known(set);
            assert(r@->Known_0 =~= haveset_answer(reply@, manifest@)->Known_0);
            r
        },
        Message::Absent => Holdings::unknown(),
        _ => {
            let r = Holdings::Known(Vec::new());
            assert(r@->Known_0 =~= Set::empty());
            r
        },
    }
}

/// A chunk that was fetched.
#[derive(Debug, Clone)]
pub struct Fetched {
    /// The chunk that was asked for.
    pub name: Digest,
    /// What came.
    pub data: Vec<u8>,
}

/// A [`Fetched`] as a mathematical value.
#[verifier::ext_equal]
pub struct FetchedView {
    /// The chunk that was asked for.
    pub name: Digest,
    /// What came.
    pub data: Seq<u8>,
}

impl View for Fetched {
    type V = FetchedView;

    open spec fn view(&self) -> FetchedView {
        FetchedView { name: self.name, data: self.data@ }
    }
}

/// The fetching of a batch of chunks from one provider, one after the other.
pub struct ChunkFetch {
    wanted: Vec<Digest>,
    next: usize,
    fetched: Vec<Fetched>,
    alive: bool,
}

/// A [`ChunkFetch`] as a mathematical value.
#[verifier::ext_equal]
pub struct FetchView {
    /// The chunks to fetch.
    pub wanted: Seq<Digest>,
    /// How many have been asked for and answered.
    pub next: nat,
    /// The chunks fetched and verified.
    pub fetched: Seq<FetchedView>,
    /// Whether the provider is still usable.
    pub alive: bool,
}

impl View for ChunkFetch {
    type V = FetchView;

    closed spec fn view(&self) -> FetchView {
        FetchView {
            wanted: self.wanted@,
            next: self.next as nat,
            fetched: views(self.fetched@),
            alive: self.alive,
        }
    }
}

/// An answer to the request for the next chunk taken in, given the hash of the
/// bytes it carries. A chunk the provider lacks or sends wrong is skipped.
pub open spec fn chunk_taken(v: FetchView, reply: MessageView, digest: Digest) -> FetchView {
    let name = v.wanted[v.next as int];
    match reply {
        MessageView::Chunk { data } => if digest == name {
            FetchView {
                next: v.next + 1,
                fetched: v.fetched.push(FetchedView { name, data }),
                ..v
            }
        } else {
            FetchView { next: v.next + 1, ..v }
        },
        _ => FetchView { next: v.next + 1, ..v },
    }
}

impl ChunkFetch {
    /// No more has been answered than was asked for.
    pub open spec fn wf(&self) -> bool {
        self@.next <= self@.wanted.len()
    }

    /// Begin fetching a batch.
    pub fn new(wanted: Vec<Digest>) -> (r: Self)
        ensures
            r.wf(),
            r@ == (FetchView {
                wanted: wanted@,
                next: 0,
                fetched: Seq::empty(),
                alive: true,
            }),
    {
        let r = ChunkFetch { wanted, next: 0, fetched: Vec::new(), alive: true };
        assert(r@.fetched =~= Seq::<FetchedView>::empty());
        r
    }

    /// The next request to send, or `None` when the batch is done or the provider
    /// is gone.
    pub fn poll_request(&self) -> (r: Option<Message>)
        requires
            self.wf(),
        ensures
            if self@.alive && self@.next < self@.wanted.len() {
                r is Some && r->Some_0@ == (MessageView::GetChunk {
                    hash: self@.wanted[self@.next as int],
                })
            } else {
                r is None
            },
    {
        if self.alive && self.next < self.wanted.len() {
            Some(Message::GetChunk { hash: self.wanted[self.next] })
        } else {
            None
        }
    }

    /// Take in the answer to the request for the next chunk.
    pub fn on_reply(&mut self, reply: Message)
        requires
            old(self).wf(),
            old(self)@.next < old(self)@.wanted.len(),
        ensures
            final(self).wf(),
            final(self)@ == chunk_taken(
                old(self)@,
                reply@,
                (match reply@ {
                    MessageView::Chunk { data } => array_of::<32>(blake3_digest(data)),
                    _ => old(self)@.wanted[old(self)@.next as int],
                }),
            ),
    {
        let digest: Digest = match &reply {
            Message::Chunk { data } => {
                let d: Digest = hash(data.as_slice());
                proof {
                    lemma_array_of(d);
                }
                d
            },
            _ => self.wanted[self.next],
        };
        self.on_hashed(reply, digest);
    }

    /// Take in the answer to the request for the next chunk, given the hash of
    /// the bytes it carries.
    pub fn on_hashed(&mut self, reply: Message, digest: Digest)
        requires
            old(self).wf(),
            old(self)@.next < old(self)@.wanted.len(),
        ensures
            final(self).wf(),
            final(self)@ == chunk_taken(old(self)@, reply@, digest),
    {
        let len: usize = self.wanted.len();
        assert(self.next < len);
        let name: Digest = self.wanted[self.next];
        self.next += 1;
        if let Message::Chunk { data } = reply {
            if same_array(&digest, &name) {
                let f = Fetched { name, data };
                proof {
                    lemma_views_push(self.fetched@, f);
                }
                self.fetched.push(f);
            }
        }
    }

    /// The provider stopped responding: stop, and retire it.
    pub fn on_failure(&mut self)
        requires
            old(self).wf(),
        ensures
            final(self).wf(),
            final(self)@ == (FetchView { alive: false, ..old(self)@ }),
    {
        self.alive = false;
    }

    /// The chunks fetched and verified, and whether the provider is still usable.
    pub fn into_outcome(self) -> (r: (Vec<Fetched>, bool))
        ensures
            views(r.0@) == self@.fetched,
            r.1 == self@.alive,
    {
        (self.fetched, self.alive)
    }
}

/// How a provider answered a request made of every provider in turn.
#[derive(Debug, Clone, Copy, PartialEq, Eq, Structural)]
pub enum Reached {
    /// It served what was asked for.
    Served,
    /// It answered, but did not serve it.
    Refused,
    /// It did not respond.
    Dead,
}

/// What an error says of a provider: one that did not respond is dead, one that
/// answered wrongly has refused.
pub fn reached_by(e: &TransferError) -> (r: Reached)
    ensures
        r == (match *e {
            TransferError::Timeout => Reached::Dead,
            TransferError::Io(_) => Reached::Dead,
            _ => Reached::Refused,
        }),
{
    match e {
        TransferError::Timeout => Reached::Dead,
        TransferError::Io(_) => Reached::Dead,
        _ => Reached::Refused,
    }
}

/// The providers that stay in a download while the manifest is looked for: all
/// but those that did not respond. The search ends at the first that serves it.
pub open spec fn kept_providers(answers: Seq<Reached>, total: nat) -> Seq<usize>
    decreases answers.len(),
{
    if answers.len() == 0 {
        Seq::empty()
    } else if answers.last() == Reached::Dead {
        kept_providers(answers.drop_last(), total)
    } else {
        kept_providers(answers.drop_last(), total).push((answers.len() - 1) as usize)
    }
}

/// The providers from one up to another.
pub open spec fn untried(from: nat, total: nat) -> Seq<usize> {
    Seq::new((total - from) as nat, |i: int| (from + i) as usize)
}

/// Whether a search for the manifest goes on.
pub open spec fn search_goes_on(answers: Seq<Reached>, total: nat) -> bool {
    answers.len() < total && !(answers.len() > 0 && answers.last() == Reached::Served)
}

/// The search for the manifest among providers asked in turn.
pub struct ManifestSearch {
    answers: Vec<Reached>,
    total: usize,
}

impl View for ManifestSearch {
    type V = Seq<Reached>;

    closed spec fn view(&self) -> Seq<Reached> {
        self.answers@
    }
}

impl ManifestSearch {
    /// How many providers there are.
    pub closed spec fn total(&self) -> nat {
        self.total as nat
    }

    /// No more providers have answered than there are.
    pub open spec fn wf(&self) -> bool {
        self@.len() <= self.total() <= usize::MAX
    }

    /// Begin a search among `total` providers.
    pub fn new(total: usize) -> (r: Self)
        ensures
            r.wf(),
            r@ == Seq::<Reached>::empty(),
            r.total() == total,
    {
        ManifestSearch { answers: Vec::new(), total }
    }

    /// The provider to ask next, if the search goes on.
    pub fn next(&self) -> (r: Option<usize>)
        requires
            self.wf(),
        ensures
            r == (if search_goes_on(self@, self.total()) {
                Some(self@.len() as usize)
            } else {
                None
            }),
    {
        let n: usize = self.answers.len();
        if n >= self.total {
            return None;
        }
        if n > 0 && self.answers[n - 1] == Reached::Served {
            return None;
        }
        Some(n)
    }

    /// Take in how the provider asked last answered.
    pub fn on_answer(&mut self, answer: Reached)
        requires
            old(self).wf(),
            search_goes_on(old(self)@, old(self).total()),
        ensures
            final(self).wf(),
            final(self).total() == old(self).total(),
            final(self)@ == old(self)@.push(answer),
    {
        self.answers.push(answer);
    }

    /// The providers to go on with: those that responded, then those that were
    /// never asked.
    pub fn live(&self) -> (r: Vec<usize>)
        requires
            self.wf(),
        ensures
            r@ == kept_providers(self@, self.total()) + untried(self@.len(), self.total()),
    {
        let ghost s = self.answers@;
        let ghost total = self.total as nat;
        let mut r: Vec<usize> = Vec::new();
        let mut i: usize = 0;
        while i < self.answers.len()
            invariant
                i <= self.answers.len(),
                s == self.answers@,
                r@ == kept_providers(s.take(i as int), total),
            decreases self.answers.len() - i,
        {
            proof {
                assert(s.take(i + 1).drop_last() =~= s.take(i as int));
                assert(s.take(i + 1).last() == s[i as int]);
            }
            if self.answers[i] != Reached::Dead {
                r.push(i);
            }
            i += 1;
        }
        proof {
            assert(s.take(s.len() as int) =~= s);
            assert(r@ + untried(s.len(), i as nat) =~= r@);
        }
        while i < self.total
            invariant
                self.answers@.len() <= i <= self.total,
                s == self.answers@,
                total == self.total,
                r@ == kept_providers(s, total) + untried(s.len(), i as nat),
            decreases self.total - i,
        {
            r.push(i);
            assert(r@ =~= kept_providers(s, total) + untried(s.len(), (i + 1) as nat));
            i += 1;
        }
        r
    }
}

/// What to go on with if a provider could not be asked which chunks it holds: one
/// that did not respond is retired, any other might hold anything.
pub fn haveset_failed(e: &TransferError) -> (r: Option<Holdings>)
    ensures
        match *e {
            TransferError::Timeout => r is None,
            TransferError::Io(_) => r is None,
            _ => r is Some && r->Some_0@ == HoldingsView::Unknown(Set::empty()),
        },
{
    match reached_by(e) {
        Reached::Dead => None,
        _ => Some(Holdings::unknown()),
    }
}

/// What a bulk download that has ended comes to.
pub fn bulk_result(plan: &Plan) -> (r: Result<Vec<u8>, TransferError>)
    ensures
        match assembled(plan@.have, plan@.chunks) {
            Some(data) => r is Ok && r->Ok_0@ == data,
            None => r == Err::<Vec<u8>, TransferError>(TransferError::Incomplete),
        },
{
    match plan.reassemble() {
        Some(data) => Ok(data),
        None => Err(TransferError::Incomplete),
    }
}

/// What a stream that has ended comes to: chunks are freed as they are delivered,
/// so it is complete once everything was delivered.
pub fn stream_result(plan: &Plan) -> (r: Result<(), TransferError>)
    ensures
        r == (if plan@.frontier >= plan@.chunks.len() {
            Ok::<(), TransferError>(())
        } else {
            Err(TransferError::Incomplete)
        }),
{
    if plan.all_delivered() {
        Ok(())
    } else {
        Err(TransferError::Incomplete)
    }
}

/// What the search for a manifest comes to: without one there is nothing to fetch.
pub fn search_result(manifest: Option<Manifest>) -> (r: Result<Manifest, TransferError>)
    ensures
        r == (match manifest {
            Some(m) => Ok::<Manifest, TransferError>(m),
            None => Err(TransferError::Incomplete),
        }),
{
    match manifest {
        Some(m) => Ok(m),
        None => Err(TransferError::Incomplete),
    }
}

/// The window a stream is fetched in: at least one chunk, or nothing would ever
/// be in range.
pub fn stream_window(window: usize) -> (r: usize)
    ensures
        r == (if window == 0 {
            1
        } else {
            window
        }),
{
    if window == 0 {
        1
    } else {
        window
    }
}

/// A provider waiting for work.
pub struct Idle {
    provider: usize,
    holds: Holdings,
}

/// An [`Idle`] as a mathematical value.
#[verifier::ext_equal]
pub struct IdleView {
    /// The provider.
    pub provider: usize,
    /// What it can serve.
    pub holds: HoldingsView,
}

impl View for Idle {
    type V = IdleView;

    closed spec fn view(&self) -> IdleView {
        IdleView { provider: self.provider, holds: self.holds@ }
    }
}

/// A batch being fetched.
pub struct Task {
    provider: usize,
    holds: Holdings,
    chunks: Vec<Digest>,
}

/// A [`Task`] as a mathematical value.
#[verifier::ext_equal]
pub struct TaskView {
    /// The provider it is fetched from.
    pub provider: usize,
    /// What the provider can serve.
    pub holds: HoldingsView,
    /// The batch.
    pub chunks: Seq<Digest>,
}

impl View for Task {
    type V = TaskView;

    closed spec fn view(&self) -> TaskView {
        TaskView { provider: self.provider, holds: self.holds@, chunks: self.chunks@ }
    }
}

/// A batch handed to a provider.
#[derive(Debug, Clone)]
pub struct Batch {
    /// The provider to fetch it from.
    pub provider: usize,
    /// The chunks to fetch.
    pub chunks: Vec<Digest>,
}

/// A chunk handed to the caller in playback order.
#[derive(Debug, Clone)]
pub struct Delivery {
    /// The playback index.
    pub index: usize,
    /// The chunk's bytes.
    pub data: Vec<u8>,
}

/// A [`Delivery`] as a mathematical value.
#[verifier::ext_equal]
pub struct DeliveryView {
    /// The playback index.
    pub index: nat,
    /// The chunk's bytes.
    pub data: Seq<u8>,
}

impl View for Delivery {
    type V = DeliveryView;

    open spec fn view(&self) -> DeliveryView {
        DeliveryView { index: self.index as nat, data: self.data@ }
    }
}

/// A [`Swarm`] as a mathematical value.
#[verifier::ext_equal]
pub struct SwarmView {
    /// What is still needed.
    pub plan: PlanView,
    /// The providers waiting for work.
    pub idle: Seq<IdleView>,
    /// The batches being fetched.
    pub tasks: Seq<TaskView>,
}

/// Whether a download frees chunks once they are delivered.
pub open spec fn frees(v: PlanView) -> bool {
    v.selection is Streaming
}

/// What idle providers offer.
pub open spec fn offered(idle: Seq<IdleView>) -> Seq<HoldingsView> {
    Seq::new(idle.len(), |i: int| idle[i].holds)
}

/// The providers, among the first `n`, that got nothing to do.
pub open spec fn still_idle(idle: Seq<IdleView>, given: Seq<Seq<Digest>>, n: nat) -> Seq<IdleView>
    decreases n,
{
    if n == 0 {
        Seq::empty()
    } else if given[n - 1].len() == 0 {
        still_idle(idle, given, (n - 1) as nat).push(idle[n - 1])
    } else {
        still_idle(idle, given, (n - 1) as nat)
    }
}

/// The batches of those, among the first `n`, that got something to do.
pub open spec fn new_tasks(idle: Seq<IdleView>, given: Seq<Seq<Digest>>, n: nat) -> Seq<TaskView>
    decreases n,
{
    if n == 0 {
        Seq::empty()
    } else if given[n - 1].len() == 0 {
        new_tasks(idle, given, (n - 1) as nat)
    } else {
        new_tasks(idle, given, (n - 1) as nat).push(
            TaskView {
                provider: idle[n - 1].provider,
                holds: idle[n - 1].holds,
                chunks: given[n - 1],
            },
        )
    }
}

/// What idle providers are given.
pub open spec fn handed_out(v: SwarmView) -> Seq<Seq<Digest>> {
    all_handed(offered(v.idle), STEAL_BATCH as nat, order_of(v.plan, offered(v.idle)))
}

/// Work handed to the idle providers.
pub open spec fn dispatched(v: SwarmView) -> SwarmView {
    if v.idle.len() == 0 || v.plan.pending.len() == 0 {
        v
    } else {
        let given = handed_out(v);
        SwarmView {
            plan: PlanView { pending: left_over(v.plan.pending, given), ..v.plan },
            idle: still_idle(v.idle, given, v.idle.len()),
            tasks: v.tasks + new_tasks(v.idle, given, v.idle.len()),
        }
    }
}

/// The batches handed out by a dispatch.
pub open spec fn batches(v: SwarmView) -> Seq<TaskView> {
    if v.idle.len() == 0 || v.plan.pending.len() == 0 {
        Seq::empty()
    } else {
        new_tasks(v.idle, handed_out(v), v.idle.len())
    }
}

/// The hash of each chunk's bytes.
pub open spec fn hashes_of(fetched: Seq<FetchedView>) -> Seq<Digest> {
    Seq::new(fetched.len(), |i: int| array_of::<32>(blake3_digest(fetched[i].data)))
}

/// Whether these are the hashes of each chunk's bytes.
pub open spec fn are_hashes(digests: Seq<Digest>, fetched: Seq<FetchedView>) -> bool {
    &&& digests.len() == fetched.len()
    &&& forall|i: int|
        0 <= i < fetched.len() ==> (#[trigger] digests[i])@ == blake3_digest(fetched[i].data)
}

/// Chunks folded in one after the other, given the hash of each.
pub open spec fn all_folded(v: PlanView, fetched: Seq<FetchedView>, digests: Seq<Digest>) -> PlanView
    decreases fetched.len(),
{
    if fetched.len() == 0 {
        v
    } else {
        let f = fetched.last();
        let n = fetched.len() - 1;
        folded(
            all_folded(v, fetched.drop_last(), digests.take(n)),
            f.name,
            f.data,
            digests[n],
        ).0
    }
}

/// Whether the chunk at the frontier can be delivered.
pub open spec fn can_deliver(v: PlanView) -> bool {
    v.frontier < v.chunks.len() && holds(v.have, v.chunks[v.frontier as int])
}

/// Everything that can be delivered, and the plan once it is.
pub open spec fn all_delivered_from(v: PlanView, frees: bool) -> (PlanView, Seq<DeliveryView>)
    decreases v.chunks.len() - v.frontier,
{
    if can_deliver(v) {
        let d = DeliveryView {
            index: v.frontier,
            data: held(v.have, v.chunks[v.frontier as int]),
        };
        let (r, more) = all_delivered_from(delivered(v, frees), frees);
        (r, seq![d] + more)
    } else {
        (v, Seq::empty())
    }
}

/// Whether a chunk was fetched.
pub open spec fn was_fetched(fetched: Seq<FetchedView>, chunk: Digest) -> bool {
    exists|i: int| 0 <= i < fetched.len() && (#[trigger] fetched[i]).name == chunk
}

/// The chunks of a batch that were not delivered.
pub open spec fn undelivered(chunks: Seq<Digest>, fetched: Seq<FetchedView>) -> Seq<Digest>
    decreases chunks.len(),
{
    if chunks.len() == 0 {
        Seq::empty()
    } else if was_fetched(fetched, chunks.last()) {
        undelivered(chunks.drop_last(), fetched)
    } else {
        undelivered(chunks.drop_last(), fetched).push(chunks.last())
    }
}

/// What is known of a provider after it refused chunks.
pub open spec fn after_refusals(h: HoldingsView, chunks: Seq<Digest>) -> HoldingsView
    decreases chunks.len(),
{
    if chunks.len() == 0 {
        h
    } else {
        after_refusal(after_refusals(h, chunks.drop_last()), chunks.last())
    }
}

/// The batch of a provider.
pub open spec fn of_provider(provider: usize) -> spec_fn(TaskView) -> bool {
    |t: TaskView| t.provider == provider
}

/// A batch finished: what was fetched is folded in, given the hash of each chunk,
/// what can be delivered is, and what was not fetched goes back to the pool. A
/// provider that is still usable waits for more work, and is not offered again
/// what it did not deliver.
pub open spec fn finished(
    v: SwarmView,
    provider: usize,
    fetched: Seq<FetchedView>,
    digests: Seq<Digest>,
    alive: bool,
) -> (SwarmView, Seq<DeliveryView>) {
    match first(v.tasks, of_provider(provider)) {
        Some(k) => {
            let task = v.tasks[k];
            let (plan, out) = all_delivered_from(
                all_folded(v.plan, fetched, digests),
                frees(v.plan),
            );
            let rest = undelivered(task.chunks, fetched);
            (
                SwarmView {
                    plan: taken_back(plan, rest),
                    idle: if alive {
                        v.idle.push(
                            IdleView { provider, holds: after_refusals(task.holds, rest) },
                        )
                    } else {
                        v.idle
                    },
                    tasks: v.tasks.remove(k),
                },
                out,
            )
        },
        None => (v, Seq::empty()),
    }
}

/// A batch lost with its provider: its chunks go back to the pool.
pub open spec fn lost(v: SwarmView, provider: usize) -> SwarmView {
    match first(v.tasks, of_provider(provider)) {
        Some(k) => SwarmView {
            plan: taken_back(v.plan, v.tasks[k].chunks),
            tasks: v.tasks.remove(k),
            ..v
        },
        None => v,
    }
}

/// A download from several providers.
pub struct Swarm {
    plan: Plan,
    idle: Vec<Idle>,
    tasks: Vec<Task>,
    frees: bool,
}

impl View for Swarm {
    type V = SwarmView;

    closed spec fn view(&self) -> SwarmView {
        SwarmView {
            plan: self.plan@,
            idle: views(self.idle@),
            tasks: views(self.tasks@),
        }
    }
}

fn find_task(s: &Vec<Task>, provider: usize) -> (r: Option<usize>)
    ensures
        found(views(s@), of_provider(provider), r),
{
    let mut i: usize = 0;
    while i < s.len()
        invariant
            i <= s.len(),
            forall|j: int| 0 <= j < i ==> !of_provider(provider)(#[trigger] views(s@)[j]),
        decreases s.len() - i,
    {
        assert(views(s@)[i as int] == s@[i as int]@);
        if s[i].provider == provider {
            proof {
                lemma_first_at(views(s@), of_provider(provider), i as int);
            }
            return Some(i);
        }
        i += 1;
    }
    proof {
        lemma_first_none(views(s@), of_provider(provider));
    }
    None
}

/// The hash of each chunk's bytes.
fn hash_all(fetched: &Vec<Fetched>) -> (r: Vec<Digest>)
    ensures
        r@ == hashes_of(views(fetched@)),
        are_hashes(r@, views(fetched@)),
{
    let mut r: Vec<Digest> = Vec::new();
    let ghost f = views(fetched@);
    let mut i: usize = 0;
    while i < fetched.len()
        invariant
            i <= fetched.len(),
            f == views(fetched@),
            r@.len() == i,
            forall|j: int| 0 <= j < i ==> (#[trigger] r@[j])@ == blake3_digest(f[j].data),
            forall|j: int|
                0 <= j < i ==> #[trigger] r@[j] == array_of::<32>(blake3_digest(f[j].data)),
        decreases fetched.len() - i,
    {
        let digest: Digest = hash(fetched[i].data.as_slice());
        proof {
            assert(f[i as int] == fetched@[i as int]@);
            lemma_array_of(digest);
        }
        r.push(digest);
        i += 1;
    }
    assert(r@ =~= hashes_of(f));
    r
}

fn is_fetched(fetched: &Vec<Fetched>, chunk: &Digest) -> (r: bool)
    ensures
        r == was_fetched(views(fetched@), *chunk),
{
    let ghost s = views(fetched@);
    let mut i: usize = 0;
    while i < fetched.len()
        invariant
            i <= fetched.len(),
            s == views(fetched@),
            forall|j: int| 0 <= j < i ==> (#[trigger] s[j]).name != *chunk,
        decreases fetched.len() - i,
    {
        assert(s[i as int] == fetched@[i as int]@);
        if same_array(&fetched[i].name, chunk) {
            assert(s[i as int].name == *chunk);
            return true;
        }
        i += 1;
    }
    false
}

fn not_delivered(chunks: &Vec<Digest>, fetched: &Vec<Fetched>) -> (r: Vec<Digest>)
    ensures
        r@ == undelivered(chunks@, views(fetched@)),
{
    let mut r: Vec<Digest> = Vec::new();
    let mut i: usize = 0;
    while i < chunks.len()
        invariant
            i <= chunks.len(),
            r@ == undelivered(chunks@.take(i as int), views(fetched@)),
        decreases chunks.len() - i,
    {
        proof {
            assert(chunks@.take(i + 1).drop_last() =~= chunks@.take(i as int));
            assert(chunks@.take(i + 1).last() == chunks@[i as int]);
        }
        if !is_fetched(fetched, &chunks[i]) {
            r.push(chunks[i]);
        }
        i += 1;
    }
    assert(chunks@.take(chunks@.len() as int) =~= chunks@);
    r
}

impl Swarm {
    /// The plan is in order, it goes by the selection it was made with, and no
    /// more has been delivered than there is.
    pub closed spec fn wf(&self) -> bool {
        &&& self.plan.wf()
        &&& self.frees == frees(self.plan@)
        &&& self.plan@.frontier <= self.plan@.chunks.len()
    }

    /// Begin downloading the blob with the given manifest.
    pub fn new(manifest: Manifest, selection: Selection) -> (r: Self)
        ensures
            r.wf(),
            r@ == (SwarmView {
                plan: PlanView {
                    chunks: manifest@,
                    pending: manifest@.to_set(),
                    have: Seq::empty(),
                    selection,
                    frontier: 0,
                },
                idle: Seq::empty(),
                tasks: Seq::empty(),
            }),
    {
        let mut plan = Plan::new(manifest);
        plan.set_selection(selection);
        let frees: bool = match selection {
            Selection::Streaming { .. } => true,
            Selection::RarestFirst => false,
        };
        let r = Swarm { plan, idle: Vec::new(), tasks: Vec::new(), frees };
        assert(r@.idle =~= Seq::<IdleView>::empty());
        assert(r@.tasks =~= Seq::<TaskView>::empty());
        r
    }

    /// Add a provider, with what it can serve.
    pub fn add_provider(&mut self, provider: usize, holdings: Holdings)
        requires
            old(self).wf(),
        ensures
            final(self).wf(),
            final(self)@ == (SwarmView {
                idle: old(self)@.idle.push(IdleView { provider, holds: holdings@ }),
                ..old(self)@
            }),
    {
        let idle = Idle { provider, holds: holdings };
        proof {
            lemma_views_push(self.idle@, idle);
        }
        self.idle.push(idle);
    }

    /// Hand each idle provider a small batch of chunks it can serve. Providers
    /// with nothing to do stay idle: they may get work once chunks come back.
    pub fn dispatch(&mut self) -> (r: Vec<Batch>)
        requires
            old(self).wf(),
        ensures
            final(self).wf(),
            final(self)@ == dispatched(old(self)@),
            r@.len() == batches(old(self)@).len(),
            forall|i: int|
                0 <= i < r@.len() ==> (#[trigger] r@[i]).provider == batches(
                    old(self)@,
                )[i].provider && r@[i].chunks@ == batches(old(self)@)[i].chunks,
    {
        let ghost v = self@;
        let mut out: Vec<Batch> = Vec::new();
        if self.idle.len() == 0 || self.plan.pending() == 0 {
            return out;
        }
        let given: Vec<Vec<Digest>> = self.assign_idle();
        let ghost g = views(given@);
        let ghost plan = self.plan@;
        let mut waiting: Vec<Idle> = Vec::new();
        std::mem::swap(&mut self.idle, &mut waiting);
        let n: usize = waiting.len();
        let mut rest: Vec<Idle> = Vec::new();
        let mut i: usize = n;
        let ghost all = views(waiting@);
        let ghost tasks0 = views(self.tasks@);
        i = 0;
        let mut given = given;
        proof {
            assert(views(rest@) =~= Seq::<IdleView>::empty());
            assert(tasks0 + new_tasks(all, g, 0) =~= tasks0);
            assert(all.skip(0) =~= all);
            assert(g.skip(0) =~= g);
        }
        while i < n
            invariant
                i <= n,
                n == all.len(),
                g.len() == n,
                self.plan.wf(),
                self.frees == frees(self.plan@),
                self.plan@ == plan,
                self.idle@.len() == 0,
                views(waiting@) == all.skip(i as int),
                views(given@) == g.skip(i as int),
                views(rest@) == still_idle(all, g, i as nat),
                views(self.tasks@) == tasks0 + new_tasks(all, g, i as nat),
                out@.len() == new_tasks(all, g, i as nat).len(),
                forall|j: int|
                    0 <= j < out@.len() ==> (#[trigger] out@[j]).provider == new_tasks(
                        all,
                        g,
                        i as nat,
                    )[j].provider && out@[j].chunks@ == new_tasks(all, g, i as nat)[j].chunks,
            decreases n - i,
        {
            let ghost w = waiting@;
            let ghost gv = given@;
            proof {
                assert(views(w).len() == n - i);
                assert(views(gv).len() == n - i);
                assert(views(w)[0] == w[0]@);
                assert(views(gv)[0] == gv[0]@);
                assert(all.skip(i as int)[0] == all[i as int]);
                assert(g.skip(i as int)[0] == g[i as int]);
                lemma_views_remove(w, 0);
                lemma_views_remove(gv, 0);
                assert(all.skip(i as int).remove(0) =~= all.skip(i + 1));
                assert(g.skip(i as int).remove(0) =~= g.skip(i + 1));
            }
            let idle: Idle = waiting.remove(0);
            let chunks: Vec<Digest> = given.remove(0);
            if chunks.len() == 0 {
                proof {
                    lemma_views_push(rest@, idle);
                }
                rest.push(idle);
            } else {
                out.push(Batch { provider: idle.provider, chunks: copied(&chunks) });
                let task = Task { provider: idle.provider, holds: idle.holds, chunks };
                proof {
                    lemma_views_push(self.tasks@, task);
                    let before = new_tasks(all, g, i as nat);
                    assert(task@ == new_tasks(all, g, (i + 1) as nat).last());
                    assert(tasks0 + before.push(task@) =~= (tasks0 + before).push(task@));
                }
                self.tasks.push(task);
            }
            i += 1;
        }
        self.idle = rest;
        assert(self@ =~= dispatched(v));
        out
    }

    fn assign_idle(&mut self) -> (r: Vec<Vec<Digest>>)
        requires
            old(self).wf(),
        ensures
            final(self).wf(),
            views(r@) == handed_out(old(self)@),
            views(r@).len() == old(self)@.idle.len(),
            final(self).idle == old(self).idle,
            final(self).tasks == old(self).tasks,
            final(self)@ == (SwarmView {
                plan: PlanView {
                    pending: left_over(old(self)@.plan.pending, views(r@)),
                    ..old(self)@.plan
                },
                ..old(self)@
            }),
    {
        let ghost offers_now = offered(self@.idle);
        let mut holdings: Vec<&Holdings> = Vec::new();
        let mut i: usize = 0;
        while i < self.idle.len()
            invariant
                i <= self.idle.len(),
                offers_now == offered(views(self.idle@)),
                offers(holdings@) == offers_now.take(i as int),
            decreases self.idle.len() - i,
        {
            proof {
                assert(views(self.idle@)[i as int] == self.idle@[i as int]@);
            }
            let ghost before = holdings@;
            holdings.push(&self.idle[i].holds);
            proof {
                assert(before.len() == offers(before).len());
                assert(holdings@.len() == i + 1);
                assert forall|j: int| 0 <= j < i + 1 implies offers(holdings@)[j]
                    == offers_now.take(i + 1)[j] by {
                    if j < i {
                        assert(holdings@[j] == before[j]);
                        assert(offers(before)[j] == offers_now.take(i as int)[j]);
                    }
                }
                assert(offers(holdings@) =~= offers_now.take(i + 1));
            }
            i += 1;
        }
        assert(offers_now.take(offers_now.len() as int) =~= offers_now);
        let given: Vec<Vec<Digest>> = self.plan.assign(holdings.as_slice(), STEAL_BATCH);
        proof {
            lemma_handed_len(
                offers_now,
                STEAL_BATCH as nat,
                order_of(old(self)@.plan, offers_now),
            );
        }
        given
    }

    /// A provider finished its batch. Each chunk is hashed, and taken only if it is
    /// what its name says. Returns the chunks that can now be delivered, in
    /// playback order.
    pub fn on_finished(&mut self, provider: usize, fetched: Vec<Fetched>, alive: bool) -> (r: Vec<
        Delivery,
    >)
        requires
            old(self).wf(),
        ensures
            final(self).wf(),
            (final(self)@, views(r@)) == finished(
                old(self)@,
                provider,
                views(fetched@),
                hashes_of(views(fetched@)),
                alive,
            ),
            are_hashes(hashes_of(views(fetched@)), views(fetched@)),
            is_genuine(old(self)@.plan) ==> is_genuine(final(self)@.plan) && are_genuine(
                views(r@),
                old(self)@.plan.chunks,
            ),
    {
        let digests: Vec<Digest> = hash_all(&fetched);
        proof {
            law_deliveries_are_genuine(self@, provider, views(fetched@), digests@, alive);
        }
        self.on_hashed(provider, fetched, digests, alive)
    }

    /// A provider finished its batch, given the hash of each chunk's bytes.
    pub fn on_hashed(
        &mut self,
        provider: usize,
        fetched: Vec<Fetched>,
        digests: Vec<Digest>,
        alive: bool,
    ) -> (r: Vec<Delivery>)
        requires
            old(self).wf(),
            digests@.len() == fetched@.len(),
        ensures
            final(self).wf(),
            (final(self)@, views(r@)) == finished(
                old(self)@,
                provider,
                views(fetched@),
                digests@,
                alive,
            ),
    {
        let ghost v = self@;
        let ghost f = views(fetched@);
        let k: usize = match find_task(&self.tasks, provider) {
            Some(k) => k,
            None => {
                let none: Vec<Delivery> = Vec::new();
                assert(views(none@) =~= Seq::<DeliveryView>::empty());
                return none;
            },
        };
        proof {
            assert(views(self.tasks@)[k as int] == self.tasks@[k as int]@);
            lemma_views_remove(self.tasks@, k as int);
            lemma_first(v.tasks, of_provider(provider));
        }
        let task: Task = self.tasks.remove(k);
        let rest: Vec<Digest> = not_delivered(&task.chunks, &fetched);
        self.fold_all(&fetched, &digests);
        let out: Vec<Delivery> = self.deliver();
        self.plan.requeue(&rest);
        if alive {
            let mut holdings: Holdings = task.holds;
            let mut i: usize = 0;
            while i < rest.len()
                invariant
                    i <= rest.len(),
                    holdings@ == after_refusals(task@.holds, rest@.take(i as int)),
                decreases rest.len() - i,
            {
                proof {
                    assert(rest@.take(i + 1).drop_last() =~= rest@.take(i as int));
                    assert(rest@.take(i + 1).last() == rest@[i as int]);
                }
                holdings.refuse(&rest[i]);
                i += 1;
            }
            assert(rest@.take(rest@.len() as int) =~= rest@);
            let idle = Idle { provider, holds: holdings };
            proof {
                lemma_views_push(self.idle@, idle);
            }
            self.idle.push(idle);
        }
        assert(self@ =~= finished(v, provider, f, digests@, alive).0);
        out
    }

    fn fold_all(&mut self, fetched: &Vec<Fetched>, digests: &Vec<Digest>)
        requires
            old(self).wf(),
            digests@.len() == fetched@.len(),
        ensures
            final(self).wf(),
            final(self).idle == old(self).idle,
            final(self).tasks == old(self).tasks,
            final(self).frees == old(self).frees,
            final(self)@.plan == all_folded(old(self)@.plan, views(fetched@), digests@),
    {
        let ghost f = views(fetched@);
        let ghost plan = self.plan@;
        let mut i: usize = 0;
        while i < fetched.len()
            invariant
                i <= fetched.len(),
                f == views(fetched@),
                self.plan.wf(),
                self.idle == old(self).idle,
                self.tasks == old(self).tasks,
                self.frees == old(self).frees,
                digests@.len() == fetched@.len(),
                self.plan@ == all_folded(plan, f.take(i as int), digests@.take(i as int)),
                self.plan@.selection == plan.selection,
                self.plan@.frontier == plan.frontier,
                self.plan@.chunks == plan.chunks,
            decreases fetched.len() - i,
        {
            proof {
                assert(f.take(i + 1).drop_last() =~= f.take(i as int));
                assert(f.take(i + 1).last() == f[i as int]);
                assert(f[i as int] == fetched@[i as int]@);
                assert(digests@.take(i + 1).take(i as int) =~= digests@.take(i as int));
            }
            let data: Vec<u8> = copy_of(fetched[i].data.as_slice());
            let _ = self.plan.store_hashed(fetched[i].name, data, digests[i]);
            i += 1;
        }
        assert(f.take(f.len() as int) =~= f);
        assert(digests@.take(f.len() as int) =~= digests@);
    }

    fn deliver(&mut self) -> (r: Vec<Delivery>)
        requires
            old(self).wf(),
        ensures
            final(self).wf(),
            final(self).idle == old(self).idle,
            final(self).tasks == old(self).tasks,
            final(self).frees == old(self).frees,
            (final(self)@.plan, views(r@)) == all_delivered_from(
                old(self)@.plan,
                old(self).frees,
            ),
    {
        let ghost plan = self.plan@;
        let ghost want = all_delivered_from(plan, self.frees);
        let mut out: Vec<Delivery> = Vec::new();
        assert(views(out@) + want.1 =~= want.1);
        loop
            invariant
                self.wf(),
                self.idle == old(self).idle,
                self.tasks == old(self).tasks,
                self.frees == old(self).frees,
                want.0 == all_delivered_from(self.plan@, self.frees).0,
                want.1 == views(out@) + all_delivered_from(self.plan@, self.frees).1,
            ensures
                self.wf(),
                self.idle == old(self).idle,
                self.tasks == old(self).tasks,
                self.frees == old(self).frees,
                want.0 == self.plan@,
                want.1 == views(out@),
            decreases self.plan@.chunks.len() - self.plan@.frontier,
        {
            let ghost p = self.plan@;
            let ghost before = views(out@);
            let index: usize = self.plan.frontier();
            let data: Vec<u8> = match self.plan.chunk_at(index) {
                Some(bytes) => copy_of(bytes.as_slice()),
                None => {
                    assert(before + Seq::<DeliveryView>::empty() =~= before);
                    break;
                },
            };
            let n: usize = self.plan.chunk_count();
            let d = Delivery { index, data };
            proof {
                lemma_views_push(out@, d);
                let more = all_delivered_from(delivered(p, self.frees), self.frees).1;
                assert(before + (seq![d@] + more) =~= before.push(d@) + more);
            }
            out.push(d);
            self.plan.advance_delivery(self.frees);
        }
        out
    }

    /// A provider's task died: the provider is lost, but its chunks go back to
    /// the pool.
    pub fn on_lost(&mut self, provider: usize)
        requires
            old(self).wf(),
        ensures
            final(self).wf(),
            final(self)@ == lost(old(self)@, provider),
    {
        if let Some(k) = find_task(&self.tasks, provider) {
            proof {
                assert(views(self.tasks@)[k as int] == self.tasks@[k as int]@);
                lemma_views_remove(self.tasks@, k as int);
            }
            let task: Task = self.tasks.remove(k);
            self.plan.requeue(&task.chunks);
        }
    }

    /// Whether every playback index has been delivered.
    pub fn all_delivered(&self) -> (r: bool)
        ensures
            r == (self@.plan.frontier >= self@.plan.chunks.len()),
    {
        self.plan.all_delivered()
    }

    /// Whether no batch is being fetched. With none, and nothing to hand out, the
    /// download has ended.
    pub fn is_idle(&self) -> (r: bool)
        ensures
            r == (self@.tasks.len() == 0),
    {
        self.tasks.len() == 0
    }

    /// The plan, complete or not.
    pub fn into_plan(self) -> (r: Plan)
        requires
            self.wf(),
        ensures
            r.wf(),
            r@ == self@.plan,
    {
        self.plan
    }
}

proof fn lemma_handed_len(offered: Seq<HoldingsView>, cap: nat, order: Seq<Digest>)
    ensures
        all_handed(offered, cap, order).len() == offered.len(),
    decreases order.len(),
{
    if order.len() > 0 {
        lemma_handed_len(offered, cap, order.drop_last());
        law_pick_is_best(
            offered,
            all_handed(offered, cap, order.drop_last()),
            cap,
            order.last(),
            offered.len(),
        );
    }
}

/// Chunks are delivered in playback order, without a gap, each exactly as it was
/// verified; and everything that can be is.
pub proof fn law_delivery_is_in_order(v: PlanView, frees: bool)
    ensures
        ({
            let (r, out) = all_delivered_from(v, frees);
            &&& r.frontier == v.frontier + out.len()
            &&& r.chunks == v.chunks
            &&& r.pending == v.pending
            &&& r.selection == v.selection
            &&& !can_deliver(r)
            &&& v.frontier <= v.chunks.len() ==> r.frontier <= v.chunks.len()
            &&& forall|i: int|
                0 <= i < out.len() ==> (#[trigger] out[i]).index == v.frontier + i && v.frontier
                    + i < v.chunks.len() && out[i].data == held(
                    v.have,
                    v.chunks[v.frontier + i],
                )
        }),
    decreases v.chunks.len() - v.frontier,
{
    if can_deliver(v) {
        let next = delivered(v, frees);
        law_delivery_is_in_order(next, frees);
        let (r, out) = all_delivered_from(v, frees);
        let more = all_delivered_from(next, frees).1;
        lemma_held_ahead(next, frees);
        assert forall|i: int| 0 <= i < out.len() implies (#[trigger] out[i]).index == v.frontier
            + i && v.frontier + i < v.chunks.len() && out[i].data == held(
            v.have,
            v.chunks[v.frontier + i],
        ) by {
            if i > 0 {
                assert(out[i] == more[i - 1]);
                assert(held_ahead(next, i - 1));
                lemma_delivered_have(v, frees, v.chunks[v.frontier + i]);
            }
        }
    }
}

/// What is held after a delivery was held before it, as it was.
proof fn lemma_delivered_have(v: PlanView, frees: bool, c: Digest)
    requires
        v.frontier < v.chunks.len(),
        holds(delivered(v, frees).have, c),
        c != v.chunks[v.frontier as int] || delivered(v, frees).have == v.have || exists|j: int|
            v.frontier < j < v.chunks.len() && #[trigger] v.chunks[j] == c,
    ensures
        holds(v.have, c),
        held(delivered(v, frees).have, c) == held(v.have, c),
{
    let x = v.chunks[v.frontier as int];
    if delivered(v, frees).have != v.have && c != x {
        law_taken_leaves_the_rest(v.have, x, c);
    }
}

/// Whether the chunk `i` places ahead of the frontier is held.
spec fn held_ahead(v: PlanView, i: int) -> bool {
    v.frontier + i < v.chunks.len() && holds(v.have, v.chunks[v.frontier + i])
}

/// Everything delivered is held when its turn comes.
proof fn lemma_held_ahead(v: PlanView, frees: bool)
    ensures
        forall|i: int|
            0 <= i < all_delivered_from(v, frees).1.len() ==> #[trigger] held_ahead(v, i),
    decreases v.chunks.len() - v.frontier,
{
    if can_deliver(v) {
        let next = delivered(v, frees);
        lemma_held_ahead(next, frees);
        assert forall|i: int| 0 <= i < all_delivered_from(
            v,
            frees,
        ).1.len() implies #[trigger] held_ahead(v, i) by {
            if i > 0 {
                assert(held_ahead(next, i - 1));
                lemma_delivered_have(v, frees, v.chunks[v.frontier + i]);
            }
        }
    }
}

/// Whether every use of a chunk has been delivered.
pub open spec fn is_played(v: PlanView, c: Digest) -> bool {
    forall|j: int| 0 <= j < v.chunks.len() && #[trigger] v.chunks[j] == c ==> j < v.frontier
}

/// Whether a chunk is being fetched.
pub open spec fn is_in_flight(tasks: Seq<TaskView>, c: Digest) -> bool {
    exists|i: int| 0 <= i < tasks.len() && (#[trigger] tasks[i]).chunks.contains(c)
}

/// Whether a chunk is held, waiting, being fetched, or done with.
pub open spec fn is_accounted(v: SwarmView, c: Digest) -> bool {
    ||| holds(v.plan.have, c)
    ||| v.plan.pending.contains(c)
    ||| is_in_flight(v.tasks, c)
    ||| is_played(v.plan, c)
}

/// No chunk of the blob has been lost track of.
pub open spec fn nothing_lost(v: SwarmView) -> bool {
    forall|c: Digest| v.plan.chunks.contains(c) ==> #[trigger] is_accounted(v, c)
}

/// A fresh download has lost track of nothing.
pub proof fn law_nothing_lost_at_first(v: SwarmView)
    requires
        v.plan.pending == v.plan.chunks.to_set(),
    ensures
        nothing_lost(v),
{
}

proof fn lemma_new_tasks(idle: Seq<IdleView>, given: Seq<Seq<Digest>>, n: nat, c: Digest)
    requires
        n <= given.len(),
    ensures
        is_in_flight(new_tasks(idle, given, n), c) <==> exists|i: int|
            0 <= i < n && (#[trigger] given[i]).contains(c),
    decreases n,
{
    let r = new_tasks(idle, given, n);
    if n > 0 {
        lemma_new_tasks(idle, given, (n - 1) as nat, c);
        let before = new_tasks(idle, given, (n - 1) as nat);
        if exists|i: int| 0 <= i < n && (#[trigger] given[i]).contains(c) {
            let i = choose|i: int| 0 <= i < n && (#[trigger] given[i]).contains(c);
            if i < n - 1 {
                assert(is_in_flight(before, c));
                let k = choose|k: int|
                    0 <= k < before.len() && (#[trigger] before[k]).chunks.contains(c);
                assert(r[k] == before[k]);
            } else {
                assert(r.last().chunks == given[i]);
                assert(r[r.len() - 1].chunks.contains(c));
            }
        }
        if is_in_flight(r, c) {
            let k = choose|k: int| 0 <= k < r.len() && (#[trigger] r[k]).chunks.contains(c);
            if k < before.len() {
                assert(r[k] == before[k]);
                assert(is_in_flight(before, c));
                let i = choose|i: int| 0 <= i < n - 1 && (#[trigger] given[i]).contains(c);
                assert(0 <= i < n && given[i].contains(c));
            } else {
                assert(given[n - 1].contains(c));
            }
        }
    }
}

/// Handing out work loses track of nothing.
pub proof fn law_dispatch_loses_nothing(v: SwarmView)
    requires
        nothing_lost(v),
    ensures
        nothing_lost(dispatched(v)),
{
    if v.idle.len() > 0 && v.plan.pending.len() > 0 {
        let r = dispatched(v);
        let given = handed_out(v);
        lemma_handed_len(offered(v.idle), STEAL_BATCH as nat, order_of(v.plan, offered(v.idle)));
        let fresh = new_tasks(v.idle, given, v.idle.len());
        assert forall|c: Digest| r.plan.chunks.contains(c) implies #[trigger] is_accounted(
            r,
            c,
        ) by {
            assert(is_accounted(v, c));
            lemma_new_tasks(v.idle, given, v.idle.len(), c);
            if v.plan.pending.contains(c) && !r.plan.pending.contains(c) {
                assert(is_given(given, c));
                let i = choose|i: int| 0 <= i < given.len() && (#[trigger] given[i]).contains(c);
                assert(0 <= i < v.idle.len() && given[i].contains(c));
                assert(is_in_flight(fresh, c));
                let k = choose|k: int|
                    0 <= k < fresh.len() && (#[trigger] fresh[k]).chunks.contains(c);
                assert(r.tasks[v.tasks.len() + k] == fresh[k]);
                assert(is_in_flight(r.tasks, c));
            }
            if is_in_flight(v.tasks, c) {
                let k = choose|k: int|
                    0 <= k < v.tasks.len() && (#[trigger] v.tasks[k]).chunks.contains(c);
                assert(r.tasks[k] == v.tasks[k]);
                assert(is_in_flight(r.tasks, c));
            }
        }
    }
}

proof fn lemma_in_flight_after(tasks: Seq<TaskView>, k: int, c: Digest)
    requires
        0 <= k < tasks.len(),
        is_in_flight(tasks, c),
    ensures
        is_in_flight(tasks.remove(k), c) || tasks[k].chunks.contains(c),
{
    let i = choose|i: int| 0 <= i < tasks.len() && (#[trigger] tasks[i]).chunks.contains(c);
    let r = tasks.remove(k);
    if i < k {
        assert(r[i] == tasks[i]);
    } else if i > k {
        assert(r[i - 1] == tasks[i]);
    }
}

/// Losing a provider loses track of no chunk.
pub proof fn law_lost_provider_loses_nothing(v: SwarmView, provider: usize)
    requires
        nothing_lost(v),
    ensures
        nothing_lost(lost(v, provider)),
{
    lemma_first(v.tasks, of_provider(provider));
    if let Some(k) = first(v.tasks, of_provider(provider)) {
        let r = lost(v, provider);
        assert forall|c: Digest| r.plan.chunks.contains(c) implies #[trigger] is_accounted(
            r,
            c,
        ) by {
            assert(is_accounted(v, c));
            if is_in_flight(v.tasks, c) {
                lemma_in_flight_after(v.tasks, k, c);
            }
        }
    }
}

/// Folding chunks in only adds to what is held, and holds what was fetched.
proof fn lemma_all_folded(
    v: PlanView,
    fetched: Seq<FetchedView>,
    digests: Seq<Digest>,
    c: Digest,
)
    requires
        digests.len() == fetched.len(),
        forall|i: int| 0 <= i < fetched.len() ==> (#[trigger] digests[i]) == fetched[i].name,
    ensures
        ({
            let r = all_folded(v, fetched, digests);
            &&& r.chunks == v.chunks
            &&& r.pending == v.pending
            &&& r.frontier == v.frontier
            &&& r.selection == v.selection
            &&& holds(v.have, c) ==> holds(r.have, c)
            &&& v.chunks.contains(c) && was_fetched(fetched, c) ==> holds(r.have, c)
        }),
    decreases fetched.len(),
{
    if fetched.len() > 0 {
        let rest = fetched.drop_last();
        let f = fetched.last();
        let front = digests.take(fetched.len() - 1);
        assert forall|i: int| 0 <= i < rest.len() implies (#[trigger] front[i])
            == rest[i].name by {
            assert(front[i] == digests[i]);
        }
        assert(digests[fetched.len() - 1] == f.name);
        lemma_all_folded(v, rest, front, c);
        let before = all_folded(v, rest, front);
        if folded(before, f.name, f.data, f.name).1 {
            law_put_is_held(before.have, f.name, f.data);
            if c != f.name {
                law_put_leaves_the_rest(before.have, f.name, f.data, c);
            }
        }
        if was_fetched(fetched, c) && c != f.name {
            let i = choose|i: int| 0 <= i < fetched.len() && (#[trigger] fetched[i]).name == c;
            assert(rest[i] == fetched[i]);
            assert(was_fetched(rest, c));
        }
    }
}

/// Delivering keeps what is held until it has been delivered for the last time.
proof fn lemma_all_delivered(v: PlanView, frees: bool, c: Digest)
    requires
        v.chunks.contains(c),
        holds(v.have, c) || is_played(v, c),
    ensures
        ({
            let r = all_delivered_from(v, frees).0;
            holds(r.have, c) || is_played(r, c)
        }),
    decreases v.chunks.len() - v.frontier,
{
    if can_deliver(v) {
        let next = delivered(v, frees);
        let x = v.chunks[v.frontier as int];
        if holds(v.have, c) {
            if next.have != v.have {
                if c == x {
                    assert(is_played(next, c)) by {
                        assert forall|j: int| 0 <= j < next.chunks.len()
                            && #[trigger] next.chunks[j] == c implies j < next.frontier by {}
                    }
                } else {
                    law_taken_leaves_the_rest(v.have, x, c);
                }
            }
        } else {
            assert(is_played(next, c));
        }
        lemma_all_delivered(next, frees, c);
    }
}

/// A chunk that was not fetched is among those that go back.
proof fn lemma_undelivered(chunks: Seq<Digest>, fetched: Seq<FetchedView>, c: Digest)
    requires
        chunks.contains(c),
        !was_fetched(fetched, c),
    ensures
        undelivered(chunks, fetched).contains(c),
    decreases chunks.len(),
{
    let rest = chunks.drop_last();
    let i = chunks.index_of(c);
    let front = undelivered(rest, fetched);
    if i < rest.len() {
        assert(rest[i] == c);
        lemma_undelivered(rest, fetched, c);
        lemma_push_contains(front, chunks.last(), c);
    } else {
        lemma_push_contains(front, c, c);
    }
}

/// A finished batch loses track of no chunk: each is held, delivered, or back in
/// the pool.
pub proof fn law_finished_batch_loses_nothing(
    v: SwarmView,
    provider: usize,
    fetched: Seq<FetchedView>,
    digests: Seq<Digest>,
    alive: bool,
)
    requires
        nothing_lost(v),
        digests.len() == fetched.len(),
        forall|i: int| 0 <= i < fetched.len() ==> (#[trigger] digests[i]) == fetched[i].name,
    ensures
        nothing_lost(finished(v, provider, fetched, digests, alive).0),
{
    lemma_first(v.tasks, of_provider(provider));
    if let Some(k) = first(v.tasks, of_provider(provider)) {
        let r = finished(v, provider, fetched, digests, alive).0;
        let task = v.tasks[k];
        let mid = all_folded(v.plan, fetched, digests);
        let end = all_delivered_from(mid, frees(v.plan)).0;
        law_delivery_is_in_order(mid, frees(v.plan));
        assert forall|c: Digest| r.plan.chunks.contains(c) implies #[trigger] is_accounted(
            r,
            c,
        ) by {
            lemma_all_folded(v.plan, fetched, digests, c);
            assert(is_accounted(v, c));
            if is_played(v.plan, c) {
                assert(is_played(mid, c));
            }
            if holds(mid.have, c) || is_played(mid, c) {
                lemma_all_delivered(mid, frees(v.plan), c);
                if is_played(end, c) {
                    assert(is_played(r.plan, c));
                }
            } else if is_in_flight(v.tasks, c) {
                lemma_in_flight_after(v.tasks, k, c);
                if task.chunks.contains(c) {
                    lemma_undelivered(task.chunks, fetched, c);
                }
            }
        }
    }
}

/// A download with nothing waiting and nothing being fetched, in which all that
/// can be has been delivered, has delivered everything.
pub proof fn law_download_ends_whole(v: SwarmView)
    requires
        nothing_lost(v),
        v.tasks.len() == 0,
        forall|c: Digest| !v.plan.pending.contains(c),
        !can_deliver(v.plan),
    ensures
        v.plan.frontier >= v.plan.chunks.len(),
{
    if v.plan.frontier < v.plan.chunks.len() {
        let c = v.plan.chunks[v.plan.frontier as int];
        assert(v.plan.chunks.contains(c));
        assert(is_accounted(v, c));
        if is_played(v.plan, c) {
            assert(v.plan.chunks[v.plan.frontier as int] == c);
        }
    }
}

/// Whether what was fetched is what its name says.
pub open spec fn is_verified(f: FetchedView) -> bool {
    blake3_digest(f.data) == f.name@
}

/// What a batch hands on is what its chunks' names say: bytes that hash to them.
pub proof fn law_fetched_is_verified(v: FetchView, data: Seq<u8>, digest: Digest)
    requires
        forall|i: int| 0 <= i < v.fetched.len() ==> is_verified(#[trigger] v.fetched[i]),
        digest@ == blake3_digest(data),
    ensures
        ({
            let r = chunk_taken(v, MessageView::Chunk { data }, digest);
            forall|i: int| 0 <= i < r.fetched.len() ==> is_verified(#[trigger] r.fetched[i])
        }),
{
    let r = chunk_taken(v, MessageView::Chunk { data }, digest);
    assert forall|i: int| 0 <= i < r.fetched.len() implies is_verified(#[trigger] r.fetched[i]) by {
        if i < v.fetched.len() {
            assert(r.fetched[i] == v.fetched[i]);
        }
    }
}

/// Whether every chunk held is what its name says.
pub open spec fn is_genuine(v: PlanView) -> bool {
    forall|i: int|
        0 <= i < v.have.len() ==> blake3_digest((#[trigger] v.have[i]).data) == v.have[i].name@
}

/// Whether every delivery is what the manifest names at its index.
pub open spec fn are_genuine(out: Seq<DeliveryView>, chunks: Seq<Digest>) -> bool {
    forall|i: int|
        0 <= i < out.len() ==> (#[trigger] out[i]).index < chunks.len() && blake3_digest(
            out[i].data,
        ) == chunks[out[i].index as int]@
}

proof fn lemma_folded_is_genuine(v: PlanView, fetched: Seq<FetchedView>, digests: Seq<Digest>)
    requires
        is_genuine(v),
        are_hashes(digests, fetched),
    ensures
        is_genuine(all_folded(v, fetched, digests)),
        all_folded(v, fetched, digests).chunks == v.chunks,
        all_folded(v, fetched, digests).frontier == v.frontier,
    decreases fetched.len(),
{
    if fetched.len() > 0 {
        let n = fetched.len() - 1;
        let rest = fetched.drop_last();
        let front = digests.take(n);
        assert forall|i: int| 0 <= i < rest.len() implies (#[trigger] front[i])@ == blake3_digest(
            rest[i].data,
        ) by {
            assert(front[i] == digests[i]);
        }
        lemma_folded_is_genuine(v, rest, front);
        let before = all_folded(v, rest, front);
        let f = fetched.last();
        let after = folded(before, f.name, f.data, digests[n]).0;
        assert(digests[n]@ == blake3_digest(f.data));
        if folded(before, f.name, f.data, digests[n]).1 {
            lemma_first(before.have, named(f.name));
            assert forall|i: int| 0 <= i < after.have.len() implies blake3_digest(
                (#[trigger] after.have[i]).data,
            ) == after.have[i].name@ by {
                if i < before.have.len() {
                    assert(before.have[i].name == before.have[i].name);
                }
            }
        }
    }
}

proof fn lemma_delivered_is_genuine(v: PlanView, frees: bool)
    requires
        is_genuine(v),
    ensures
        is_genuine(all_delivered_from(v, frees).0),
        are_genuine(all_delivered_from(v, frees).1, v.chunks),
    decreases v.chunks.len() - v.frontier,
{
    if can_deliver(v) {
        let next = delivered(v, frees);
        let x = v.chunks[v.frontier as int];
        assert(is_genuine(next)) by {
            lemma_first(v.have, named(x));
            assert forall|i: int| 0 <= i < next.have.len() implies blake3_digest(
                (#[trigger] next.have[i]).data,
            ) == next.have[i].name@ by {
                assert(next.have[i] == v.have[i] || next.have[i] == v.have[i + 1]);
            }
        }
        lemma_delivered_is_genuine(next, frees);
        let out = all_delivered_from(v, frees).1;
        let more = all_delivered_from(next, frees).1;
        lemma_first(v.have, named(x));
        assert forall|i: int| 0 <= i < out.len() implies (#[trigger] out[i]).index
            < v.chunks.len() && blake3_digest(out[i].data) == v.chunks[out[i].index as int]@ by {
            if i > 0 {
                assert(out[i] == more[i - 1]);
            }
        }
    }
}

/// What a swarm delivers is what the manifest names: if every chunk held hashes to
/// its name, so it does after a batch whose chunks were hashed, and every chunk
/// delivered hashes to its entry of the manifest, whatever the provider sent.
pub proof fn law_deliveries_are_genuine(
    v: SwarmView,
    provider: usize,
    fetched: Seq<FetchedView>,
    digests: Seq<Digest>,
    alive: bool,
)
    requires
        are_hashes(digests, fetched),
    ensures
        is_genuine(v.plan) ==> is_genuine(finished(v, provider, fetched, digests, alive).0.plan)
            && are_genuine(finished(v, provider, fetched, digests, alive).1, v.plan.chunks),
{
    if is_genuine(v.plan) {
        lemma_folded_is_genuine(v.plan, fetched, digests);
        let mid = all_folded(v.plan, fetched, digests);
        lemma_delivered_is_genuine(mid, frees(v.plan));
    }
}

/// A download starts with nothing held, so nothing that is not genuine.
pub proof fn law_genuine_at_first(v: PlanView)
    requires
        v.have.len() == 0,
    ensures
        is_genuine(v),
{
}

/// A provider's answer says of every chunk of the manifest whether the provider holds
/// it: whatever a server tells of its store, the client takes it to hold exactly the
/// chunks that are there.
pub proof fn law_holdings_are_understood(
    bits: Seq<u8>,
    store: Seq<StoredView>,
    chunks: Seq<Digest>,
    i: int,
)
    requires
        tells_holdings(bits, store, chunks),
        0 <= i < chunks.len(),
    ensures
        ({
            let h = haveset_answer(MessageView::Have { bits }, chunks);
            let is_there = exists|j: int|
                0 <= j < store.len() && (#[trigger] store[j]).name == chunks[i];
            &&& h matches HoldingsView::Known(set) && (set.contains(chunks[i]) <==> is_there)
            &&& might_serve(h, chunks[i]) <==> is_there
        }),
{
    lemma_first(store, named(chunks[i]));
    let is_there = exists|j: int| 0 <= j < store.len() && (#[trigger] store[j]).name == chunks[i];
    assert(is_there <==> holds(store, chunks[i])) by {
        if is_there {
            let j = choose|j: int| 0 <= j < store.len() && (#[trigger] store[j]).name == chunks[i];
            assert(named(chunks[i])(store[j]));
        }
    }
    let h = haveset_answer(MessageView::Have { bits }, chunks);
    assert(bit_at(bits, i) == holds(store, chunks[i]));
    if h->Known_0.contains(chunks[i]) {
        let k = choose|k: int|
            0 <= k < chunks.len() && #[trigger] chunks[k] == chunks[i] && bit_at(bits, k);
        assert(bit_at(bits, k) == holds(store, chunks[k]));
    }
}

/// A provider that answers too little to cover the manifest, or that it cannot say,
/// might hold any chunk; one that answers another question is relied on for none.
pub proof fn law_unclear_holdings(reply: MessageView, chunks: Seq<Digest>, c: Digest)
    ensures
        reply is Absent ==> might_serve(haveset_answer(reply, chunks), c) && !is_holder(
            haveset_answer(reply, chunks),
            c,
        ),
        reply matches MessageView::Have { bits } ==> (8 * bits.len() < chunks.len() ==> might_serve(
            haveset_answer(reply, chunks),
            c,
        ) && !is_holder(haveset_answer(reply, chunks), c)),
        !(reply is Absent) && !(reply is Have) ==> !might_serve(haveset_answer(reply, chunks), c),
        haveset_answer(reply, chunks) matches HoldingsView::Known(set) ==> (set.contains(c)
            ==> chunks.contains(c)),
{
    if let HoldingsView::Known(set) = haveset_answer(reply, chunks) {
        if set.contains(c) {
            if let MessageView::Have { bits } = reply {
                let k = choose|k: int|
                    0 <= k < chunks.len() && #[trigger] chunks[k] == c && bit_at(bits, k);
                assert(chunks[k] == c);
            }
        }
    }
}

/// A provider that did not respond is given up, both while the manifest is looked for
/// and when asked what it holds; one that answered, however wrongly, stays, and might
/// hold anything.
pub proof fn law_only_silent_providers_are_retired(e: TransferError, r: Reached)
    requires
        call_ensures(reached_by, (&e,), r),
    ensures
        r == Reached::Dead <==> e is Timeout || e is Io,
        r != Reached::Served,
{
}

/// The providers that a download goes on with are those that responded and those that
/// were not asked, each once.
pub proof fn law_responding_providers_stay(answers: Seq<Reached>, total: nat, i: usize)
    requires
        answers.len() <= total <= usize::MAX,
    ensures
        ({
            let live = kept_providers(answers, total) + untried(answers.len(), total);
            &&& live.contains(i) <==> i < total && (i < answers.len() ==> answers[i as int]
                != Reached::Dead)
            &&& live.no_duplicates()
        }),
{
    let a = kept_providers(answers, total);
    let b = untried(answers.len(), total);
    let live = a + b;
    lemma_kept_providers(answers, total);
    if i < total && i >= answers.len() {
        let m = i - answers.len();
        assert(b[m] == i);
        assert(live[a.len() + m] == i);
    }
    if i < answers.len() && answers[i as int] != Reached::Dead {
        assert(a.contains(i));
        let m = a.index_of(i);
        assert(live[m] == i);
    }
    if live.contains(i) {
        let m = live.index_of(i);
        if m < a.len() {
            assert(a[m] == i);
            assert(a.contains(i));
        } else {
            assert(b[m - a.len()] == i);
        }
    }
    assert forall|x: int, y: int| 0 <= x < live.len() && 0 <= y < live.len() && x != y implies live[x]
        != live[y] by {
        let (lo, hi) = if x < y {
            (x, y)
        } else {
            (y, x)
        };
        if hi < a.len() {
            assert(a[lo] < a[hi]);
        } else if lo < a.len() {
            assert(a.contains(a[lo]));
            assert(live[hi] == b[hi - a.len()]);
        } else {
            assert(live[lo] == b[lo - a.len()] && live[hi] == b[hi - a.len()]);
        }
    }
}

proof fn lemma_kept_providers(answers: Seq<Reached>, total: nat)
    requires
        answers.len() <= usize::MAX,
    ensures
        ({
            let a = kept_providers(answers, total);
            &&& forall|i: usize| #[trigger]
                a.contains(i) <==> i < answers.len() && answers[i as int] != Reached::Dead
            &&& forall|x: int, y: int| 0 <= x < y < a.len() ==> #[trigger] a[x] < #[trigger] a[y]
        }),
    decreases answers.len(),
{
    if answers.len() > 0 {
        let rest = answers.drop_last();
        let n = (answers.len() - 1) as usize;
        lemma_kept_providers(rest, total);
        let before = kept_providers(rest, total);
        let a = kept_providers(answers, total);
        assert forall|i: usize| #[trigger] a.contains(i) <==> i < answers.len() && answers[i as int]
            != Reached::Dead by {
            lemma_push_contains(before, n, i);
            if i < rest.len() {
                assert(rest[i as int] == answers[i as int]);
            }
        }
        assert forall|x: int, y: int| 0 <= x < y < a.len() implies #[trigger] a[x]
            < #[trigger] a[y] by {
            assert(a[x] == before[x]);
            if y < before.len() {
                assert(a[y] == before[y]);
            } else {
                assert(before.contains(before[x]));
            }
        }
    }
}

/// The search for a manifest goes on to the next provider until one serves it or none is
/// left.
pub proof fn law_search_ends_at_the_first_that_serves(answers: Seq<Reached>, total: nat, a: Reached)
    requires
        answers.len() < total,
    ensures
        search_goes_on(Seq::<Reached>::empty(), total),
        search_goes_on(answers.push(a), total) <==> a != Reached::Served && answers.len() + 1
            < total,
{
}

/// A manifest is taken only from an answer that carries one with the address asked for.
pub proof fn law_manifest_is_the_one_asked_for(id: Digest, reply: MessageView, digest: Digest)
    ensures
        manifest_answer(id, reply, digest) is Ok <==> reply is Manifest && digest == id,
        manifest_answer(id, reply, digest) matches Ok(chunks) ==> reply == MessageView::Manifest(
            chunks,
        ),
        reply is Manifest && digest != id ==> manifest_answer(id, reply, digest) == Err::<
            Seq<Digest>,
            SyncError,
        >(SyncError::BadManifest),
{
}

/// A chunk asked for that arrives as it should is fetched; anything else is not, and
/// either way the next one is asked for.
pub proof fn law_asked_chunk_is_fetched(v: FetchView, reply: MessageView, digest: Digest)
    requires
        v.next < v.wanted.len(),
    ensures
        ({
            let r = chunk_taken(v, reply, digest);
            let name = v.wanted[v.next as int];
            &&& r.next == v.next + 1
            &&& r.wanted == v.wanted
            &&& r.alive == v.alive
            &&& if reply is Chunk && digest == name {
                r.fetched == v.fetched.push(FetchedView { name, data: reply->Chunk_data })
            } else {
                r.fetched == v.fetched
            }
        }),
{
}

proof fn lemma_after_refusals(h: HoldingsView, chunks: Seq<Digest>, c: Digest)
    ensures
        might_serve(after_refusals(h, chunks), c) == (might_serve(h, c) && !chunks.contains(c)),
    decreases chunks.len(),
{
    if chunks.len() > 0 {
        let rest = chunks.drop_last();
        lemma_after_refusals(h, rest, c);
        lemma_push_contains(rest, chunks.last(), c);
        assert(chunks =~= rest.push(chunks.last()));
    }
}

proof fn lemma_undelivered_exactly(chunks: Seq<Digest>, fetched: Seq<FetchedView>, c: Digest)
    ensures
        undelivered(chunks, fetched).contains(c) <==> chunks.contains(c) && !was_fetched(
            fetched,
            c,
        ),
    decreases chunks.len(),
{
    if chunks.len() > 0 {
        let rest = chunks.drop_last();
        lemma_undelivered_exactly(rest, fetched, c);
        lemma_push_contains(rest, chunks.last(), c);
        lemma_push_contains(undelivered(rest, fetched), chunks.last(), c);
        assert(chunks =~= rest.push(chunks.last()));
    }
}

/// A provider whose batch ends comes back for more if it is still usable, and is not
/// offered again what it was asked for and did not send; what it can serve otherwise
/// stays as it was. One that is not usable does not come back.
pub proof fn law_provider_comes_back_without_what_it_lacked(
    v: SwarmView,
    provider: usize,
    fetched: Seq<FetchedView>,
    digests: Seq<Digest>,
    alive: bool,
    k: int,
    c: Digest,
)
    requires
        0 <= k < v.tasks.len(),
        v.tasks[k].provider == provider,
        forall|j: int| 0 <= j < k ==> (#[trigger] v.tasks[j]).provider != provider,
    ensures
        ({
            let r = finished(v, provider, fetched, digests, alive).0;
            let sent = exists|i: int|
                0 <= i < fetched.len() && (#[trigger] fetched[i]).name == c;
            &&& r.tasks == v.tasks.remove(k)
            &&& !alive ==> r.idle == v.idle
            &&& alive ==> r.idle.drop_last() == v.idle && r.idle.last().provider == provider && (
            might_serve(r.idle.last().holds, c) <==> might_serve(v.tasks[k].holds, c) && !(
            v.tasks[k].chunks.contains(c) && !sent))
        }),
{
    assert forall|j: int| 0 <= j < k implies !of_provider(provider)(#[trigger] v.tasks[j]) by {}
    lemma_first_at(v.tasks, of_provider(provider), k);
    let rest = undelivered(v.tasks[k].chunks, fetched);
    lemma_undelivered_exactly(v.tasks[k].chunks, fetched, c);
    lemma_after_refusals(v.tasks[k].holds, rest, c);
    let r = finished(v, provider, fetched, digests, alive).0;
    if alive {
        assert(r.idle.drop_last() =~= v.idle);
    }
}

proof fn lemma_task_of(idle: Seq<IdleView>, given: Seq<Seq<Digest>>, n: nat, t: TaskView)
    requires
        n <= idle.len(),
        n <= given.len(),
        new_tasks(idle, given, n).contains(t),
    ensures
        exists|i: int|
            0 <= i < n && (#[trigger] idle[i]).provider == t.provider && idle[i].holds == t.holds
                && given[i] == t.chunks && given[i].len() > 0,
    decreases n,
{
    if n > 0 {
        let before = new_tasks(idle, given, (n - 1) as nat);
        if before.contains(t) {
            lemma_task_of(idle, given, (n - 1) as nat, t);
            let i = choose|i: int|
                0 <= i < n - 1 && (#[trigger] idle[i]).provider == t.provider && idle[i].holds
                    == t.holds && given[i] == t.chunks && given[i].len() > 0;
            assert(idle[i].provider == t.provider);
        } else {
            lemma_push_contains(
                before,
                TaskView {
                    provider: idle[n - 1].provider,
                    holds: idle[n - 1].holds,
                    chunks: given[n - 1],
                },
                t,
            );
            assert(idle[n - 1].provider == t.provider);
        }
    }
}

/// Every batch handed out goes to a provider that was idle, is not empty nor larger than
/// a batch may be, and holds only pending chunks that this provider might serve.
pub proof fn law_batch_fits_its_provider(v: SwarmView, b: int, c: Digest)
    requires
        is_order(v.plan, offered(v.idle), order_of(v.plan, offered(v.idle))),
        0 <= b < batches(v).len(),
    ensures
        ({
            let t = batches(v)[b];
            &&& 0 < t.chunks.len() <= STEAL_BATCH
            &&& exists|i: int|
                0 <= i < v.idle.len() && (#[trigger] v.idle[i]).provider == t.provider && (
                t.chunks.contains(c) ==> v.plan.pending.contains(c) && might_serve(
                    v.idle[i].holds,
                    c,
                ))
        }),
{
    let offers = offered(v.idle);
    let order = order_of(v.plan, offers);
    let given = handed_out(v);
    let t = batches(v)[b];
    law_order_has_no_repeats(v.plan, offers, order);
    law_assignment_is_sound(offers, STEAL_BATCH as nat, order);
    assert(batches(v).contains(t));
    lemma_task_of(v.idle, given, v.idle.len(), t);
    let i = choose|i: int|
        0 <= i < v.idle.len() && (#[trigger] v.idle[i]).provider == t.provider && v.idle[i].holds
            == t.holds && given[i] == t.chunks && given[i].len() > 0;
    assert(v.idle[i].provider == t.provider);
    if t.chunks.contains(c) {
        assert(given[i].contains(c));
        assert(order.contains(c));
        assert(eligible(v.plan, c));
    }
}

/// A provider that cannot be reached is out; one that is reached but does not tell what it
/// holds may hold anything.
pub proof fn law_unreached_provider_is_out(e: TransferError, r: Option<Holdings>)
    requires
        call_ensures(haveset_failed, (&e,), r),
    ensures
        r is None <==> e is Timeout || e is Io,
        r matches Some(h) ==> forall|chunk: Digest| #[trigger] might_serve(h@, chunk),
{
}

/// A stream ends well exactly if every chunk was delivered, a search exactly if somebody
/// had the manifest; and a stream looks at least one chunk ahead.
pub proof fn law_transfer_ends_well_if_all_came(
    plan: Plan,
    manifest: Option<Manifest>,
    window: usize,
    streamed: Result<(), TransferError>,
    searched: Result<Manifest, TransferError>,
    ahead: usize,
)
    requires
        call_ensures(stream_result, (&plan,), streamed),
        call_ensures(search_result, (manifest,), searched),
        call_ensures(stream_window, (window,), ahead),
    ensures
        streamed is Ok <==> plan@.frontier >= plan@.chunks.len(),
        streamed matches Err(e) ==> e == TransferError::Incomplete,
        match manifest {
            Some(m) => searched == Ok::<Manifest, TransferError>(m),
            None => searched == Err::<Manifest, TransferError>(TransferError::Incomplete),
        },
        ahead >= 1,
        window >= 1 ==> ahead == window,
{
}

proof fn lemma_idle_or_given(idle: Seq<IdleView>, given: Seq<Seq<Digest>>, n: nat, i: int)
    requires
        n <= idle.len(),
        0 <= i < n,
    ensures
        still_idle(idle, given, n).contains(idle[i]) || exists|k: int|
            0 <= k < new_tasks(idle, given, n).len() && (#[trigger] new_tasks(
                idle,
                given,
                n,
            )[k]).provider == idle[i].provider && new_tasks(idle, given, n)[k].holds
                == idle[i].holds,
    decreases n,
{
    let m = (n - 1) as nat;
    let waiting = still_idle(idle, given, m);
    let tasks = new_tasks(idle, given, m);
    if i < m {
        lemma_idle_or_given(idle, given, m, i);
        if waiting.contains(idle[i]) {
            lemma_push_contains(waiting, idle[n - 1], idle[i]);
        } else {
            let k = choose|k: int|
                0 <= k < tasks.len() && (#[trigger] tasks[k]).provider == idle[i].provider
                    && tasks[k].holds == idle[i].holds;
            assert(new_tasks(idle, given, n)[k] == tasks[k]);
        }
    } else if given[n - 1].len() == 0 {
        lemma_push_contains(waiting, idle[n - 1], idle[n - 1]);
    } else {
        assert(new_tasks(idle, given, n)[tasks.len() as int].provider == idle[i].provider);
    }
}

/// No provider is lost by handing chunks out: one that was idle still is, or is at work, and
/// one at work goes on.
pub proof fn law_dispatch_loses_no_provider(v: SwarmView, i: int, k: int)
    ensures
        0 <= i < v.idle.len() ==> dispatched(v).idle.contains(v.idle[i]) || exists|t: int|
            0 <= t < dispatched(v).tasks.len() && (#[trigger] dispatched(v).tasks[t]).provider
                == v.idle[i].provider && dispatched(v).tasks[t].holds == v.idle[i].holds,
        0 <= k < v.tasks.len() ==> dispatched(v).tasks.contains(v.tasks[k]),
{
    let r = dispatched(v);
    if v.idle.len() == 0 || v.plan.pending.len() == 0 {
    } else {
        let given = handed_out(v);
        let more = new_tasks(v.idle, given, v.idle.len());
        if 0 <= i < v.idle.len() {
            lemma_idle_or_given(v.idle, given, v.idle.len(), i);
            if !r.idle.contains(v.idle[i]) {
                let t = choose|t: int|
                    0 <= t < more.len() && (#[trigger] more[t]).provider == v.idle[i].provider
                        && more[t].holds == v.idle[i].holds;
                assert(r.tasks[v.tasks.len() + t] == more[t]);
            }
        }
        if 0 <= k < v.tasks.len() {
            assert(r.tasks[k] == v.tasks[k]);
        }
    }
}

/// A provider that ends its batch, or is lost, takes no other with it: the rest stay idle or
/// at work as they were.
pub proof fn law_others_go_on(
    v: SwarmView,
    provider: usize,
    fetched: Seq<FetchedView>,
    digests: Seq<Digest>,
    alive: bool,
    i: int,
    k: int,
)
    ensures
        0 <= i < v.idle.len() ==> finished(v, provider, fetched, digests, alive).0.idle.contains(
            v.idle[i],
        ) && lost(v, provider).idle.contains(v.idle[i]),
        0 <= k < v.tasks.len() && v.tasks[k].provider != provider ==> finished(
            v,
            provider,
            fetched,
            digests,
            alive,
        ).0.tasks.contains(v.tasks[k]) && lost(v, provider).tasks.contains(v.tasks[k]),
{
    let f = finished(v, provider, fetched, digests, alive).0;
    let l = lost(v, provider);
    lemma_first(v.tasks, of_provider(provider));
    if 0 <= i < v.idle.len() {
        assert(f.idle[i] == v.idle[i]);
        assert(l.idle[i] == v.idle[i]);
    }
    if 0 <= k < v.tasks.len() && v.tasks[k].provider != provider {
        if let Some(m) = first(v.tasks, of_provider(provider)) {
            let at = if k < m {
                k
            } else {
                k - 1
            };
            assert(f.tasks[at] == v.tasks[k]);
            assert(l.tasks[at] == v.tasks[k]);
        }
    }
}

} // verus!
