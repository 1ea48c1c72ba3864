//! The blob sync: a manifest for a known content address, then each distinct
//! chunk, every one verified by its hash.
use crate::blob::{
    assembled, blob_id, held, holds, law_assembled_iff_all_held, law_put_is_held,
    law_put_leaves_the_rest, law_what_a_store_holds, named, put_in, read_manifest, Manifest, Store,
    StoredView,
};
use crate::bytes::{array_of, copy_of, lemma_array_of, same_array};
use crate::crypto::{blake3_digest, hash, Digest};
use crate::lists::{lemma_first, lemma_push_contains};
use crate::sync_msg::{Message, MessageView, SyncError};
use std::collections::VecDeque;
use vstd::prelude::*;

verus! {

/// Whether the `i`-th bit of a bitfield is set, least significant first.
pub open spec fn bit_at(bits: Seq<u8>, i: int) -> bool {
    bits[i / 8] & (1u8 << ((i % 8) as u8)) != 0
}

/// Whether a bitfield says exactly which chunks a store holds.
pub open spec fn tells_holdings(bits: Seq<u8>, s: Seq<StoredView>, chunks: Seq<Digest>) -> bool {
    &&& bits.len() == (chunks.len() + 7) / 8
    &&& forall|i: int|
        0 <= i < 8 * bits.len() ==> #[trigger] bit_at(bits, i) == (i < chunks.len() && holds(
            s,
            chunks[i],
        ))
}

/// The manifest a store holds under an id, if it holds one.
pub open spec fn manifest_in(s: Seq<StoredView>, id: Digest) -> Option<Seq<Digest>> {
    if holds(s, id) {
        match read_manifest(held(s, id)) {
            Ok(m) => Some(m),
            Err(_) => None,
        }
    } else {
        None
    }
}

/// Whether a message is a blob server's answer.
pub open spec fn is_blob_answer(request: MessageView, s: Seq<StoredView>, answer: MessageView) -> bool {
    match request {
        MessageView::GetManifest { id } => match manifest_in(s, id) {
            Some(m) => answer == MessageView::Manifest(m),
            None => answer == MessageView::Absent,
        },
        MessageView::GetChunk { hash } => if holds(s, hash) {
            answer == (MessageView::Chunk { data: held(s, hash) })
        } else {
            answer == MessageView::Absent
        },
        MessageView::GetHave { id } => match manifest_in(s, id) {
            Some(m) => answer matches MessageView::Have { bits } && tells_holdings(bits, s, m),
            None => answer == MessageView::Absent,
        },
        _ => answer == MessageView::Absent,
    }
}

proof fn lemma_set_bit(b: u8, j: u8, k: u8)
    by (bit_vector)
    requires
        j < 8,
        k < 8,
    ensures
        (b | (1u8 << k)) & (1u8 << j) != 0 <==> (j == k || b & (1u8 << j) != 0),
        0u8 & (1u8 << j) == 0,
{
}

/// The holdings of a store as a bitfield over a manifest's chunks.
fn holdings(store: &Store, chunks: &Vec<Digest>) -> (bits: Vec<u8>)
    ensures
        tells_holdings(bits@, store@, chunks@),
{
    let n: usize = chunks.len();
    let size: usize = if n % 8 == 0 {
        n / 8
    } else {
        n / 8 + 1
    };
    let mut bits: Vec<u8> = Vec::new();
    let mut b: usize = 0;
    while b < size
        invariant
            b <= size,
            bits@.len() == b,
            forall|k: int| 0 <= k < b ==> #[trigger] bits@[k] == 0u8,
        decreases size - b,
    {
        bits.push(0u8);
        b += 1;
    }
    proof {
        assert forall|i: int| 0 <= i < 8 * bits@.len() implies !#[trigger] bit_at(bits@, i) by {
            lemma_set_bit(0, (i % 8) as u8, 0);
            assert(bits@[i / 8] == 0u8);
        }
    }
    let mut i: usize = 0;
    while i < n
        invariant
            i <= n,
            n == chunks.len(),
            bits@.len() == size,
            size == (n + 7) / 8,
            forall|j: int|
                0 <= j < 8 * bits@.len() ==> #[trigger] bit_at(bits@, j) == (j < i && holds(
                    store@,
                    chunks@[j],
                )),
        decreases n - i,
    {
        if store.has(&chunks[i]) {
            let at: usize = i / 8;
            let k: u8 = (i % 8) as u8;
            let ghost before = bits@;
            bits.set(at, bits[at] | (1u8 << k));
            proof {
                assert forall|j: int| 0 <= j < 8 * bits@.len() implies #[trigger] bit_at(bits@, j)
                    == (j < i + 1 && holds(store@, chunks@[j])) by {
                    assert(bit_at(before, j) == (j < i && holds(store@, chunks@[j])));
                    if j / 8 == at {
                        lemma_set_bit(before[at as int], (j % 8) as u8, k);
                        assert((j % 8) as u8 == k <==> j == i);
                    } else {
                        assert(j != i);
                    }
                }
            }
        }
        i += 1;
    }
    bits
}

/// Answer a blob sync request from a local store. The store must hold the
/// manifest under its own content address for it to be found. Anything the store
/// lacks, and whatever is no blob request, gets [`Message::Absent`].
pub fn serve_blob(request: &Message, store: &Store) -> (r: Message)
    ensures
        is_blob_answer(request@, store@, r@),
{
    match request {
        Message::GetManifest { id } => match stored_manifest(store, id) {
            Some(manifest) => Message::Manifest(manifest),
            None => Message::Absent,
        },
        Message::GetChunk { hash } => match store.get(hash) {
            Some(data) => Message::Chunk { data: copy_of(data.as_slice()) },
            None => Message::Absent,
        },
        Message::GetHave { id } => match stored_manifest(store, id) {
            Some(manifest) => Message::Have { bits: holdings(store, &manifest.chunks) },
            None => Message::Absent,
        },
        _ => Message::Absent,
    }
}

fn stored_manifest(store: &Store, id: &Digest) -> (r: Option<Manifest>)
    ensures
        match manifest_in(store@, *id) {
            Some(m) => r is Some && r->Some_0@ == m,
            None => r is None,
        },
{
    match store.get(id) {
        Some(data) => match Manifest::decode(data.as_slice()) {
            Ok(m) => Some(m),
            Err(_) => None,
        },
        None => None,
    }
}

/// The distinct elements of a list, in the order they are first seen.
pub open spec fn distinct(s: Seq<Digest>) -> Seq<Digest>
    decreases s.len(),
{
    if s.len() == 0 {
        Seq::empty()
    } else {
        let front = distinct(s.drop_last());
        if front.contains(s.last()) {
            front
        } else {
            front.push(s.last())
        }
    }
}

/// What is still to be fetched: a queue without the chunks at its front that
/// are held.
pub open spec fn still_open(queue: Seq<Digest>, store: Seq<StoredView>) -> Seq<Digest>
    decreases queue.len(),
{
    if queue.len() > 0 && holds(store, queue[0]) {
        still_open(queue.skip(1), store)
    } else {
        queue
    }
}

/// A [`BlobDownload`] as a mathematical value.
#[verifier::ext_equal]
pub struct BlobView {
    /// The content address.
    pub id: Digest,
    /// The verified manifest, once there is one.
    pub manifest: Option<Seq<Digest>>,
    /// The distinct chunks still to fetch, in request order.
    pub queue: Seq<Digest>,
    /// The verified chunks received so far.
    pub store: Seq<StoredView>,
}

/// The next request of a blob download: the manifest first, then each missing
/// chunk.
pub open spec fn blob_polled(v: BlobView) -> (BlobView, Option<MessageView>) {
    if v.manifest is None {
        (v, Some(MessageView::GetManifest { id: v.id }))
    } else {
        let queue = still_open(v.queue, v.store);
        (
            BlobView { queue, ..v },
            if queue.len() > 0 {
                Some(MessageView::GetChunk { hash: queue[0] })
            } else {
                None
            },
        )
    }
}

/// A response taken in by a blob download, given the hash of what it carries.
pub open spec fn blob_handled(v: BlobView, m: MessageView, digest: Digest) -> (
    BlobView,
    Result<(), SyncError>,
) {
    match m {
        MessageView::Manifest(chunks) => if v.manifest is Some {
            (v, Ok(()))
        } else if digest != v.id {
            (v, Err(SyncError::BadManifest))
        } else {
            (BlobView { manifest: Some(chunks), queue: distinct(chunks), ..v }, Ok(()))
        },
        MessageView::Chunk { data } => match v.manifest {
            None => (v, Err(SyncError::Unsolicited)),
            Some(chunks) => if !chunks.contains(digest) {
                (v, Err(SyncError::BadChunk))
            } else if holds(v.store, digest) {
                (v, Ok(()))
            } else {
                (BlobView { store: put_in(v.store, digest, data), ..v }, Ok(()))
            },
        },
        MessageView::Absent => (v, Err(SyncError::Absent)),
        _ => (v, Err(SyncError::Unexpected)),
    }
}

/// The hash of what a response carries.
pub open spec fn carried_digest(m: MessageView) -> Digest {
    match m {
        MessageView::Manifest(chunks) => array_of::<32>(blob_id(chunks)),
        MessageView::Chunk { data } => array_of::<32>(blake3_digest(data)),
        _ => array_of::<32>(Seq::empty()),
    }
}

/// Whether the manifest and all its chunks have been received.
pub open spec fn blob_complete(v: BlobView) -> bool {
    match v.manifest {
        Some(chunks) => forall|i: int|
            0 <= i < chunks.len() ==> holds(v.store, #[trigger] chunks[i]),
        None => false,
    }
}

fn has_digest(s: &Vec<Digest>, d: &Digest) -> (r: bool)
    ensures
        r == s@.contains(*d),
{
    let mut i: usize = 0;
    while i < s.len()
        invariant
            i <= s.len(),
            forall|j: int| 0 <= j < i ==> #[trigger] s@[j] != *d,
        decreases s.len() - i,
    {
        if same_array(&s[i], d) {
            assert(s@[i as int] == *d);
            return true;
        }
        i += 1;
    }
    false
}

/// The distinct elements of a list, in the order they are first seen.
pub fn distinct_of(s: &Vec<Digest>) -> (r: Vec<Digest>)
    ensures
        r@ == distinct(s@),
{
    let mut r: Vec<Digest> = Vec::new();
    let mut i: usize = 0;
    while i < s.len()
        invariant
            i <= s.len(),
            r@ == distinct(s@.take(i as int)),
        decreases s.len() - i,
    {
        proof {
            assert(s@.take(i + 1).drop_last() =~= s@.take(i as int));
            assert(s@.take(i + 1).last() == s@[i as int]);
        }
        if !has_digest(&r, &s[i]) {
            r.push(s[i]);
        }
        i += 1;
    }
    assert(s@.take(s@.len() as int) =~= s@);
    r
}

/// The client side of a blob download. Drive it by alternating
/// [`BlobDownload::poll_request`] and [`BlobDownload::handle_response`].
pub struct BlobDownload {
    id: Digest,
    manifest: Option<Manifest>,
    queue: VecDeque<Digest>,
    store: Store,
}

impl View for BlobDownload {
    type V = BlobView;

    closed spec fn view(&self) -> BlobView {
        BlobView {
            id: self.id,
            manifest: match self.manifest {
                Some(m) => Some(m@),
                None => None,
            },
            queue: self.queue@,
            store: self.store@,
        }
    }
}

/// A download that has asked for nothing yet.
pub open spec fn fresh_blob(id: Digest) -> BlobView {
    BlobView { id, manifest: None, queue: Seq::empty(), store: Seq::empty() }
}

impl BlobDownload {
    /// Begin downloading the blob with content address `id`.
    pub fn new(id: Digest) -> (r: Self)
        ensures
            r@ == fresh_blob(id),
    {
        BlobDownload { id, manifest: None, queue: VecDeque::new(), store: Store::new() }
    }

    /// The next request to send, or `None` when the download is complete.
    /// Requests the manifest first, then each missing chunk.
    pub fn poll_request(&mut self) -> (r: Option<Message>)
        ensures
            final(self)@ == blob_polled(old(self)@).0,
            match blob_polled(old(self)@).1 {
                Some(m) => r is Some && r->Some_0@ == m,
                None => r is None,
            },
    {
        if self.manifest.is_none() {
            return Some(Message::GetManifest { id: self.id });
        }
        while self.queue.len() > 0 && self.store.has(&self.queue[0])
            invariant
                self.id == old(self).id,
                self.manifest == old(self).manifest,
                self.store == old(self).store,
                still_open(self.queue@, self.store@) == still_open(
                    old(self).queue@,
                    old(self).store@,
                ),
            decreases self.queue@.len(),
        {
            let ghost q = self.queue@;
            let _ = self.queue.pop_front();
            assert(self.queue@ =~= q.skip(1));
        }
        if self.queue.len() > 0 {
            Some(Message::GetChunk { hash: self.queue[0] })
        } else {
            None
        }
    }

    /// Verify and fold in a response. A chunk is trusted iff its hash belongs to
    /// the manifest, so any chunk of the blob is progress. The first manifest
    /// wins, and a chunk that is already held changes nothing.
    pub fn handle_response(&mut self, response: &Message) -> (r: Result<(), SyncError>)
        ensures
            (final(self)@, r) == blob_handled(old(self)@, response@, carried_digest(response@)),
    {
        let digest: Digest = match response {
            Message::Manifest(manifest) => {
                let d: Digest = manifest.id();
                proof {
                    lemma_array_of(d);
                }
                d
            },
            Message::Chunk { data } => {
                let d: Digest = hash(data.as_slice());
                proof {
                    lemma_array_of(d);
                }
                d
            },
            _ => self.id,
        };
        self.fold(response, digest)
    }

    /// Fold in a response, given the hash of what it carries.
    pub fn fold(&mut self, response: &Message, digest: Digest) -> (r: Result<(), SyncError>)
        ensures
            (final(self)@, r) == blob_handled(old(self)@, response@, digest),
    {
        match response {
            Message::Manifest(manifest) => {
                if self.manifest.is_some() {
                    return Ok(());
                }
                if !same_array(&digest, &self.id) {
                    return Err(SyncError::BadManifest);
                }
                let list: Vec<Digest> = distinct_of(&manifest.chunks);
                let mut queue: VecDeque<Digest> = VecDeque::new();
                let mut i: usize = 0;
                assert(queue@ =~= list@.take(0));
                while i < list.len()
                    invariant
                        i <= list.len(),
                        queue@ == list@.take(i as int),
                    decreases list.len() - i,
                {
                    queue.push_back(list[i]);
                    assert(queue@ =~= list@.take(i + 1));
                    i += 1;
                }
                assert(list@.take(list@.len() as int) =~= list@);
                self.queue = queue;
                self.manifest = Some(manifest.copy());
                Ok(())
            },
            Message::Chunk { data } => {
                let known: bool = match &self.manifest {
                    Some(m) => has_digest(&m.chunks, &digest),
                    None => {
                        return Err(SyncError::Unsolicited);
                    },
                };
                if !known {
                    return Err(SyncError::BadChunk);
                }
                if !self.store.has(&digest) {
                    self.store.put_hashed(digest, copy_of(data.as_slice()));
                }
                Ok(())
            },
            Message::Absent => Err(SyncError::Absent),
            _ => Err(SyncError::Unexpected),
        }
    }

    /// The verified manifest, once received.
    pub fn manifest(&self) -> (r: Option<&Manifest>)
        ensures
            match r {
                Some(m) => self@.manifest == Some(m@),
                None => self@.manifest is None,
            },
    {
        match &self.manifest {
            Some(m) => Some(m),
            None => None,
        }
    }

    /// Whether the manifest and all its chunks have been received and verified.
    pub fn is_complete(&self) -> (r: bool)
        ensures
            r == blob_complete(self@),
    {
        match &self.manifest {
            Some(m) => {
                let mut i: usize = 0;
                while i < m.chunks.len()
                    invariant
                        i <= m.chunks.len(),
                        self@.manifest == Some(m@),
                        forall|j: int| 0 <= j < i ==> holds(self@.store, #[trigger] m@[j]),
                    decreases m.chunks.len() - i,
                {
                    if !self.store.has(&m.chunks[i]) {
                        let ghost chunks = self@.manifest->Some_0;
                        assert(!holds(self@.store, chunks[i as int]));
                        assert(i < chunks.len());
                        return false;
                    }
                    i += 1;
                }
                true
            },
            None => false,
        }
    }

    /// The downloaded blob, or `None` if not yet complete.
    pub fn reassemble(&self) -> (r: Option<Vec<u8>>)
        ensures
            match self@.manifest {
                Some(chunks) => match assembled(self@.store, chunks) {
                    Some(data) => r is Some && r->Some_0@ == data,
                    None => r is None,
                },
                None => r is None,
            },
            r is Some <==> blob_complete(self@),
    {
        match &self.manifest {
            Some(m) => {
                proof {
                    law_assembled_iff_all_held(self@.store, m@);
                }
                self.store.reassemble(m)
            },
            None => None,
        }
    }
}

/// What holds of every blob download: the manifest has the address asked for as
/// its hash, every chunk held is named by the manifest, and every chunk held has
/// its name as its hash.
pub open spec fn all_verified(v: BlobView) -> bool {
    &&& match v.manifest {
        Some(chunks) => array_of::<32>(blob_id(chunks)) == v.id && forall|i: int|
            0 <= i < v.store.len() ==> chunks.contains((#[trigger] v.store[i]).name),
        None => v.store.len() == 0,
    }
    &&& forall|i: int|
        0 <= i < v.store.len() ==> (#[trigger] v.store[i]).name == array_of::<32>(
            blake3_digest(v.store[i].data),
        )
}

/// Nothing that does not verify is ever accepted, whatever a peer sends.
pub proof fn law_blob_takes_only_what_verifies(v: BlobView, m: MessageView)
    requires
        all_verified(v),
    ensures
        all_verified(blob_handled(v, m, carried_digest(m)).0),
        all_verified(blob_polled(v).0),
{
    let d = carried_digest(m);
    if let MessageView::Chunk { data } = m {
        if let Some(chunks) = v.manifest {
            if chunks.contains(d) && !holds(v.store, d) {
                let r = put_in(v.store, d, data);
                assert(r == v.store.push(StoredView { name: d, data }));
                assert forall|i: int| 0 <= i < r.len() implies (#[trigger] r[i]).name
                    == array_of::<32>(blake3_digest(r[i].data)) && chunks.contains(
                    r[i].name,
                ) by {
                    if i < v.store.len() {
                        assert(r[i] == v.store[i]);
                    }
                }
            }
        }
    }
}

/// A blob that is put together is made of chunks that have the hashes its
/// manifest names, in the manifest's order.
pub proof fn law_reassembled_is_verified(v: BlobView, i: int)
    requires
        all_verified(v),
        blob_complete(v),
        0 <= i < v.manifest->Some_0.len(),
    ensures
        assembled(v.store, v.manifest->Some_0) is Some,
        array_of::<32>(blake3_digest(held(v.store, v.manifest->Some_0[i])))
            == v.manifest->Some_0[i],
{
    let chunks = v.manifest->Some_0;
    law_assembled_iff_all_held(v.store, chunks);
    assert(holds(v.store, chunks[i]));
    lemma_first(v.store, named(chunks[i]));
}

/// Each chunk is fetched once: the distinct chunks of a manifest are those of
/// the manifest, and none of them twice.
pub proof fn law_distinct(s: Seq<Digest>)
    ensures
        forall|x: Digest| #[trigger] distinct(s).contains(x) <==> s.contains(x),
        distinct(s).no_duplicates(),
        distinct(s).len() <= s.len(),
    decreases s.len(),
{
    if s.len() > 0 {
        let rest = s.drop_last();
        law_distinct(rest);
        let front = distinct(rest);
        assert(s =~= rest.push(s.last()));
        assert forall|x: Digest| #[trigger] distinct(s).contains(x) <==> s.contains(x) by {
            lemma_push_contains(rest, s.last(), x);
            lemma_push_contains(front, s.last(), x);
            assert(front.contains(x) <==> rest.contains(x));
        }
    }
}

/// Syncing a chunk from an honest server: a chunk that has the hash asked for is
/// taken, and the download then holds the server's bytes.
pub proof fn law_honest_chunk_is_taken(v: BlobView, data: Seq<u8>)
    requires
        v.manifest is Some,
        v.manifest->Some_0.contains(carried_digest(MessageView::Chunk { data })),
        !holds(v.store, carried_digest(MessageView::Chunk { data })),
    ensures
        ({
            let m = MessageView::Chunk { data };
            let (r, result) = blob_handled(v, m, carried_digest(m));
            &&& result is Ok
            &&& holds(r.store, carried_digest(m))
            &&& held(r.store, carried_digest(m)) == data
        }),
{
    law_put_is_held(v.store, carried_digest(MessageView::Chunk { data }), data);
}

/// One round of a download against a server.
pub open spec fn blob_round(v: BlobView, server: Seq<StoredView>) -> BlobView {
    let (v1, request) = blob_polled(v);
    match request {
        Some(MessageView::GetManifest { id }) => match manifest_in(server, id) {
            Some(m) => {
                let answer = MessageView::Manifest(m);
                blob_handled(v1, answer, carried_digest(answer)).0
            },
            None => v1,
        },
        Some(MessageView::GetChunk { hash }) => if holds(server, hash) {
            let answer = MessageView::Chunk { data: held(server, hash) };
            blob_handled(v1, answer, carried_digest(answer)).0
        } else {
            v1
        },
        _ => v1,
    }
}

/// Rounds of a download, one after the other.
pub open spec fn blob_rounds(v: BlobView, server: Seq<StoredView>, n: nat) -> BlobView
    decreases n,
{
    if n == 0 {
        v
    } else {
        blob_round(blob_rounds(v, server, (n - 1) as nat), server)
    }
}

/// Whether a server holds a blob: its manifest under its id, and each of its
/// chunks under its hash.
pub open spec fn serves_blob(server: Seq<StoredView>, id: Digest, chunks: Seq<Digest>) -> bool {
    &&& manifest_in(server, id) == Some(chunks)
    &&& array_of::<32>(blob_id(chunks)) == id
    &&& forall|i: int|
        0 <= i < chunks.len() ==> holds(server, #[trigger] chunks[i]) && array_of::<32>(
            blake3_digest(held(server, chunks[i])),
        ) == chunks[i]
}

proof fn lemma_still_open(list: Seq<Digest>, j: int, k: int, store: Seq<StoredView>)
    requires
        0 <= j <= k <= list.len(),
        forall|i: int| j <= i < k ==> holds(store, #[trigger] list[i]),
        k < list.len() ==> !holds(store, list[k]),
    ensures
        still_open(list.skip(j), store) == list.skip(k),
    decreases k - j,
{
    if j < k {
        assert(list.skip(j)[0] == list[j]);
        assert(list.skip(j).skip(1) =~= list.skip(j + 1));
        lemma_still_open(list, j + 1, k, store);
    } else if k < list.len() {
        assert(list.skip(k)[0] == list[k]);
    }
}

proof fn lemma_honest_blob(server: Seq<StoredView>, id: Digest, chunks: Seq<Digest>, k: nat)
    requires
        serves_blob(server, id, chunks),
        k <= distinct(chunks).len(),
    ensures
        ({
            let v = blob_rounds(fresh_blob(id), server, k + 1);
            let list = distinct(chunks);
            &&& v.id == id
            &&& v.manifest == Some(chunks)
            &&& v.queue == list.skip(if k == 0 {
                0
            } else {
                k - 1
            })
            &&& forall|i: int|
                0 <= i < list.len() ==> (holds(v.store, #[trigger] list[i]) <==> i < k)
            &&& forall|i: int|
                0 <= i < k ==> held(v.store, #[trigger] list[i]) == held(server, list[i])
        }),
    decreases k,
{
    let v0 = fresh_blob(id);
    let list = distinct(chunks);
    law_distinct(chunks);
    if k == 0 {
        assert(blob_rounds(v0, server, 0) == v0);
        assert(blob_rounds(v0, server, 1) == blob_round(v0, server));
        assert(list.skip(0) =~= list);
    } else {
        lemma_honest_blob(server, id, chunks, (k - 1) as nat);
        let u = blob_rounds(v0, server, k);
        let at = k - 1;
        let from = if at == 0 {
            0
        } else {
            at - 1
        };
        lemma_still_open(list, from, at, u.store);
        assert(list.skip(at)[0] == list[at]);
        let x = list[at];
        assert(list.contains(x));
        let c = chunks.index_of(x);
        assert(holds(server, chunks[c]));
        let data = held(server, x);
        law_put_is_held(u.store, x, data);
        let v = blob_rounds(v0, server, k + 1);
        assert(v.store == put_in(u.store, x, data));
        assert forall|i: int| 0 <= i < list.len() implies (holds(v.store, #[trigger] list[i])
            <==> i < k) by {
            if i != at {
                assert(list[i] != x);
                law_put_leaves_the_rest(u.store, x, data, list[i]);
            }
        }
        assert forall|i: int| 0 <= i < k implies held(v.store, #[trigger] list[i]) == held(
            server,
            list[i],
        ) by {
            if i != at {
                assert(list[i] != x);
                assert(holds(u.store, list[i]));
                law_put_leaves_the_rest(u.store, x, data, list[i]);
            }
        }
    }
}

proof fn lemma_same_assembly(a: Seq<StoredView>, b: Seq<StoredView>, chunks: Seq<Digest>)
    requires
        forall|i: int|
            0 <= i < chunks.len() ==> holds(a, #[trigger] chunks[i]) && holds(b, chunks[i])
                && held(a, chunks[i]) == held(b, chunks[i]),
    ensures
        assembled(a, chunks) == assembled(b, chunks),
    decreases chunks.len(),
{
    if chunks.len() > 0 {
        let front = chunks.drop_last();
        assert forall|i: int| 0 <= i < front.len() implies holds(a, #[trigger] front[i]) && holds(
            b,
            front[i],
        ) && held(a, front[i]) == held(b, front[i]) by {
            assert(front[i] == chunks[i]);
        }
        lemma_same_assembly(a, b, front);
        assert(chunks[chunks.len() - 1] == chunks.last());
    }
}

/// Syncing from an honest server that holds the blob completes, in one round for
/// the manifest and one for each distinct chunk, and yields exactly the server's
/// blob.
pub proof fn law_honest_sync_reproduces_the_blob(
    server: Seq<StoredView>,
    id: Digest,
    chunks: Seq<Digest>,
)
    requires
        serves_blob(server, id, chunks),
    ensures
        ({
            let v = blob_rounds(fresh_blob(id), server, distinct(chunks).len() + 1);
            &&& blob_complete(v)
            &&& v.manifest == Some(chunks)
            &&& blob_polled(v).1 is None
            &&& assembled(v.store, chunks) is Some
            &&& assembled(v.store, chunks) == assembled(server, chunks)
        }),
{
    let list = distinct(chunks);
    let k = list.len();
    let v = blob_rounds(fresh_blob(id), server, k + 1);
    lemma_honest_blob(server, id, chunks, k);
    law_distinct(chunks);
    assert forall|i: int| 0 <= i < chunks.len() implies holds(v.store, #[trigger] chunks[i])
        && holds(server, chunks[i]) && held(v.store, chunks[i]) == held(server, chunks[i]) by {
        assert(chunks.contains(chunks[i]));
        assert(list.contains(chunks[i]));
        let j = list.index_of(chunks[i]);
        assert(list[j] == chunks[i]);
    }
    lemma_same_assembly(v.store, server, chunks);
    law_assembled_iff_all_held(v.store, chunks);
    let from = if k == 0 {
        0
    } else {
        k - 1
    };
    lemma_still_open(list, from as int, k as int, v.store);
    assert(list.skip(k as int) =~= Seq::<Digest>::empty());
}

/// The bits of a bitfield are counted from the least significant of each byte on.
pub proof fn law_bits_are_least_significant_first(bits: Seq<u8>, i: int)
    requires
        0 <= i < 8 * bits.len(),
    ensures
        bit_at(bits, i) <==> (bits[i / 8] >> ((i % 8) as u8)) % 2 == 1,
{
    let b = bits[i / 8];
    let k = (i % 8) as u8;
    assert(b & (1u8 << k) != 0 <==> (b >> k) % 2 == 1) by (bit_vector)
        requires
            k < 8,
    ;
}

/// A server gives exactly what its store has: a chunk that is there, as it is there, and
/// the manifest that is filed under the blob's address; of what is not there it says so.
pub proof fn law_server_gives_what_it_has(
    s: Seq<StoredView>,
    hash: Digest,
    answer: MessageView,
    k: int,
)
    requires
        is_blob_answer(MessageView::GetChunk { hash }, s, answer),
    ensures
        (forall|i: int| 0 <= i < s.len() ==> (#[trigger] s[i]).name != hash) ==> answer
            == MessageView::Absent,
        0 <= k < s.len() && s[k].name == hash && (forall|i: int|
            0 <= i < k ==> (#[trigger] s[i]).name != hash) ==> answer == (MessageView::Chunk {
            data: s[k].data,
        }),
{
    crate::blob::law_what_a_store_holds(s, hash, k);
}

/// A manifest is served from the bytes that are filed under the blob's address.
pub proof fn law_manifest_is_served(
    s: Seq<StoredView>,
    id: Digest,
    chunks: Seq<Digest>,
    answer: MessageView,
    k: int,
)
    requires
        is_blob_answer(MessageView::GetManifest { id }, s, answer),
        chunks.len() <= u64::MAX,
        0 <= k < s.len(),
        s[k].name == id,
        s[k].data == crate::blob::manifest_bytes(chunks),
        forall|i: int| 0 <= i < k ==> (#[trigger] s[i]).name != id,
    ensures
        answer == MessageView::Manifest(chunks),
{
    crate::blob::law_what_a_store_holds(s, id, k);
    crate::blob::law_manifest_roundtrip(chunks);
}

/// What a download asks for is a request, first the manifest and then chunks that it
/// names and that are not held yet; it asks for nothing more once all are.
pub proof fn law_download_asks_for_what_it_lacks(v: BlobView)
    ensures
        v.manifest is None ==> blob_polled(v).1 == Some(MessageView::GetManifest { id: v.id }),
        v.manifest is Some ==> match blob_polled(v).1 {
            Some(MessageView::GetChunk { hash }) => v.queue.contains(hash) && !holds(v.store, hash),
            Some(_) => false,
            None => forall|i: int| 0 <= i < v.queue.len() ==> holds(v.store, #[trigger] v.queue[i]),
        },
{
    lemma_still_open_front(v.queue, v.store);
}

proof fn lemma_still_open_front(queue: Seq<Digest>, store: Seq<StoredView>)
    ensures
        ({
            let r = still_open(queue, store);
            &&& r.len() > 0 ==> queue.contains(r[0]) && !holds(store, r[0])
            &&& r.len() == 0 ==> forall|i: int|
                0 <= i < queue.len() ==> holds(store, #[trigger] queue[i])
        }),
    decreases queue.len(),
{
    if queue.len() > 0 {
        if holds(store, queue[0]) {
            let rest = queue.skip(1);
            lemma_still_open_front(rest, store);
            let r = still_open(queue, store);
            if r.len() > 0 {
                let i = rest.index_of(r[0]);
                assert(queue[i + 1] == r[0]);
            } else {
                assert forall|i: int| 0 <= i < queue.len() implies holds(
                    store,
                    #[trigger] queue[i],
                ) by {
                    if i > 0 {
                        assert(rest[i - 1] == queue[i]);
                    }
                }
            }
        } else {
            assert(queue[0] == queue[0]);
        }
    }
}

/// What a download of a blob does not take it refuses, and stays as it is: a manifest or a
/// chunk of another blob, a chunk before the manifest, and what it did not ask for.
pub proof fn law_blob_download_refuses(
    v: BlobView,
    chunks: Seq<Digest>,
    data: Seq<u8>,
    digest: Digest,
    m: MessageView,
)
    ensures
        v.manifest is None && digest != v.id ==> blob_handled(
            v,
            MessageView::Manifest(chunks),
            digest,
        ) == (v, Err::<(), SyncError>(SyncError::BadManifest)),
        v.manifest is None && digest == v.id ==> ({
            let (r, result) = blob_handled(v, MessageView::Manifest(chunks), digest);
            &&& result is Ok
            &&& r.manifest == Some(chunks)
            &&& r.store == v.store
            &&& forall|x: Digest| #[trigger] r.queue.contains(x) <==> chunks.contains(x)
        }),
        v.manifest is Some ==> blob_handled(v, MessageView::Manifest(chunks), digest) == (
            v,
            Ok::<(), SyncError>(()),
        ),
        v.manifest is None ==> blob_handled(v, MessageView::Chunk { data }, digest) == (
            v,
            Err::<(), SyncError>(SyncError::Unsolicited),
        ),
        v.manifest is Some && !v.manifest->Some_0.contains(digest) ==> blob_handled(
            v,
            MessageView::Chunk { data },
            digest,
        ) == (v, Err::<(), SyncError>(SyncError::BadChunk)),
        blob_handled(v, MessageView::Absent, digest) == (
            v,
            Err::<(), SyncError>(SyncError::Absent),
        ),
        !(m is Manifest || m is Chunk || m is Absent) ==> blob_handled(v, m, digest) == (
            v,
            Err::<(), SyncError>(SyncError::Unexpected),
        ),
{
    law_distinct(chunks);
}

/// A server without a blob's manifest has neither the manifest nor its holdings to give,
/// and it answers nothing that is asked of a server of feeds.
pub proof fn law_blob_server_has_no_feeds(
    request: MessageView,
    s: Seq<StoredView>,
    answer: MessageView,
)
    requires
        is_blob_answer(request, s, answer),
    ensures
        request matches MessageView::GetManifest { id } ==> ((forall|i: int|
            0 <= i < s.len() ==> (#[trigger] s[i]).name != id) ==> answer is Absent),
        request matches MessageView::GetHave { id } ==> ((forall|i: int|
            0 <= i < s.len() ==> (#[trigger] s[i]).name != id) ==> answer is Absent),
        request is GetHead || request is GetBlock || request is Tail || request is GetPeaks
            || request is GetFeedHave ==> answer is Absent,
{
    if let MessageView::GetManifest { id } = request {
        law_what_a_store_holds(s, id, 0);
    }
    if let MessageView::GetHave { id } = request {
        law_what_a_store_holds(s, id, 0);
    }
}

} // verus!
