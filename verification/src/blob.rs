//! Content-addressed storage: chunks named by their hash, and the manifest that
//! lists a blob's chunks and whose own hash is the blob's address.
use crate::bytes::{append, same_array};
use crate::crypto::{blake3_digest, hash, Digest};
use crate::digests::{
    digest_list, lemma_digest_list_len, lemma_digests_roundtrip, put_digests, read_digests,
    take_digests,
};
use crate::lists::{
    copied, first, found, lemma_first, lemma_first_at, lemma_first_none, lemma_views_push,
    lemma_views_remove, lemma_views_update, views,
};
use crate::wire::{
    lemma_uint_roundtrip, read_end, read_uint, varint, Decoder, Encoder, WireError,
};
use vstd::prelude::*;

verus! {

/// The size a blob's chunks have by default, in bytes.
pub const CHUNK_SIZE: usize = 65_536;

/// Why a manifest failed to decode.
#[derive(Debug, Clone, Copy, PartialEq, Eq)]
pub enum BlobError {
    /// A count exceeded the buffer.
    Malformed(&'static str),
    /// The byte codec rejected the buffer.
    Wire(WireError),
}

/// The chunks a blob is made of, in order.
#[derive(Debug, Clone, PartialEq, Eq)]
pub struct Manifest {
    /// The hash of each chunk.
    pub chunks: Vec<Digest>,
}

impl View for Manifest {
    type V = Seq<Digest>;

    open spec fn view(&self) -> Seq<Digest> {
        self.chunks@
    }
}

/// A manifest as it is sent.
pub open spec fn manifest_bytes(chunks: Seq<Digest>) -> Seq<u8> {
    varint(chunks.len()) + digest_list(chunks)
}

/// A manifest read.
pub open spec fn read_manifest(s: Seq<u8>) -> Result<Seq<Digest>, BlobError> {
    match read_uint(s) {
        Ok((n, s)) => if n > s.len() / 32 {
            Err(BlobError::Malformed("chunk count exceeds buffer"))
        } else {
            match read_digests(s, n as nat) {
                Ok((chunks, s)) => match read_end(s) {
                    Ok(_) => Ok(chunks),
                    Err(e) => Err(BlobError::Wire(e)),
                },
                Err(e) => Err(BlobError::Wire(e)),
            }
        },
        Err(e) => Err(BlobError::Wire(e)),
    }
}

/// The address of a blob: the hash of its manifest.
pub open spec fn blob_id(chunks: Seq<Digest>) -> Seq<u8> {
    blake3_digest(manifest_bytes(chunks))
}

impl Manifest {
    /// The manifest as it is sent.
    pub fn encode(&self) -> (r: Vec<u8>)
        ensures
            r@ == manifest_bytes(self@),
    {
        let mut enc = Encoder::new();
        enc.uint(self.chunks.len() as u64);
        put_digests(&mut enc, &self.chunks);
        let r = enc.into_vec();
        assert(r@ =~= manifest_bytes(self@));
        r
    }

    /// The manifest sent as `buf`.
    pub fn decode(buf: &[u8]) -> (r: Result<Manifest, BlobError>)
        ensures
            match read_manifest(buf@) {
                Ok(m) => r is Ok && r->Ok_0@ == m,
                Err(e) => r == Err::<Manifest, BlobError>(e),
            },
    {
        let mut dec = Decoder::new(buf);
        let n: u64 = match dec.uint() {
            Ok(v) => v,
            Err(e) => {
                return Err(BlobError::Wire(e));
            },
        };
        if n > dec.remaining() as u64 / 32 {
            return Err(BlobError::Malformed("chunk count exceeds buffer"));
        }
        let chunks: Vec<Digest> = match take_digests(&mut dec, n) {
            Ok(v) => v,
            Err(e) => {
                return Err(BlobError::Wire(e));
            },
        };
        match dec.finish() {
            Ok(_) => {},
            Err(e) => {
                return Err(BlobError::Wire(e));
            },
        }
        Ok(Manifest { chunks })
    }

    /// The blob's address: the hash of its manifest.
    pub fn id(&self) -> (r: Digest)
        ensures
            r@ == blob_id(self@),
    {
        let bytes: Vec<u8> = self.encode();
        hash(bytes.as_slice())
    }

    /// A copy of the manifest.
    pub fn copy(&self) -> (r: Manifest)
        ensures
            r@ == self@,
    {
        Manifest { chunks: copied(&self.chunks) }
    }
}

/// A manifest is read back from its bytes.
pub proof fn law_manifest_roundtrip(m: Seq<Digest>)
    requires
        m.len() <= u64::MAX,
    ensures
        read_manifest(manifest_bytes(m)) == Ok::<Seq<Digest>, BlobError>(m),
{
    let s = digest_list(m) + Seq::<u8>::empty();
    assert(manifest_bytes(m) =~= varint(m.len()) + s);
    lemma_uint_roundtrip(m.len() as u64, s);
    lemma_digest_list_len(m);
    assert(s.len() / 32 >= m.len()) by (nonlinear_arith)
        requires
            s.len() == 32 * m.len(),
    ;
    lemma_digests_roundtrip(m, Seq::<u8>::empty());
}

/// Bytes and the name they are stored under.
#[derive(Debug)]
pub struct Stored {
    name: Digest,
    data: Vec<u8>,
}

/// A [`Stored`] as a mathematical value.
#[verifier::ext_equal]
pub struct StoredView {
    /// The name.
    pub name: Digest,
    /// The bytes.
    pub data: Seq<u8>,
}

impl View for Stored {
    type V = StoredView;

    closed spec fn view(&self) -> StoredView {
        StoredView { name: self.name, data: self.data@ }
    }
}

/// What is stored under a name.
pub open spec fn named(name: Digest) -> spec_fn(StoredView) -> bool {
    |e: StoredView| e.name == name
}

/// Whether a store holds something under a name.
pub open spec fn holds(s: Seq<StoredView>, name: Digest) -> bool {
    first(s, named(name)) is Some
}

/// What a store holds under a name.
pub open spec fn held(s: Seq<StoredView>, name: Digest) -> Seq<u8> {
    s[first(s, named(name))->Some_0].data
}

/// A store after something is put in it.
pub open spec fn put_in(s: Seq<StoredView>, name: Digest, data: Seq<u8>) -> Seq<StoredView> {
    match first(s, named(name)) {
        Some(k) => s.update(k, StoredView { name, data }),
        None => s.push(StoredView { name, data }),
    }
}

/// A store after something is taken from it.
pub open spec fn taken_from(s: Seq<StoredView>, name: Digest) -> Seq<StoredView> {
    match first(s, named(name)) {
        Some(k) => s.remove(k),
        None => s,
    }
}

/// The chunks of a blob put together, if the store holds them all.
pub open spec fn assembled(s: Seq<StoredView>, chunks: Seq<Digest>) -> Option<Seq<u8>>
    decreases chunks.len(),
{
    if chunks.len() == 0 {
        Some(Seq::empty())
    } else {
        match assembled(s, chunks.drop_last()) {
            Some(front) => if holds(s, chunks.last()) {
                Some(front + held(s, chunks.last()))
            } else {
                None
            },
            None => None,
        }
    }
}

/// Chunks held in memory.
#[derive(Debug)]
pub struct Store {
    entries: Vec<Stored>,
}

impl View for Store {
    type V = Seq<StoredView>;

    closed spec fn view(&self) -> Seq<StoredView> {
        views(self.entries@)
    }
}

impl Store {
    fn find(&self, name: &Digest) -> (r: Option<usize>)
        ensures
            found(self@, named(*name), r),
    {
        let mut i: usize = 0;
        while i < self.entries.len()
            invariant
                i <= self.entries.len(),
                forall|j: int| 0 <= j < i ==> !named(*name)(#[trigger] self@[j]),
            decreases self.entries.len() - i,
        {
            assert(self@[i as int] == self.entries@[i as int]@);
            if same_array(&self.entries[i].name, name) {
                proof {
                    lemma_first_at(self@, named(*name), i as int);
                }
                return Some(i);
            }
            i += 1;
        }
        proof {
            lemma_first_none(self@, named(*name));
        }
        None
    }

    /// An empty store.
    pub fn new() -> (r: Self)
        ensures
            r@ == Seq::<StoredView>::empty(),
    {
        let r = Store { entries: Vec::new() };
        assert(r@ =~= Seq::<StoredView>::empty());
        r
    }

    /// How many chunks are held.
    pub fn len(&self) -> (r: usize)
        ensures
            r == self@.len(),
    {
        self.entries.len()
    }

    /// Whether nothing is held.
    pub fn is_empty(&self) -> (r: bool)
        ensures
            r == (self@.len() == 0),
    {
        self.entries.len() == 0
    }

    /// Whether a chunk is held.
    pub fn has(&self, name: &Digest) -> (r: bool)
        ensures
            r == holds(self@, *name),
    {
        self.find(name).is_some()
    }

    /// The bytes of a chunk, if it is held.
    pub fn get(&self, name: &Digest) -> (r: Option<&Vec<u8>>)
        ensures
            match r {
                Some(data) => holds(self@, *name) && data@ == held(self@, *name),
                None => !holds(self@, *name),
            },
    {
        match self.find(name) {
            Some(k) => {
                assert(self@[k as int] == self.entries@[k as int]@);
                Some(&self.entries[k].data)
            },
            None => None,
        }
    }

    /// Hold `data` under a hash that is already known.
    pub fn put_hashed(&mut self, name: Digest, data: Vec<u8>)
        ensures
            final(self)@ == put_in(old(self)@, name, data@),
    {
        let e = Stored { name, data };
        match self.find(&name) {
            Some(k) => {
                proof {
                    lemma_views_update(self.entries@, k as int, e);
                }
                self.entries.set(k, e);
            },
            None => {
                proof {
                    lemma_views_push(self.entries@, e);
                }
                self.entries.push(e);
            },
        }
    }

    /// Hold `data` under its hash, which is returned.
    pub fn put(&mut self, data: Vec<u8>) -> (r: Digest)
        ensures
            r@ == blake3_digest(data@),
            final(self)@ == put_in(old(self)@, r, data@),
    {
        let name: Digest = hash(data.as_slice());
        self.put_hashed(name, data);
        name
    }

    /// Let go of a chunk.
    pub fn remove(&mut self, name: &Digest)
        ensures
            final(self)@ == taken_from(old(self)@, *name),
    {
        if let Some(k) = self.find(name) {
            proof {
                lemma_views_remove(self.entries@, k as int);
            }
            let _ = self.entries.remove(k);
        }
    }

    /// A blob's chunks put together, if all of them are held.
    pub fn reassemble(&self, manifest: &Manifest) -> (r: Option<Vec<u8>>)
        ensures
            match assembled(self@, manifest@) {
                Some(data) => r is Some && r->Some_0@ == data,
                None => r is None,
            },
    {
        let ghost s = self@;
        let ghost chunks = manifest@;
        let mut out: Vec<u8> = Vec::new();
        let mut i: usize = 0;
        assert(out@ =~= Seq::<u8>::empty());
        while i < manifest.chunks.len()
            invariant
                i <= manifest.chunks.len(),
                s == self@,
                chunks == manifest.chunks@,
                assembled(s, chunks.take(i as int)) == Some(out@),
            decreases manifest.chunks.len() - i,
        {
            proof {
                assert(chunks.take(i + 1).drop_last() =~= chunks.take(i as int));
                assert(chunks.take(i + 1).last() == chunks[i as int]);
            }
            match self.get(&manifest.chunks[i]) {
                Some(data) => {
                    append(&mut out, data.as_slice());
                },
                None => {
                    proof {
                        lemma_assembled_needs(s, chunks, i + 1);
                    }
                    return None;
                },
            }
            i += 1;
        }
        assert(chunks.take(chunks.len() as int) =~= chunks);
        Some(out)
    }
}

/// A blob cannot be put together where its front cannot.
proof fn lemma_assembled_needs(s: Seq<StoredView>, chunks: Seq<Digest>, n: int)
    requires
        0 <= n <= chunks.len(),
        assembled(s, chunks.take(n)) is None,
    ensures
        assembled(s, chunks) is None,
    decreases chunks.len() - n,
{
    if n == chunks.len() {
        assert(chunks.take(n) =~= chunks);
    } else {
        assert(chunks.take(n + 1).drop_last() =~= chunks.take(n));
        lemma_assembled_needs(s, chunks, n + 1);
    }
}

/// Where something put in a store stands.
proof fn lemma_put_place(s: Seq<StoredView>, name: Digest, data: Seq<u8>) -> (k: int)
    ensures
        first(put_in(s, name, data), named(name)) == Some(k),
        0 <= k < put_in(s, name, data).len(),
        put_in(s, name, data)[k] == (StoredView { name, data }),
        forall|j: int|
            0 <= j < put_in(s, name, data).len() && j != k ==> #[trigger] put_in(
                s,
                name,
                data,
            )[j] == s[j] && j < s.len(),
        put_in(s, name, data).len() >= s.len(),
        k < s.len() ==> s[k].name == name,
{
    let r = put_in(s, name, data);
    lemma_first(s, named(name));
    let k = match first(s, named(name)) {
        Some(k) => k,
        None => s.len() as int,
    };
    assert forall|j: int| 0 <= j < k implies !named(name)(#[trigger] r[j]) by {
        assert(r[j] == s[j]);
    }
    assert(r[k] == (StoredView { name, data }));
    lemma_first_at(r, named(name), k);
    k
}

/// What was put in a store is what it holds.
pub proof fn law_put_is_held(s: Seq<StoredView>, name: Digest, data: Seq<u8>)
    ensures
        holds(put_in(s, name, data), name),
        held(put_in(s, name, data), name) == data,
{
    let _ = lemma_put_place(s, name, data);
}

/// Putting something in a store leaves everything else as it was.
pub proof fn law_put_leaves_the_rest(
    s: Seq<StoredView>,
    name: Digest,
    data: Seq<u8>,
    other: Digest,
)
    requires
        other != name,
    ensures
        holds(put_in(s, name, data), other) == holds(s, other),
        holds(s, other) ==> held(put_in(s, name, data), other) == held(s, other),
{
    let r = put_in(s, name, data);
    let k = lemma_put_place(s, name, data);
    lemma_first(s, named(other));
    match first(s, named(other)) {
        Some(i) => {
            assert(i != k);
            assert forall|j: int| 0 <= j < i implies !named(other)(#[trigger] r[j]) by {
                if j != k {
                    assert(r[j] == s[j]);
                }
            }
            assert(r[i] == s[i]);
            lemma_first_at(r, named(other), i);
        },
        None => {
            assert forall|j: int| 0 <= j < r.len() implies !named(other)(#[trigger] r[j]) by {
                if j != k {
                    assert(r[j] == s[j]);
                }
            }
            lemma_first_none(r, named(other));
        },
    }
}

/// Taking something from a store leaves everything else as it was.
pub proof fn law_taken_leaves_the_rest(s: Seq<StoredView>, name: Digest, other: Digest)
    requires
        other != name,
    ensures
        holds(taken_from(s, name), other) == holds(s, other),
        holds(s, other) ==> held(taken_from(s, name), other) == held(s, other),
{
    let r = taken_from(s, name);
    lemma_first(s, named(name));
    lemma_first(s, named(other));
    if let Some(k) = first(s, named(name)) {
        match first(s, named(other)) {
            Some(i) => {
                let at = if i < k {
                    i
                } else {
                    i - 1
                };
                assert(r[at] == s[i]);
                assert forall|j: int| 0 <= j < at implies !named(other)(#[trigger] r[j]) by {
                    if j < k {
                        assert(r[j] == s[j]);
                    } else {
                        assert(r[j] == s[j + 1]);
                    }
                }
                lemma_first_at(r, named(other), at);
            },
            None => {
                assert forall|j: int| 0 <= j < r.len() implies !named(other)(#[trigger] r[j]) by {
                    if j < k {
                        assert(r[j] == s[j]);
                    } else {
                        assert(r[j] == s[j + 1]);
                    }
                }
                lemma_first_none(r, named(other));
            },
        }
    }
}

/// A blob can be put together exactly if all of its chunks are held.
pub proof fn law_assembled_iff_all_held(s: Seq<StoredView>, chunks: Seq<Digest>)
    ensures
        assembled(s, chunks) is Some <==> forall|i: int|
            0 <= i < chunks.len() ==> holds(s, #[trigger] chunks[i]),
    decreases chunks.len(),
{
    if chunks.len() > 0 {
        let front = chunks.drop_last();
        law_assembled_iff_all_held(s, front);
        assert(forall|i: int| 0 <= i < front.len() ==> front[i] == #[trigger] chunks[i]);
        if forall|i: int| 0 <= i < chunks.len() ==> holds(s, #[trigger] chunks[i]) {
            assert forall|i: int| 0 <= i < front.len() implies holds(s, #[trigger] front[i]) by {
                assert(front[i] == chunks[i]);
            }
            assert(holds(s, chunks[chunks.len() - 1]));
        }
        if assembled(s, chunks) is Some {
            assert forall|i: int| 0 <= i < chunks.len() implies holds(s, #[trigger] chunks[i]) by {
                if i < front.len() {
                    assert(holds(s, front[i]));
                }
            }
        }
    }
}

/// A store holds something under a name exactly if it has an entry of that name, and what
/// it then gives is what that entry has.
pub proof fn law_what_a_store_holds(s: Seq<StoredView>, name: Digest, k: int)
    ensures
        holds(s, name) <==> exists|i: int| 0 <= i < s.len() && (#[trigger] s[i]).name == name,
        0 <= k < s.len() && s[k].name == name && (forall|i: int|
            0 <= i < k ==> (#[trigger] s[i]).name != name) ==> held(s, name) == s[k].data,
{
    lemma_first(s, named(name));
    if exists|i: int| 0 <= i < s.len() && (#[trigger] s[i]).name == name {
        let i = choose|i: int| 0 <= i < s.len() && (#[trigger] s[i]).name == name;
        assert(named(name)(s[i]));
    }
    if holds(s, name) {
        assert(s[first(s, named(name))->Some_0].name == name);
    }
    if 0 <= k < s.len() && s[k].name == name && (forall|i: int|
        0 <= i < k ==> (#[trigger] s[i]).name != name) {
        assert forall|i: int| 0 <= i < k implies !named(name)(#[trigger] s[i]) by {}
        lemma_first_at(s, named(name), k);
    }
}

/// A blob is its chunks, one behind the other: putting two runs of chunks together gives
/// the bytes of the first and then those of the second, and a single chunk is its bytes.
pub proof fn law_blob_is_its_chunks_in_order(
    s: Seq<StoredView>,
    a: Seq<Digest>,
    b: Seq<Digest>,
    c: Digest,
)
    ensures
        assembled(s, a) is Some && assembled(s, b) is Some ==> assembled(s, a + b) == Some(
            assembled(s, a)->Some_0 + assembled(s, b)->Some_0,
        ),
        holds(s, c) ==> assembled(s, seq![c]) == Some(held(s, c)),
    decreases b.len(),
{
    assert(seq![c].drop_last() =~= Seq::<Digest>::empty());
    assert(assembled(s, seq![c].drop_last()) == Some(Seq::<u8>::empty()));
    assert(Seq::<u8>::empty() + held(s, c) =~= held(s, c));
    if b.len() == 0 {
        assert(a + b =~= a);
        if assembled(s, a) is Some {
            assert(assembled(s, a)->Some_0 + Seq::<u8>::empty() =~= assembled(s, a)->Some_0);
        }
    } else {
        law_blob_is_its_chunks_in_order(s, a, b.drop_last(), c);
        assert((a + b).drop_last() =~= a + b.drop_last());
        if assembled(s, a) is Some && assembled(s, b) is Some {
            let x = assembled(s, a)->Some_0;
            let y = assembled(s, b.drop_last())->Some_0;
            let z = held(s, b.last());
            assert((x + y) + z =~= x + (y + z));
        }
    }
}

/// Nothing is held any more under a name that was taken, where it was held once.
pub proof fn law_taken_is_gone(s: Seq<StoredView>, name: Digest)
    requires
        forall|i: int, j: int|
            0 <= i < j < s.len() ==> (#[trigger] s[i]).name != (#[trigger] s[j]).name,
    ensures
        !holds(taken_from(s, name), name),
{
    let r = taken_from(s, name);
    lemma_first(s, named(name));
    match first(s, named(name)) {
        Some(k) => {
            assert forall|i: int| 0 <= i < r.len() implies !named(name)(#[trigger] r[i]) by {
                if i < k {
                    assert(r[i] == s[i]);
                    assert(s[i].name != s[k].name);
                } else {
                    assert(r[i] == s[i + 1]);
                    assert(s[k].name != s[i + 1].name);
                }
            }
            lemma_first_none(r, named(name));
        },
        None => {},
    }
}

} // verus!
