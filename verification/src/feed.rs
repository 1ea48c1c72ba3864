//! What a signed, append-only feed shows of itself: its head and the proofs
//! that blocks belong to it.
use crate::bytes::{array_of, lemma_array_of};
use crate::crypto::Digest;
use crate::digests::{
    digest_list, lemma_digest_list_len, lemma_digests_roundtrip, put_digests, read_digests,
    take_digests,
};
use crate::wire::{
    lemma_raw_roundtrip, lemma_uint_roundtrip, read_end, read_raw, read_uint, varint, Decoder,
    Encoder, WireError,
};
use vstd::prelude::*;

verus! {

/// A feed's length and the root of the tree over its blocks, signed.
#[derive(Debug, Clone, Copy, PartialEq, Eq)]
pub struct Head {
    /// How many blocks the feed has.
    pub len: u64,
    /// The root of the tree over its blocks.
    pub root: Digest,
    /// The publisher's signature.
    pub signature: [u8; 64],
}

/// Why a head or a proof failed to decode.
#[derive(Debug, Clone, Copy, PartialEq, Eq)]
pub enum FeedError {
    /// A count exceeded the buffer.
    Malformed(&'static str),
    /// The byte codec rejected the buffer.
    Wire(WireError),
}

/// A head as it is sent.
pub open spec fn head_bytes(h: Head) -> Seq<u8> {
    varint(h.len as nat) + h.root@ + h.signature@
}

/// A head read.
pub open spec fn read_head(s: Seq<u8>) -> Result<Head, FeedError> {
    match read_uint(s) {
        Ok((len, s)) => match read_raw(s, 32) {
            Ok((root, s)) => match read_raw(s, 64) {
                Ok((signature, s)) => match read_end(s) {
                    Ok(_) => Ok(
                        Head {
                            len,
                            root: array_of::<32>(root),
                            signature: array_of::<64>(signature),
                        },
                    ),
                    Err(e) => Err(FeedError::Wire(e)),
                },
                Err(e) => Err(FeedError::Wire(e)),
            },
            Err(e) => Err(FeedError::Wire(e)),
        },
        Err(e) => Err(FeedError::Wire(e)),
    }
}

impl Head {
    /// The head as it is sent.
    pub fn encode(&self) -> (r: Vec<u8>)
        ensures
            r@ == head_bytes(*self),
    {
        let mut enc = Encoder::new();
        enc.uint(self.len);
        enc.raw(&self.root);
        enc.raw(&self.signature);
        let r = enc.into_vec();
        assert(r@ =~= head_bytes(*self));
        r
    }

    /// The head sent as `buf`.
    pub fn decode(buf: &[u8]) -> (r: Result<Head, FeedError>)
        ensures
            r == read_head(buf@),
    {
        let mut dec = Decoder::new(buf);
        let len: u64 = match dec.uint() {
            Ok(v) => v,
            Err(e) => {
                return Err(FeedError::Wire(e));
            },
        };
        let root: [u8; 32] = match dec.array::<32>() {
            Ok(v) => v,
            Err(e) => {
                return Err(FeedError::Wire(e));
            },
        };
        let signature: [u8; 64] = match dec.array::<64>() {
            Ok(v) => v,
            Err(e) => {
                return Err(FeedError::Wire(e));
            },
        };
        proof {
            lemma_array_of(root);
            lemma_array_of(signature);
        }
        match dec.finish() {
            Ok(_) => {},
            Err(e) => {
                return Err(FeedError::Wire(e));
            },
        }
        Ok(Head { len, root, signature })
    }
}

/// A head is read back from its bytes.
pub proof fn law_head_roundtrip(h: Head)
    ensures
        read_head(head_bytes(h)) == Ok::<Head, FeedError>(h),
{
    let s2 = h.signature@ + Seq::<u8>::empty();
    let s1 = h.root@ + s2;
    assert(head_bytes(h) =~= varint(h.len as nat) + s1);
    lemma_uint_roundtrip(h.len, s1);
    lemma_raw_roundtrip(h.root@, s2);
    lemma_raw_roundtrip(h.signature@, Seq::<u8>::empty());
    lemma_array_of(h.root);
    lemma_array_of(h.signature);
}

/// The hashes that lead from a block to the root.
#[derive(Debug, Clone, PartialEq, Eq)]
pub struct Proof {
    /// The hashes, from the block upward.
    pub nodes: Vec<Digest>,
}

impl View for Proof {
    type V = Seq<Digest>;

    open spec fn view(&self) -> Seq<Digest> {
        self.nodes@
    }
}

/// A proof as it is sent.
pub open spec fn proof_bytes(p: Seq<Digest>) -> Seq<u8> {
    varint(p.len()) + digest_list(p)
}

/// A proof read.
pub open spec fn read_proof(s: Seq<u8>) -> Result<Seq<Digest>, FeedError> {
    match read_uint(s) {
        Ok((n, s)) => if n > s.len() / 32 {
            Err(FeedError::Malformed("node count exceeds buffer"))
        } else {
            match read_digests(s, n as nat) {
                Ok((nodes, s)) => match read_end(s) {
                    Ok(_) => Ok(nodes),
                    Err(e) => Err(FeedError::Wire(e)),
                },
                Err(e) => Err(FeedError::Wire(e)),
            }
        },
        Err(e) => Err(FeedError::Wire(e)),
    }
}

impl Proof {
    /// The proof as it is sent.
    pub fn encode(&self) -> (r: Vec<u8>)
        ensures
            r@ == proof_bytes(self@),
    {
        let mut enc = Encoder::new();
        enc.uint(self.nodes.len() as u64);
        put_digests(&mut enc, &self.nodes);
        let r = enc.into_vec();
        assert(r@ =~= proof_bytes(self@));
        r
    }

    /// The proof sent as `buf`.
    pub fn decode(buf: &[u8]) -> (r: Result<Proof, FeedError>)
        ensures
            match read_proof(buf@) {
                Ok(p) => r is Ok && r->Ok_0@ == p,
                Err(e) => r == Err::<Proof, FeedError>(e),
            },
    {
        let mut dec = Decoder::new(buf);
        let n: u64 = match dec.uint() {
            Ok(v) => v,
            Err(e) => {
                return Err(FeedError::Wire(e));
            },
        };
        if n > dec.remaining() as u64 / 32 {
            return Err(FeedError::Malformed("node count exceeds buffer"));
        }
        let nodes: Vec<Digest> = match take_digests(&mut dec, n) {
            Ok(v) => v,
            Err(e) => {
                return Err(FeedError::Wire(e));
            },
        };
        match dec.finish() {
            Ok(_) => {},
            Err(e) => {
                return Err(FeedError::Wire(e));
            },
        }
        Ok(Proof { nodes })
    }

    /// A copy of the proof.
    pub fn copy(&self) -> (r: Proof)
        ensures
            r@ == self@,
    {
        Proof { nodes: crate::lists::copied(&self.nodes) }
    }
}

/// A proof is read back from its bytes.
pub proof fn law_proof_roundtrip(p: Seq<Digest>)
    requires
        p.len() <= u64::MAX,
    ensures
        read_proof(proof_bytes(p)) == Ok::<Seq<Digest>, FeedError>(p),
{
    let s = digest_list(p) + Seq::<u8>::empty();
    assert(proof_bytes(p) =~= varint(p.len()) + s);
    lemma_uint_roundtrip(p.len() as u64, s);
    lemma_digest_list_len(p);
    assert(s.len() / 32 >= p.len()) by (nonlinear_arith)
        requires
            s.len() == 32 * p.len(),
    ;
    lemma_digests_roundtrip(p, Seq::<u8>::empty());
}

} // verus!
