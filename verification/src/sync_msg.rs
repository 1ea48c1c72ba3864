//! The messages by which a feed or a blob is pulled from a peer.
use crate::blob::{
    law_manifest_roundtrip, manifest_bytes, read_manifest, BlobError, Manifest,
};
use crate::bytes::{array_of, copy_of, lemma_array_of};
use crate::crypto::Digest;
use crate::feed::{
    head_bytes, law_head_roundtrip, law_proof_roundtrip, proof_bytes, read_head, read_proof,
    FeedError, Head, Proof,
};
use crate::wire::{
    lemma_bytes_roundtrip, lemma_raw_roundtrip, lemma_u8_roundtrip, lemma_uint_roundtrip,
    read_bytes, read_end, read_raw, read_u8, read_uint, varint, with_length, Decoder, Encoder,
    WireError,
};
use vstd::prelude::*;

verus! {

/// The tag of [`Message::GetHead`].
pub const KIND_GET_HEAD: u8 = 1;

/// The tag of [`Message::Head`].
pub const KIND_HEAD: u8 = 2;

/// The tag of [`Message::GetBlock`].
pub const KIND_GET_BLOCK: u8 = 3;

/// The tag of [`Message::Block`].
pub const KIND_BLOCK: u8 = 4;

/// The tag of [`Message::Absent`].
pub const KIND_ABSENT: u8 = 5;

/// The tag of [`Message::GetManifest`].
pub const KIND_GET_MANIFEST: u8 = 6;

/// The tag of [`Message::Manifest`].
pub const KIND_MANIFEST: u8 = 7;

/// The tag of [`Message::GetChunk`].
pub const KIND_GET_CHUNK: u8 = 8;

/// The tag of [`Message::Chunk`].
pub const KIND_CHUNK: u8 = 9;

/// The tag of [`Message::GetHave`].
pub const KIND_GET_HAVE: u8 = 10;

/// The tag of [`Message::Have`].
pub const KIND_HAVE: u8 = 11;

/// The tag of [`Message::Tail`].
pub const KIND_TAIL: u8 = 12;

/// The tag of [`Message::GetPeaks`].
pub const KIND_GET_PEAKS: u8 = 13;

/// The tag of [`Message::Peaks`].
pub const KIND_PEAKS: u8 = 14;

/// The tag of [`Message::GetFeedHave`].
pub const KIND_GET_FEED_HAVE: u8 = 15;

/// The tag of [`Message::FeedHave`].
pub const KIND_FEED_HAVE: u8 = 16;

/// A tree over fewer than `2^64` blocks has at most one peak for each bit of the
/// length.
pub const MAX_PEAKS: u64 = 64;

/// Upper bound on the ranges in a [`Message::FeedHave`].
pub const MAX_HAVE_RANGES: u64 = 65_536;

/// Why a response was rejected, or a message failed to decode.
#[derive(Debug, Clone, Copy, PartialEq, Eq)]
pub enum SyncError {
    /// The head's signature didn't verify against the feed's public key.
    BadHead,
    /// A block's inclusion proof didn't verify against the head.
    BadBlock,
    /// A manifest's hash didn't match the content address that was requested.
    BadManifest,
    /// A chunk didn't hash to a chunk this blob's manifest names.
    BadChunk,
    /// The head claims more blocks than a download takes.
    TooLong,
    /// A block arrived before a verified head.
    Unsolicited,
    /// The peer reported it can't serve a requested item.
    Absent,
    /// A request-type message arrived where a response was expected.
    Unexpected,
    /// A field was malformed or a tag unrecognized.
    Malformed(&'static str),
    /// The byte codec rejected the buffer.
    Wire(WireError),
    /// An embedded head or proof failed to decode.
    Feed(FeedError),
    /// An embedded manifest failed to decode.
    Blob(BlobError),
}

/// A sync message: a request from the client, or a response from the server. A
/// session is tied to one feed, so feed requests carry no id; blob requests are
/// content-addressed and name what they want.
#[derive(Debug, Clone, PartialEq, Eq)]
pub enum Message {
    /// Client to server: send the feed's current signed head.
    GetHead,
    /// Client to server: a live-tail poll. Like [`Message::GetHead`], but the
    /// server may hold the response until the feed grows past `have`.
    Tail {
        /// How many blocks the subscriber already holds.
        have: u64,
    },
    /// Server to client: the signed head.
    Head(Head),
    /// Client to server: send block `index` with its inclusion proof.
    GetBlock {
        /// The block index requested.
        index: u64,
    },
    /// Server to client: a block and the proof that it belongs to the head.
    Block {
        /// The block's index.
        index: u64,
        /// The block bytes.
        data: Vec<u8>,
        /// Inclusion proof against the signed head.
        proof: Proof,
    },
    /// Client to server: send the blob manifest with this content address.
    GetManifest {
        /// The blob's content address.
        id: Digest,
    },
    /// Server to client: a blob manifest.
    Manifest(Manifest),
    /// Client to server: send the chunk with this hash.
    GetChunk {
        /// The chunk's content hash.
        hash: Digest,
    },
    /// Server to client: chunk bytes.
    Chunk {
        /// The chunk bytes.
        data: Vec<u8>,
    },
    /// Client to server: which chunks of blob `id` do you hold?
    GetHave {
        /// The blob's content address.
        id: Digest,
    },
    /// Server to client: a bitfield over the blob's manifest. Bit `i % 8` of byte
    /// `i / 8`, least significant first, is set iff the server holds the `i`-th
    /// chunk. A scheduling hint: every chunk is still verified on receipt.
    Have {
        /// The holdings bitfield.
        bits: Vec<u8>,
    },
    /// Client to server: send the feed's peak nodes.
    GetPeaks,
    /// Server to client: the feed's peak nodes as flat index and hash, largest
    /// peak first.
    Peaks {
        /// The peak nodes.
        nodes: Vec<(u64, Digest)>,
    },
    /// Client to server: which block indices of this feed do you hold?
    GetFeedHave,
    /// Server to client: the half-open index ranges the server holds, ascending.
    /// A scheduling hint: every block is still verified on receipt.
    FeedHave {
        /// Held index ranges.
        ranges: Vec<(u64, u64)>,
    },
    /// Server to client: the requested item isn't available.
    Absent,
}

/// A [`Message`] as a mathematical value.
#[verifier::ext_equal]
pub enum MessageView {
    /// A request for the head.
    GetHead,
    /// A live-tail poll.
    Tail { have: u64 },
    /// The head.
    Head(Head),
    /// A request for a block.
    GetBlock { index: u64 },
    /// A block and its proof.
    Block { index: u64, data: Seq<u8>, proof: Seq<Digest> },
    /// A request for a manifest.
    GetManifest { id: Digest },
    /// A manifest.
    Manifest(Seq<Digest>),
    /// A request for a chunk.
    GetChunk { hash: Digest },
    /// A chunk.
    Chunk { data: Seq<u8> },
    /// A request for the chunks held.
    GetHave { id: Digest },
    /// The chunks held.
    Have { bits: Seq<u8> },
    /// A request for the peaks.
    GetPeaks,
    /// The peaks.
    Peaks { nodes: Seq<(u64, Digest)> },
    /// A request for the blocks held.
    GetFeedHave,
    /// The blocks held.
    FeedHave { ranges: Seq<(u64, u64)> },
    /// The item isn't available.
    Absent,
}

impl View for Message {
    type V = MessageView;

    open spec fn view(&self) -> MessageView {
        match self {
            Message::GetHead => MessageView::GetHead,
            Message::Tail { have } => MessageView::Tail { have: *have },
            Message::Head(head) => MessageView::Head(*head),
            Message::GetBlock { index } => MessageView::GetBlock { index: *index },
            Message::Block { index, data, proof } => MessageView::Block {
                index: *index,
                data: data@,
                proof: proof@,
            },
            Message::GetManifest { id } => MessageView::GetManifest { id: *id },
            Message::Manifest(manifest) => MessageView::Manifest(manifest@),
            Message::GetChunk { hash } => MessageView::GetChunk { hash: *hash },
            Message::Chunk { data } => MessageView::Chunk { data: data@ },
            Message::GetHave { id } => MessageView::GetHave { id: *id },
            Message::Have { bits } => MessageView::Have { bits: bits@ },
            Message::GetPeaks => MessageView::GetPeaks,
            Message::Peaks { nodes } => MessageView::Peaks { nodes: nodes@ },
            Message::GetFeedHave => MessageView::GetFeedHave,
            Message::FeedHave { ranges } => MessageView::FeedHave { ranges: ranges@ },
            Message::Absent => MessageView::Absent,
        }
    }
}

/// Peak nodes one after the other.
pub open spec fn peak_list(s: Seq<(u64, Digest)>) -> Seq<u8>
    decreases s.len(),
{
    if s.len() == 0 {
        Seq::empty()
    } else {
        varint(s[0].0 as nat) + s[0].1@ + peak_list(s.skip(1))
    }
}

/// Ranges one after the other.
pub open spec fn range_list(s: Seq<(u64, u64)>) -> Seq<u8>
    decreases s.len(),
{
    if s.len() == 0 {
        Seq::empty()
    } else {
        varint(s[0].0 as nat) + varint(s[0].1 as nat) + range_list(s.skip(1))
    }
}

/// A message as it is sent.
pub open spec fn message_bytes(m: MessageView) -> Seq<u8> {
    match m {
        MessageView::GetHead => seq![KIND_GET_HEAD],
        MessageView::Tail { have } => seq![KIND_TAIL] + varint(have as nat),
        MessageView::Head(head) => seq![KIND_HEAD] + with_length(head_bytes(head)),
        MessageView::GetBlock { index } => seq![KIND_GET_BLOCK] + varint(index as nat),
        MessageView::Block { index, data, proof } => seq![KIND_BLOCK] + varint(index as nat)
            + with_length(data) + with_length(proof_bytes(proof)),
        MessageView::GetManifest { id } => seq![KIND_GET_MANIFEST] + id@,
        MessageView::Manifest(chunks) => seq![KIND_MANIFEST] + with_length(manifest_bytes(chunks)),
        MessageView::GetChunk { hash } => seq![KIND_GET_CHUNK] + hash@,
        MessageView::Chunk { data } => seq![KIND_CHUNK] + with_length(data),
        MessageView::GetHave { id } => seq![KIND_GET_HAVE] + id@,
        MessageView::Have { bits } => seq![KIND_HAVE] + with_length(bits),
        MessageView::GetPeaks => seq![KIND_GET_PEAKS],
        MessageView::Peaks { nodes } => seq![KIND_PEAKS] + varint(nodes.len()) + peak_list(nodes),
        MessageView::GetFeedHave => seq![KIND_GET_FEED_HAVE],
        MessageView::FeedHave { ranges } => seq![KIND_FEED_HAVE] + varint(ranges.len())
            + range_list(ranges),
        MessageView::Absent => seq![KIND_ABSENT],
    }
}

/// A part of a message read, and what follows it.
pub type Part<T> = Result<(T, Seq<u8>), SyncError>;

/// Reading `n` peak nodes.
pub open spec fn read_peaks(s: Seq<u8>, n: nat) -> Part<Seq<(u64, Digest)>>
    decreases n,
{
    if n == 0 {
        Ok((Seq::empty(), s))
    } else {
        match read_uint(s) {
            Ok((index, s)) => match read_raw(s, 32) {
                Ok((hash, s)) => match read_peaks(s, (n - 1) as nat) {
                    Ok((more, s)) => Ok((seq![(index, array_of::<32>(hash))] + more, s)),
                    Err(e) => Err(e),
                },
                Err(e) => Err(SyncError::Wire(e)),
            },
            Err(e) => Err(SyncError::Wire(e)),
        }
    }
}

/// Reading `n` ranges.
pub open spec fn read_ranges(s: Seq<u8>, n: nat) -> Part<Seq<(u64, u64)>>
    decreases n,
{
    if n == 0 {
        Ok((Seq::empty(), s))
    } else {
        match read_uint(s) {
            Ok((start, s)) => match read_uint(s) {
                Ok((end, s)) => match read_ranges(s, (n - 1) as nat) {
                    Ok((more, s)) => Ok((seq![(start, end)] + more, s)),
                    Err(e) => Err(e),
                },
                Err(e) => Err(SyncError::Wire(e)),
            },
            Err(e) => Err(SyncError::Wire(e)),
        }
    }
}

/// Reading a hash.
pub open spec fn read_hash(s: Seq<u8>) -> Part<Digest> {
    match read_raw(s, 32) {
        Ok((v, s)) => Ok((array_of::<32>(v), s)),
        Err(e) => Err(SyncError::Wire(e)),
    }
}

/// Reading a number.
pub open spec fn read_number(s: Seq<u8>) -> Part<u64> {
    match read_uint(s) {
        Ok(v) => Ok(v),
        Err(e) => Err(SyncError::Wire(e)),
    }
}

/// Reading bytes behind their length.
pub open spec fn read_run(s: Seq<u8>) -> Part<Seq<u8>> {
    match read_bytes(s) {
        Ok(v) => Ok(v),
        Err(e) => Err(SyncError::Wire(e)),
    }
}

/// Reading an embedded head.
pub open spec fn read_embedded_head(s: Seq<u8>) -> Part<Head> {
    match read_run(s) {
        Ok((b, s)) => match read_head(b) {
            Ok(h) => Ok((h, s)),
            Err(e) => Err(SyncError::Feed(e)),
        },
        Err(e) => Err(e),
    }
}

/// Reading an embedded proof.
pub open spec fn read_embedded_proof(s: Seq<u8>) -> Part<Seq<Digest>> {
    match read_run(s) {
        Ok((b, s)) => match read_proof(b) {
            Ok(p) => Ok((p, s)),
            Err(e) => Err(SyncError::Feed(e)),
        },
        Err(e) => Err(e),
    }
}

/// Reading an embedded manifest.
pub open spec fn read_embedded_manifest(s: Seq<u8>) -> Part<Seq<Digest>> {
    match read_run(s) {
        Ok((b, s)) => match read_manifest(b) {
            Ok(m) => Ok((m, s)),
            Err(e) => Err(SyncError::Blob(e)),
        },
        Err(e) => Err(e),
    }
}

/// Reading what follows the tag of a block.
pub open spec fn read_block(s: Seq<u8>) -> Part<MessageView> {
    match read_number(s) {
        Ok((index, s)) => match read_run(s) {
            Ok((data, s)) => match read_embedded_proof(s) {
                Ok((proof, s)) => Ok((MessageView::Block { index, data, proof }, s)),
                Err(e) => Err(e),
            },
            Err(e) => Err(e),
        },
        Err(e) => Err(e),
    }
}

/// Reading what follows the tag of the peaks.
pub open spec fn read_counted_peaks(s: Seq<u8>) -> Part<Seq<(u64, Digest)>> {
    match read_number(s) {
        Ok((n, s)) => if n > MAX_PEAKS {
            Err(SyncError::Malformed("too many peaks"))
        } else if n > s.len() / 33 {
            Err(SyncError::Malformed("peak count exceeds buffer"))
        } else {
            read_peaks(s, n as nat)
        },
        Err(e) => Err(e),
    }
}

/// Reading what follows the tag of the blocks held.
pub open spec fn read_counted_ranges(s: Seq<u8>) -> Part<Seq<(u64, u64)>> {
    match read_number(s) {
        Ok((n, s)) => if n > MAX_HAVE_RANGES {
            Err(SyncError::Malformed("too many ranges"))
        } else if n > s.len() / 2 {
            Err(SyncError::Malformed("range count exceeds buffer"))
        } else {
            read_ranges(s, n as nat)
        },
        Err(e) => Err(e),
    }
}

/// Reading what follows a message's tag.
pub open spec fn read_body(kind: u8, s: Seq<u8>) -> Part<MessageView> {
    if kind == KIND_GET_HEAD {
        Ok((MessageView::GetHead, s))
    } else if kind == KIND_TAIL {
        match read_number(s) {
            Ok((have, s)) => Ok((MessageView::Tail { have }, s)),
            Err(e) => Err(e),
        }
    } else if kind == KIND_HEAD {
        match read_embedded_head(s) {
            Ok((head, s)) => Ok((MessageView::Head(head), s)),
            Err(e) => Err(e),
        }
    } else if kind == KIND_GET_BLOCK {
        match read_number(s) {
            Ok((index, s)) => Ok((MessageView::GetBlock { index }, s)),
            Err(e) => Err(e),
        }
    } else if kind == KIND_BLOCK {
        read_block(s)
    } else if kind == KIND_GET_MANIFEST {
        match read_hash(s) {
            Ok((id, s)) => Ok((MessageView::GetManifest { id }, s)),
            Err(e) => Err(e),
        }
    } else if kind == KIND_MANIFEST {
        match read_embedded_manifest(s) {
            Ok((m, s)) => Ok((MessageView::Manifest(m), s)),
            Err(e) => Err(e),
        }
    } else if kind == KIND_GET_CHUNK {
        match read_hash(s) {
            Ok((hash, s)) => Ok((MessageView::GetChunk { hash }, s)),
            Err(e) => Err(e),
        }
    } else if kind == KIND_CHUNK {
        match read_run(s) {
            Ok((data, s)) => Ok((MessageView::Chunk { data }, s)),
            Err(e) => Err(e),
        }
    } else if kind == KIND_GET_HAVE {
        match read_hash(s) {
            Ok((id, s)) => Ok((MessageView::GetHave { id }, s)),
            Err(e) => Err(e),
        }
    } else if kind == KIND_HAVE {
        match read_run(s) {
            Ok((bits, s)) => Ok((MessageView::Have { bits }, s)),
            Err(e) => Err(e),
        }
    } else if kind == KIND_GET_PEAKS {
        Ok((MessageView::GetPeaks, s))
    } else if kind == KIND_PEAKS {
        match read_counted_peaks(s) {
            Ok((nodes, s)) => Ok((MessageView::Peaks { nodes }, s)),
            Err(e) => Err(e),
        }
    } else if kind == KIND_GET_FEED_HAVE {
        Ok((MessageView::GetFeedHave, s))
    } else if kind == KIND_FEED_HAVE {
        match read_counted_ranges(s) {
            Ok((ranges, s)) => Ok((MessageView::FeedHave { ranges }, s)),
            Err(e) => Err(e),
        }
    } else if kind == KIND_ABSENT {
        Ok((MessageView::Absent, s))
    } else {
        Err(SyncError::Malformed("unknown message kind"))
    }
}

/// A message read.
pub open spec fn read_message(s: Seq<u8>) -> Result<MessageView, SyncError> {
    match read_u8(s) {
        Ok((kind, s)) => match read_body(kind, s) {
            Ok((m, s)) => match read_end(s) {
                Ok(_) => Ok(m),
                Err(e) => Err(SyncError::Wire(e)),
            },
            Err(e) => Err(e),
        },
        Err(e) => Err(SyncError::Wire(e)),
    }
}

/// Whether a message is a request.
pub open spec fn requests(m: MessageView) -> bool {
    match m {
        MessageView::GetHead => true,
        MessageView::Tail { .. } => true,
        MessageView::GetBlock { .. } => true,
        MessageView::GetManifest { .. } => true,
        MessageView::GetChunk { .. } => true,
        MessageView::GetHave { .. } => true,
        MessageView::GetPeaks => true,
        MessageView::GetFeedHave => true,
        _ => false,
    }
}

fn put_peaks(enc: &mut Encoder, nodes: &Vec<(u64, Digest)>)
    ensures
        final(enc)@ == old(enc)@ + peak_list(nodes@),
{
    let ghost all = old(enc)@ + peak_list(nodes@);
    let mut i: usize = 0;
    assert(nodes@.skip(0) =~= nodes@);
    while i < nodes.len()
        invariant
            i <= nodes.len(),
            enc@ + peak_list(nodes@.skip(i as int)) == all,
        decreases nodes.len() - i,
    {
        let ghost before = enc@;
        let ghost tail = peak_list(nodes@.skip(i + 1));
        assert(nodes@.skip(i as int).skip(1) =~= nodes@.skip(i + 1));
        assert(nodes@.skip(i as int)[0] == nodes@[i as int]);
        enc.uint(nodes[i].0);
        enc.raw(&nodes[i].1);
        assert(enc@ + tail =~= before + (varint(nodes@[i as int].0 as nat) + nodes@[i as int].1@
            + tail));
        i += 1;
    }
    assert(nodes@.skip(i as int) =~= Seq::<(u64, Digest)>::empty());
    assert(enc@ + Seq::<u8>::empty() =~= enc@);
}

fn put_ranges(enc: &mut Encoder, ranges: &Vec<(u64, u64)>)
    ensures
        final(enc)@ == old(enc)@ + range_list(ranges@),
{
    let ghost all = old(enc)@ + range_list(ranges@);
    let mut i: usize = 0;
    assert(ranges@.skip(0) =~= ranges@);
    while i < ranges.len()
        invariant
            i <= ranges.len(),
            enc@ + range_list(ranges@.skip(i as int)) == all,
        decreases ranges.len() - i,
    {
        let ghost before = enc@;
        let ghost tail = range_list(ranges@.skip(i + 1));
        assert(ranges@.skip(i as int).skip(1) =~= ranges@.skip(i + 1));
        assert(ranges@.skip(i as int)[0] == ranges@[i as int]);
        enc.uint(ranges[i].0);
        enc.uint(ranges[i].1);
        assert(enc@ + tail =~= before + (varint(ranges@[i as int].0 as nat) + varint(
            ranges@[i as int].1 as nat,
        ) + tail));
        i += 1;
    }
    assert(ranges@.skip(i as int) =~= Seq::<(u64, u64)>::empty());
    assert(enc@ + Seq::<u8>::empty() =~= enc@);
}

fn take_number(dec: &mut Decoder) -> (r: Result<u64, SyncError>)
    requires
        old(dec).wf(),
    ensures
        final(dec).wf(),
        match read_number(old(dec)@) {
            Ok((v, rest)) => r == Ok::<u64, SyncError>(v) && final(dec)@ == rest,
            Err(e) => r == Err::<u64, SyncError>(e),
        },
{
    match dec.uint() {
        Ok(v) => Ok(v),
        Err(e) => Err(SyncError::Wire(e)),
    }
}

fn take_hash(dec: &mut Decoder) -> (r: Result<Digest, SyncError>)
    requires
        old(dec).wf(),
    ensures
        final(dec).wf(),
        match read_hash(old(dec)@) {
            Ok((v, rest)) => r == Ok::<Digest, SyncError>(v) && final(dec)@ == rest,
            Err(e) => r == Err::<Digest, SyncError>(e),
        },
{
    match dec.array::<32>() {
        Ok(v) => {
            proof {
                lemma_array_of(v);
            }
            Ok(v)
        },
        Err(e) => Err(SyncError::Wire(e)),
    }
}

fn take_run<'a>(dec: &mut Decoder<'a>) -> (r: Result<&'a [u8], SyncError>)
    requires
        old(dec).wf(),
    ensures
        final(dec).wf(),
        match read_run(old(dec)@) {
            Ok((v, rest)) => r is Ok && r->Ok_0@ == v && final(dec)@ == rest,
            Err(e) => r == Err::<&'a [u8], SyncError>(e),
        },
{
    match dec.bytes() {
        Ok(v) => Ok(v),
        Err(e) => Err(SyncError::Wire(e)),
    }
}

fn take_block(dec: &mut Decoder) -> (r: Result<Message, SyncError>)
    requires
        old(dec).wf(),
    ensures
        final(dec).wf(),
        match read_block(old(dec)@) {
            Ok((v, rest)) => r is Ok && r->Ok_0@ == v && final(dec)@ == rest,
            Err(e) => r == Err::<Message, SyncError>(e),
        },
{
    let index: u64 = match take_number(dec) {
        Ok(v) => v,
        Err(e) => {
            return Err(e);
        },
    };
    let data: &[u8] = match take_run(dec) {
        Ok(v) => v,
        Err(e) => {
            return Err(e);
        },
    };
    let proof: Proof = match take_run(dec) {
        Ok(b) => match Proof::decode(b) {
            Ok(p) => p,
            Err(e) => {
                return Err(SyncError::Feed(e));
            },
        },
        Err(e) => {
            return Err(e);
        },
    };
    Ok(Message::Block { index, data: copy_of(data), proof })
}

fn take_peaks(dec: &mut Decoder) -> (r: Result<Vec<(u64, Digest)>, SyncError>)
    requires
        old(dec).wf(),
    ensures
        final(dec).wf(),
        match read_counted_peaks(old(dec)@) {
            Ok((v, rest)) => r is Ok && r->Ok_0@ == v && final(dec)@ == rest,
            Err(e) => r == Err::<Vec<(u64, Digest)>, SyncError>(e),
        },
{
    let n: u64 = match take_number(dec) {
        Ok(v) => v,
        Err(e) => {
            return Err(e);
        },
    };
    if n > MAX_PEAKS {
        return Err(SyncError::Malformed("too many peaks"));
    }
    if n > dec.remaining() as u64 / 33 {
        return Err(SyncError::Malformed("peak count exceeds buffer"));
    }
    let ghost s0 = dec@;
    let mut out: Vec<(u64, Digest)> = Vec::new();
    let mut i: u64 = 0;
    proof {
        if let Ok((more, rest)) = read_peaks(s0, n as nat) {
            assert(out@ + more =~= more);
        }
    }
    while i < n
        invariant
            i <= n,
            dec.wf(),
            read_counted_peaks(old(dec)@) == read_peaks(s0, n as nat),
            match read_peaks(dec@, (n - i) as nat) {
                Ok((more, rest)) => read_peaks(s0, n as nat) == Ok::<
                    (Seq<(u64, Digest)>, Seq<u8>),
                    SyncError,
                >((out@ + more, rest)),
                Err(e) => read_peaks(s0, n as nat) == Err::<
                    (Seq<(u64, Digest)>, Seq<u8>),
                    SyncError,
                >(e),
            },
        decreases n - i,
    {
        let ghost had = out@;
        let index: u64 = match take_number(dec) {
            Ok(v) => v,
            Err(e) => {
                return Err(e);
            },
        };
        let hash: Digest = match take_hash(dec) {
            Ok(v) => v,
            Err(e) => {
                return Err(e);
            },
        };
        out.push((index, hash));
        proof {
            if let Ok((more, rest)) = read_peaks(dec@, (n - i - 1) as nat) {
                assert(had + (seq![(index, hash)] + more) =~= out@ + more);
            }
        }
        i += 1;
    }
    assert(out@ + Seq::<(u64, Digest)>::empty() =~= out@);
    Ok(out)
}

fn take_ranges(dec: &mut Decoder) -> (r: Result<Vec<(u64, u64)>, SyncError>)
    requires
        old(dec).wf(),
    ensures
        final(dec).wf(),
        match read_counted_ranges(old(dec)@) {
            Ok((v, rest)) => r is Ok && r->Ok_0@ == v && final(dec)@ == rest,
            Err(e) => r == Err::<Vec<(u64, u64)>, SyncError>(e),
        },
{
    let n: u64 = match take_number(dec) {
        Ok(v) => v,
        Err(e) => {
            return Err(e);
        },
    };
    if n > MAX_HAVE_RANGES {
        return Err(SyncError::Malformed("too many ranges"));
    }
    if n > dec.remaining() as u64 / 2 {
        return Err(SyncError::Malformed("range count exceeds buffer"));
    }
    let ghost s0 = dec@;
    let mut out: Vec<(u64, u64)> = Vec::new();
    let mut i: u64 = 0;
    proof {
        if let Ok((more, rest)) = read_ranges(s0, n as nat) {
            assert(out@ + more =~= more);
        }
    }
    while i < n
        invariant
            i <= n,
            dec.wf(),
            read_counted_ranges(old(dec)@) == read_ranges(s0, n as nat),
            match read_ranges(dec@, (n - i) as nat) {
                Ok((more, rest)) => read_ranges(s0, n as nat) == Ok::<
                    (Seq<(u64, u64)>, Seq<u8>),
                    SyncError,
                >((out@ + more, rest)),
                Err(e) => read_ranges(s0, n as nat) == Err::<
                    (Seq<(u64, u64)>, Seq<u8>),
                    SyncError,
                >(e),
            },
        decreases n - i,
    {
        let ghost had = out@;
        let start: u64 = match take_number(dec) {
            Ok(v) => v,
            Err(e) => {
                return Err(e);
            },
        };
        let end: u64 = match take_number(dec) {
            Ok(v) => v,
            Err(e) => {
                return Err(e);
            },
        };
        out.push((start, end));
        proof {
            if let Ok((more, rest)) = read_ranges(dec@, (n - i - 1) as nat) {
                assert(had + (seq![(start, end)] + more) =~= out@ + more);
            }
        }
        i += 1;
    }
    assert(out@ + Seq::<(u64, u64)>::empty() =~= out@);
    Ok(out)
}

fn take_body(kind: u8, dec: &mut Decoder) -> (r: Result<Message, SyncError>)
    requires
        old(dec).wf(),
    ensures
        final(dec).wf(),
        match read_body(kind, old(dec)@) {
            Ok((v, rest)) => r is Ok && r->Ok_0@ == v && final(dec)@ == rest,
            Err(e) => r == Err::<Message, SyncError>(e),
        },
{
    if kind == KIND_GET_HEAD {
        Ok(Message::GetHead)
    } else if kind == KIND_TAIL {
        match take_number(dec) {
            Ok(have) => Ok(Message::Tail { have }),
            Err(e) => Err(e),
        }
    } else if kind == KIND_HEAD {
        match take_run(dec) {
            Ok(b) => match Head::decode(b) {
                Ok(head) => Ok(Message::Head(head)),
                Err(e) => Err(SyncError::Feed(e)),
            },
            Err(e) => Err(e),
        }
    } else if kind == KIND_GET_BLOCK {
        match take_number(dec) {
            Ok(index) => Ok(Message::GetBlock { index }),
            Err(e) => Err(e),
        }
    } else if kind == KIND_BLOCK {
        take_block(dec)
    } else if kind == KIND_GET_MANIFEST {
        match take_hash(dec) {
            Ok(id) => Ok(Message::GetManifest { id }),
            Err(e) => Err(e),
        }
    } else if kind == KIND_MANIFEST {
        match take_run(dec) {
            Ok(b) => match Manifest::decode(b) {
                Ok(m) => Ok(Message::Manifest(m)),
                Err(e) => Err(SyncError::Blob(e)),
            },
            Err(e) => Err(e),
        }
    } else if kind == KIND_GET_CHUNK {
        match take_hash(dec) {
            Ok(hash) => Ok(Message::GetChunk { hash }),
            Err(e) => Err(e),
        }
    } else if kind == KIND_CHUNK {
        match take_run(dec) {
            Ok(data) => Ok(Message::Chunk { data: copy_of(data) }),
            Err(e) => Err(e),
        }
    } else if kind == KIND_GET_HAVE {
        match take_hash(dec) {
            Ok(id) => Ok(Message::GetHave { id }),
            Err(e) => Err(e),
        }
    } else if kind == KIND_HAVE {
        match take_run(dec) {
            Ok(bits) => Ok(Message::Have { bits: copy_of(bits) }),
            Err(e) => Err(e),
        }
    } else if kind == KIND_GET_PEAKS {
        Ok(Message::GetPeaks)
    } else if kind == KIND_PEAKS {
        match take_peaks(dec) {
            Ok(nodes) => Ok(Message::Peaks { nodes }),
            Err(e) => Err(e),
        }
    } else if kind == KIND_GET_FEED_HAVE {
        Ok(Message::GetFeedHave)
    } else if kind == KIND_FEED_HAVE {
        match take_ranges(dec) {
            Ok(ranges) => Ok(Message::FeedHave { ranges }),
            Err(e) => Err(e),
        }
    } else if kind == KIND_ABSENT {
        Ok(Message::Absent)
    } else {
        Err(SyncError::Malformed("unknown message kind"))
    }
}

impl Message {
    /// Encode the message for transfer.
    pub fn encode(&self) -> (r: Vec<u8>)
        ensures
            r@ == message_bytes(self@),
    {
        let mut enc = Encoder::new();
        match self {
            Message::GetHead => {
                enc.u8(KIND_GET_HEAD);
            },
            Message::Tail { have } => {
                enc.u8(KIND_TAIL);
                enc.uint(*have);
            },
            Message::Head(head) => {
                enc.u8(KIND_HEAD);
                let b: Vec<u8> = head.encode();
                enc.bytes(b.as_slice());
            },
            Message::GetBlock { index } => {
                enc.u8(KIND_GET_BLOCK);
                enc.uint(*index);
            },
            Message::Block { index, data, proof } => {
                enc.u8(KIND_BLOCK);
                enc.uint(*index);
                enc.bytes(data.as_slice());
                let b: Vec<u8> = proof.encode();
                enc.bytes(b.as_slice());
            },
            Message::GetManifest { id } => {
                enc.u8(KIND_GET_MANIFEST);
                enc.raw(id);
            },
            Message::Manifest(manifest) => {
                enc.u8(KIND_MANIFEST);
                let b: Vec<u8> = manifest.encode();
                enc.bytes(b.as_slice());
            },
            Message::GetChunk { hash } => {
                enc.u8(KIND_GET_CHUNK);
                enc.raw(hash);
            },
            Message::Chunk { data } => {
                enc.u8(KIND_CHUNK);
                enc.bytes(data.as_slice());
            },
            Message::GetHave { id } => {
                enc.u8(KIND_GET_HAVE);
                enc.raw(id);
            },
            Message::Have { bits } => {
                enc.u8(KIND_HAVE);
                enc.bytes(bits.as_slice());
            },
            Message::GetPeaks => {
                enc.u8(KIND_GET_PEAKS);
            },
            Message::Peaks { nodes } => {
                enc.u8(KIND_PEAKS);
                enc.uint(nodes.len() as u64);
                put_peaks(&mut enc, nodes);
            },
            Message::GetFeedHave => {
                enc.u8(KIND_GET_FEED_HAVE);
            },
            Message::FeedHave { ranges } => {
                enc.u8(KIND_FEED_HAVE);
                enc.uint(ranges.len() as u64);
                put_ranges(&mut enc, ranges);
            },
            Message::Absent => {
                enc.u8(KIND_ABSENT);
            },
        }
        let r = enc.into_vec();
        assert(r@ =~= message_bytes(self@));
        r
    }

    /// Decode a message from bytes.
    pub fn decode(buf: &[u8]) -> (r: Result<Message, SyncError>)
        ensures
            match read_message(buf@) {
                Ok(m) => r is Ok && r->Ok_0@ == m,
                Err(e) => r == Err::<Message, SyncError>(e),
            },
    {
        let mut dec = Decoder::new(buf);
        let kind: u8 = match dec.u8() {
            Ok(v) => v,
            Err(e) => {
                return Err(SyncError::Wire(e));
            },
        };
        let msg: Message = match take_body(kind, &mut dec) {
            Ok(m) => m,
            Err(e) => {
                return Err(e);
            },
        };
        match dec.finish() {
            Ok(_) => Ok(msg),
            Err(e) => Err(SyncError::Wire(e)),
        }
    }

    /// Whether this is a request (rather than a response). The transport uses
    /// this to drop a message arriving in the wrong direction.
    pub fn is_request(&self) -> (r: bool)
        ensures
            r == requests(self@),
    {
        match self {
            Message::GetHead => true,
            Message::Tail { .. } => true,
            Message::GetBlock { .. } => true,
            Message::GetManifest { .. } => true,
            Message::GetChunk { .. } => true,
            Message::GetHave { .. } => true,
            Message::GetPeaks => true,
            Message::GetFeedHave => true,
            _ => false,
        }
    }
}

proof fn lemma_peaks_roundtrip(s: Seq<(u64, Digest)>, rest: Seq<u8>)
    ensures
        read_peaks(peak_list(s) + rest, s.len()) == Ok::<(Seq<(u64, Digest)>, Seq<u8>), SyncError>(
            (s, rest),
        ),
        peak_list(s).len() >= 33 * s.len(),
    decreases s.len(),
{
    if s.len() == 0 {
        assert(peak_list(s) + rest =~= rest);
        assert(s =~= Seq::<(u64, Digest)>::empty());
    } else {
        let more = peak_list(s.skip(1)) + rest;
        assert(peak_list(s) + rest =~= varint(s[0].0 as nat) + (s[0].1@ + more));
        lemma_uint_roundtrip(s[0].0, s[0].1@ + more);
        lemma_raw_roundtrip(s[0].1@, more);
        lemma_array_of(s[0].1);
        lemma_peaks_roundtrip(s.skip(1), rest);
        assert(seq![s[0]] + s.skip(1) =~= s);
    }
}

proof fn lemma_ranges_roundtrip(s: Seq<(u64, u64)>, rest: Seq<u8>)
    ensures
        read_ranges(range_list(s) + rest, s.len()) == Ok::<(Seq<(u64, u64)>, Seq<u8>), SyncError>(
            (s, rest),
        ),
        range_list(s).len() >= 2 * s.len(),
    decreases s.len(),
{
    if s.len() == 0 {
        assert(range_list(s) + rest =~= rest);
        assert(s =~= Seq::<(u64, u64)>::empty());
    } else {
        let more = range_list(s.skip(1)) + rest;
        assert(range_list(s) + rest =~= varint(s[0].0 as nat) + (varint(s[0].1 as nat) + more));
        lemma_uint_roundtrip(s[0].0, varint(s[0].1 as nat) + more);
        lemma_uint_roundtrip(s[0].1, more);
        lemma_ranges_roundtrip(s.skip(1), rest);
        assert(seq![s[0]] + s.skip(1) =~= s);
    }
}

/// Whether a message keeps the caps on what it lists, and its lengths can be
/// written down.
pub open spec fn sendable(m: MessageView) -> bool {
    match m {
        MessageView::Block { data, proof, .. } => data.len() <= u64::MAX && proof.len() <= u64::MAX
            && proof_bytes(proof).len() <= u64::MAX,
        MessageView::Manifest(chunks) => chunks.len() <= u64::MAX && manifest_bytes(chunks).len()
            <= u64::MAX,
        MessageView::Chunk { data } => data.len() <= u64::MAX,
        MessageView::Have { bits } => bits.len() <= u64::MAX,
        MessageView::Peaks { nodes } => nodes.len() <= MAX_PEAKS,
        MessageView::FeedHave { ranges } => ranges.len() <= MAX_HAVE_RANGES,
        _ => true,
    }
}

proof fn lemma_block_roundtrip(index: u64, data: Seq<u8>, proof: Seq<Digest>, rest: Seq<u8>)
    requires
        sendable(MessageView::Block { index, data, proof }),
    ensures
        read_block(
            varint(index as nat) + with_length(data) + with_length(proof_bytes(proof)) + rest,
        ) == Ok::<(MessageView, Seq<u8>), SyncError>(
            (MessageView::Block { index, data, proof }, rest),
        ),
{
    let s2 = with_length(proof_bytes(proof)) + rest;
    let s1 = with_length(data) + s2;
    assert(varint(index as nat) + with_length(data) + with_length(proof_bytes(proof)) + rest
        =~= varint(index as nat) + s1);
    lemma_uint_roundtrip(index, s1);
    lemma_bytes_roundtrip(data, s2);
    lemma_bytes_roundtrip(proof_bytes(proof), rest);
    law_proof_roundtrip(proof);
}

proof fn lemma_message_read(m: MessageView, rest: Seq<u8>)
    requires
        sendable(m),
    ensures
        read_message(message_bytes(m) + rest) == match read_end(rest) {
            Ok(_) => Ok::<MessageView, SyncError>(m),
            Err(e) => Err(SyncError::Wire(e)),
        },
{
    let kind = message_bytes(m)[0];
    let body = message_bytes(m).skip(1) + rest;
    assert(message_bytes(m) + rest =~= seq![kind] + body);
    lemma_u8_roundtrip(kind, body);
    match m {
        MessageView::Tail { have } => {
            assert(body =~= varint(have as nat) + rest);
            lemma_uint_roundtrip(have, rest);
        },
        MessageView::Head(head) => {
            assert(body =~= with_length(head_bytes(head)) + rest);
            lemma_uint_roundtrip(head.len, rest);
            lemma_bytes_roundtrip(head_bytes(head), rest);
            law_head_roundtrip(head);
        },
        MessageView::GetBlock { index } => {
            assert(body =~= varint(index as nat) + rest);
            lemma_uint_roundtrip(index, rest);
        },
        MessageView::Block { index, data, proof } => {
            assert(body =~= varint(index as nat) + with_length(data) + with_length(
                proof_bytes(proof),
            ) + rest);
            lemma_block_roundtrip(index, data, proof, rest);
        },
        MessageView::GetManifest { id } => {
            assert(body =~= id@ + rest);
            lemma_raw_roundtrip(id@, rest);
            lemma_array_of(id);
        },
        MessageView::Manifest(chunks) => {
            assert(body =~= with_length(manifest_bytes(chunks)) + rest);
            lemma_bytes_roundtrip(manifest_bytes(chunks), rest);
            law_manifest_roundtrip(chunks);
        },
        MessageView::GetChunk { hash } => {
            assert(body =~= hash@ + rest);
            lemma_raw_roundtrip(hash@, rest);
            lemma_array_of(hash);
        },
        MessageView::Chunk { data } => {
            assert(body =~= with_length(data) + rest);
            lemma_bytes_roundtrip(data, rest);
        },
        MessageView::GetHave { id } => {
            assert(body =~= id@ + rest);
            lemma_raw_roundtrip(id@, rest);
            lemma_array_of(id);
        },
        MessageView::Have { bits } => {
            assert(body =~= with_length(bits) + rest);
            lemma_bytes_roundtrip(bits, rest);
        },
        MessageView::Peaks { nodes } => {
            let list = peak_list(nodes) + rest;
            assert(body =~= varint(nodes.len()) + list);
            lemma_uint_roundtrip(nodes.len() as u64, list);
            lemma_peaks_roundtrip(nodes, rest);
            assert(list.len() / 33 >= nodes.len()) by (nonlinear_arith)
                requires
                    list.len() >= 33 * nodes.len(),
            ;
        },
        MessageView::FeedHave { ranges } => {
            let list = range_list(ranges) + rest;
            assert(body =~= varint(ranges.len()) + list);
            lemma_uint_roundtrip(ranges.len() as u64, list);
            lemma_ranges_roundtrip(ranges, rest);
            assert(list.len() / 2 >= ranges.len()) by (nonlinear_arith)
                requires
                    list.len() >= 2 * ranges.len(),
            ;
        },
        _ => {
            assert(body =~= rest);
        },
    }
}

/// A message is read back from its bytes.
pub proof fn law_message_roundtrip(m: MessageView)
    requires
        sendable(m),
    ensures
        read_message(message_bytes(m)) == Ok::<MessageView, SyncError>(m),
{
    lemma_message_read(m, Seq::empty());
    assert(message_bytes(m) + Seq::<u8>::empty() =~= message_bytes(m));
}

/// A message with anything behind it is refused.
pub proof fn law_trailing_bytes_are_refused(m: MessageView, more: Seq<u8>)
    requires
        sendable(m),
        more.len() > 0,
    ensures
        read_message(message_bytes(m) + more) == Err::<MessageView, SyncError>(
            SyncError::Wire(WireError::TrailingBytes(more.len() as usize)),
        ),
{
    lemma_message_read(m, more);
}

/// A message that asks for something is a request, and what is sent in answer is not.
pub proof fn law_requests_and_answers(m: MessageView)
    ensures
        requests(m) <==> match m {
            MessageView::GetHead | MessageView::Tail { .. } => true,
            MessageView::GetBlock { .. } | MessageView::GetManifest { .. } => true,
            MessageView::GetChunk { .. } | MessageView::GetHave { .. } => true,
            MessageView::GetPeaks | MessageView::GetFeedHave => true,
            MessageView::Head(_) | MessageView::Block { .. } | MessageView::Manifest(_) => false,
            MessageView::Chunk { .. } | MessageView::Have { .. } => false,
            MessageView::Peaks { .. } | MessageView::FeedHave { .. } => false,
            MessageView::Absent => false,
        },
{
}

} // verus!
