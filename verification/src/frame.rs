//! Framing and selective-repeat reliability over datagrams.
//!
//! [`fragment`] splits an encoded message into datagram-sized pieces, each
//! tagged with a message id and its index; a [`Reassembler`] collects those
//! pieces back and reports, via [`Reassembler::missing`], which indices are
//! outstanding; a [`Packet::Nack`] carries that set back to the sender.
use crate::bytes::{append, copy_of, part};
use crate::wire::{
    lemma_u8_roundtrip, lemma_uint_roundtrip, read_u8, read_uint, varint, Decoder, Encoder, Reading,
};
use std::collections::HashMap;
use vstd::prelude::*;

verus! {

broadcast use vstd::std_specs::hash::group_hash_axioms;

/// Upper bound on a reassembled message: sixteen mebibytes.
pub const MAX_MESSAGE: usize = 16_777_216;

/// Cap on the number of fragments in one message.
pub const MAX_FRAGMENTS: u64 = 65_536;

/// Most missing indices to list in one [`Packet::Nack`].
pub const NACK_MAX_INDICES: usize = 256;

/// Bytes reserved in each datagram for a `Data` header.
pub const HEADER_BUDGET: usize = 32;

/// The tag of a fragment.
pub const TAG_DATA: u8 = 0;

/// The tag of a request to resend.
pub const TAG_NACK: u8 = 1;

/// A datagram on the channel: either one fragment of a message, or a request to
/// resend fragments that didn't arrive.
#[derive(Debug, Clone, PartialEq, Eq)]
pub enum Packet {
    /// One fragment of message `id`: fragment `index` of `count`.
    Data {
        /// The message this fragment belongs to.
        id: u64,
        /// This fragment's position in the message.
        index: u64,
        /// Total fragments the message was split into.
        count: u64,
        /// The fragment's slice of the message bytes.
        payload: Vec<u8>,
    },
    /// A request to resend the listed fragment `indices` of message `id`.
    Nack {
        /// The message whose fragments are being requested.
        id: u64,
        /// The missing fragment indices to resend.
        indices: Vec<u64>,
    },
}

/// A [`Packet`] as a mathematical value.
#[verifier::ext_equal]
pub enum PacketView {
    /// One fragment.
    Data { id: u64, index: u64, count: u64, payload: Seq<u8> },
    /// A request to resend.
    Nack { id: u64, indices: Seq<u64> },
}

impl View for Packet {
    type V = PacketView;

    open spec fn view(&self) -> PacketView {
        match self {
            Packet::Data { id, index, count, payload } => PacketView::Data {
                id: *id,
                index: *index,
                count: *count,
                payload: payload@,
            },
            Packet::Nack { id, indices } => PacketView::Nack { id: *id, indices: indices@ },
        }
    }
}

/// The datagram of one fragment.
pub open spec fn data_bytes(id: u64, index: u64, count: u64, payload: Seq<u8>) -> Seq<u8> {
    seq![TAG_DATA] + varint(id as nat) + varint(index as nat) + varint(count as nat) + payload
}

/// Integers one after the other.
pub open spec fn varints(v: Seq<u64>) -> Seq<u8>
    decreases v.len(),
{
    if v.len() == 0 {
        Seq::empty()
    } else {
        varints(v.drop_last()) + varint(v.last() as nat)
    }
}

/// The datagram of a request to resend.
pub open spec fn nack_bytes(id: u64, indices: Seq<u64>) -> Seq<u8> {
    seq![TAG_NACK] + varint(id as nat) + varint(indices.len()) + varints(indices)
}

/// Reading `k` integers.
pub open spec fn read_uints(s: Seq<u8>, k: nat) -> Reading<Seq<u64>>
    decreases k,
{
    if k == 0 {
        Ok((Seq::empty(), s))
    } else {
        match read_uints(s, (k - 1) as nat) {
            Ok((v, rest)) => match read_uint(rest) {
                Ok((x, rest)) => Ok((v.push(x), rest)),
                Err(e) => Err(e),
            },
            Err(e) => Err(e),
        }
    }
}

/// Reading what follows the tag of a fragment.
pub open spec fn read_data(s: Seq<u8>) -> Option<PacketView> {
    match read_uint(s) {
        Ok((id, s)) => match read_uint(s) {
            Ok((index, s)) => match read_uint(s) {
                Ok((count, payload)) => Some(PacketView::Data { id, index, count, payload }),
                Err(_) => None,
            },
            Err(_) => None,
        },
        Err(_) => None,
    }
}

/// Reading what follows the tag of a request to resend.
pub open spec fn read_nack(s: Seq<u8>) -> Option<PacketView> {
    match read_uint(s) {
        Ok((id, s)) => match read_uint(s) {
            Ok((k, s)) => if k > NACK_MAX_INDICES {
                None
            } else {
                match read_uints(s, k as nat) {
                    Ok((indices, s)) => if s.len() == 0 {
                        Some(PacketView::Nack { id, indices })
                    } else {
                        None
                    },
                    Err(_) => None,
                }
            },
            Err(_) => None,
        },
        Err(_) => None,
    }
}

/// Reading a datagram.
pub open spec fn read_packet(s: Seq<u8>) -> Option<PacketView> {
    match read_u8(s) {
        Ok((tag, s)) => if tag == TAG_DATA {
            read_data(s)
        } else if tag == TAG_NACK {
            read_nack(s)
        } else {
            None
        },
        Err(_) => None,
    }
}

/// Every fragment datagram is read back as the fragment it was made from.
pub proof fn law_data_roundtrip(id: u64, index: u64, count: u64, payload: Seq<u8>)
    ensures
        read_packet(data_bytes(id, index, count, payload)) == Some(
            PacketView::Data { id, index, count, payload },
        ),
{
    let c = varint(count as nat) + payload;
    let b = varint(index as nat) + c;
    let a = varint(id as nat) + b;
    assert(data_bytes(id, index, count, payload) =~= seq![TAG_DATA] + a);
    lemma_u8_roundtrip(TAG_DATA, a);
    lemma_uint_roundtrip(id, b);
    lemma_uint_roundtrip(index, c);
    lemma_uint_roundtrip(count, payload);
}

proof fn lemma_uints_roundtrip(v: Seq<u64>, rest: Seq<u8>)
    ensures
        read_uints(varints(v) + rest, v.len()) == Ok::<
            (Seq<u64>, Seq<u8>),
            crate::wire::WireError,
        >((v, rest)),
    decreases v.len(),
{
    if v.len() > 0 {
        let tail = varint(v.last() as nat) + rest;
        lemma_uints_roundtrip(v.drop_last(), tail);
        lemma_uint_roundtrip(v.last(), rest);
        assert(varints(v) + rest =~= varints(v.drop_last()) + tail);
        assert(v.drop_last().push(v.last()) =~= v);
    } else {
        assert(varints(v) + rest =~= rest);
        assert(v =~= Seq::empty());
    }
}

/// Every request to resend that lists no more than the cap is read back as the
/// request it was made from.
pub proof fn law_nack_roundtrip(id: u64, indices: Seq<u64>)
    requires
        indices.len() <= NACK_MAX_INDICES,
    ensures
        read_packet(nack_bytes(id, indices)) == Some(PacketView::Nack { id, indices }),
{
    let c = varints(indices);
    let b = varint(indices.len()) + c;
    let a = varint(id as nat) + b;
    assert(nack_bytes(id, indices) =~= seq![TAG_NACK] + a);
    lemma_u8_roundtrip(TAG_NACK, a);
    lemma_uint_roundtrip(id, b);
    lemma_uint_roundtrip(indices.len() as u64, c);
    lemma_uints_roundtrip(indices, Seq::empty());
    assert(c + Seq::empty() =~= c);
}

impl Packet {
    /// Decode a datagram, or `None` if it isn't a well-formed packet (junk, a
    /// truncated header, or an abusive count).
    pub fn decode(datagram: &[u8]) -> (r: Option<Packet>)
        ensures
            match read_packet(datagram@) {
                Some(p) => r is Some && r->0@ == p,
                None => r is None,
            },
    {
        let mut dec = Decoder::new(datagram);
        let tag: u8 = match dec.u8() {
            Ok(tag) => tag,
            Err(_) => {
                return None;
            },
        };
        if tag == TAG_DATA {
            let id: u64 = match dec.uint() {
                Ok(v) => v,
                Err(_) => {
                    return None;
                },
            };
            let index: u64 = match dec.uint() {
                Ok(v) => v,
                Err(_) => {
                    return None;
                },
            };
            let count: u64 = match dec.uint() {
                Ok(v) => v,
                Err(_) => {
                    return None;
                },
            };
            let ghost left = dec@;
            let remaining: usize = dec.remaining();
            match dec.raw(remaining) {
                Ok(payload) => {
                    assert(payload@ =~= left);
                    Some(Packet::Data { id, index, count, payload: copy_of(payload) })
                },
                Err(_) => None,
            }
        } else if tag == TAG_NACK {
            let id: u64 = match dec.uint() {
                Ok(v) => v,
                Err(_) => {
                    return None;
                },
            };
            let k: u64 = match dec.uint() {
                Ok(v) => v,
                Err(_) => {
                    return None;
                },
            };
            if k > NACK_MAX_INDICES as u64 {
                return None;
            }
            let ghost start = dec@;
            let mut indices: Vec<u64> = Vec::with_capacity(k as usize);
            let mut i: u64 = 0;
            #[verifier::loop_isolation(false)]
            while i < k
                invariant
                    i <= k,
                    dec.wf(),
                    read_uints(start, i as nat) == Ok::<
                        (Seq<u64>, Seq<u8>),
                        crate::wire::WireError,
                    >((indices@, dec@)),
                decreases k - i,
            {
                match dec.uint() {
                    Ok(v) => {
                        indices.push(v);
                    },
                    Err(e) => {
                        proof {
                            lemma_uints_stuck(start, i as nat + 1, k as nat);
                        }
                        return None;
                    },
                }
                i += 1;
            }
            match dec.finish() {
                Ok(_) => Some(Packet::Nack { id, indices }),
                Err(_) => None,
            }
        } else {
            None
        }
    }
}

/// Where fewer integers cannot be read, more cannot either.
proof fn lemma_uints_stuck(s: Seq<u8>, i: nat, k: nat)
    requires
        i <= k,
        read_uints(s, i) is Err,
    ensures
        read_uints(s, k) is Err,
    decreases k - i,
{
    if i < k {
        assert(read_uints(s, i + 1) is Err);
        lemma_uints_stuck(s, i + 1, k);
    }
}

/// Encode a `Data` datagram for one fragment.
pub fn data_datagram(id: u64, index: u64, count: u64, payload: &[u8]) -> (r: Vec<u8>)
    ensures
        r@ == data_bytes(id, index, count, payload@),
{
    let mut enc = Encoder::new();
    enc.u8(TAG_DATA);
    enc.uint(id);
    enc.uint(index);
    enc.uint(count);
    enc.raw(payload);
    assert(enc@ =~= data_bytes(id, index, count, payload@));
    enc.into_vec()
}

/// Encode a `Nack` datagram asking the sender to resend `indices` of message
/// `id`. The caller keeps `indices` within [`NACK_MAX_INDICES`] so it fits one
/// datagram.
pub fn nack_datagram(id: u64, indices: &[u64]) -> (r: Vec<u8>)
    ensures
        r@ == nack_bytes(id, indices@),
{
    let mut enc = Encoder::new();
    enc.u8(TAG_NACK);
    enc.uint(id);
    enc.uint(indices.len() as u64);
    let ghost head = enc@;
    let mut i: usize = 0;
    assert(head + varints(indices@.take(0)) =~= head);
    while i < indices.len()
        invariant
            i <= indices.len(),
            enc@ == head + varints(indices@.take(i as int)),
        decreases indices.len() - i,
    {
        enc.uint(indices[i]);
        assert(indices@.take(i + 1).drop_last() =~= indices@.take(i as int));
        assert(enc@ =~= head + varints(indices@.take(i + 1)));
        i += 1;
    }
    assert(indices@.take(i as int) =~= indices@);
    assert(enc@ =~= nack_bytes(id, indices@));
    enc.into_vec()
}

/// How many payload bytes a fragment carries.
pub open spec fn budget(datagram: int) -> int {
    datagram - HEADER_BUDGET
}

/// How many fragments a message of `len` bytes takes; even an empty one takes
/// one.
pub open spec fn piece_count(len: int, datagram: int) -> int {
    if len == 0 {
        1
    } else {
        (len + budget(datagram) - 1) / budget(datagram)
    }
}

/// The `i`-th piece of a message.
pub open spec fn piece(payload: Seq<u8>, datagram: int, i: int) -> Seq<u8> {
    let start = i * budget(datagram);
    let end = (i + 1) * budget(datagram);
    payload.subrange(
        start,
        if end < payload.len() {
            end
        } else {
            payload.len() as int
        },
    )
}

/// The piece count is the least number of full budgets that covers the message.
pub proof fn lemma_piece_count(len: int, datagram: int)
    requires
        len >= 0,
        datagram > HEADER_BUDGET,
    ensures
        piece_count(len, datagram) >= 1,
        (piece_count(len, datagram) - 1) * budget(datagram) <= len,
        len <= piece_count(len, datagram) * budget(datagram),
        len > 0 ==> (piece_count(len, datagram) - 1) * budget(datagram) < len,
        piece_count(len, datagram) == if len == 0 {
            1
        } else {
            len / budget(datagram) + if len % budget(datagram) == 0 {
                0int
            } else {
                1int
            }
        },
{
    let b = budget(datagram);
    let c = piece_count(len, datagram);
    if len > 0 {
        assert(c >= 1 && (c - 1) * b < len && len <= c * b && c == len / b + if len % b == 0 {
            0int
        } else {
            1int
        }) by (nonlinear_arith)
            requires
                c == (len + b - 1) / b,
                len > 0,
                b > 0,
        ;
    } else {
        assert((c - 1) * b == 0) by (nonlinear_arith)
            requires
                c == 1,
        ;
        assert(c * b == b) by (nonlinear_arith)
            requires
                c == 1,
        ;
    }
}

fn piece_bounds(len: usize, datagram: usize) -> (r: (usize, usize))
    requires
        datagram > HEADER_BUDGET,
    ensures
        r.0 == budget(datagram as int),
        r.1 == piece_count(len as int, datagram as int),
{
    let budget: usize = datagram - HEADER_BUDGET;
    proof {
        lemma_piece_count(len as int, datagram as int);
    }
    if len == 0 {
        (budget, 1)
    } else if len % budget == 0 {
        (budget, len / budget)
    } else {
        assert(len / budget < len) by (nonlinear_arith)
            requires
                len > 0,
                budget >= 2,
        ;
        (budget, len / budget + 1)
    }
}

fn make_fragment(msg_id: u64, payload: &[u8], budget: usize, count: usize, i: usize, Ghost(datagram): Ghost<int>) -> (r: Vec<u8>)
    requires
        budget == self::budget(datagram),
        budget > 0,
        count == piece_count(payload@.len() as int, datagram),
        i < count,
    ensures
        r@ == data_bytes(msg_id, i as u64, count as u64, piece(payload@, datagram, i as int)),
{
    let len: usize = payload.len();
    proof {
        lemma_piece_count(payload@.len() as int, datagram);
        assert(0 <= i * budget <= (count - 1) * budget) by (nonlinear_arith)
            requires
                i <= count - 1,
                budget > 0,
                i >= 0,
        ;
        assert((i + 1) * budget == i * budget + budget) by (nonlinear_arith);
        let c = piece_count(payload@.len() as int, datagram);
        assert((c - 1) * self::budget(datagram) == (count - 1) * budget);
        assert(i * self::budget(datagram) == i * budget);
        assert((i + 1) * self::budget(datagram) == (i + 1) * budget);
        assert(i * budget <= len);
    }
    let start: usize = i * budget;
    let end: usize = if len - start > budget {
        start + budget
    } else {
        len
    };
    data_datagram(msg_id, i as u64, count as u64, part(payload, start, end))
}

/// Split `payload` into `Data` fragments that each fit in a `datagram`-byte
/// packet, tagged with `msg_id` so a [`Reassembler`] can group and order them.
/// Always gives at least one fragment.
pub fn fragment(msg_id: u64, payload: &[u8], datagram: usize) -> (r: Vec<Vec<u8>>)
    requires
        datagram > HEADER_BUDGET,
    ensures
        r@.len() == piece_count(payload@.len() as int, datagram as int),
        forall|i: int|
            0 <= i < r@.len() ==> (#[trigger] r@[i])@ == data_bytes(
                msg_id,
                i as u64,
                r@.len() as u64,
                piece(payload@, datagram as int, i),
            ),
{
    let (budget, count) = piece_bounds(payload.len(), datagram);
    let mut out: Vec<Vec<u8>> = Vec::new();
    let mut i: usize = 0;
    while i < count
        invariant
            i <= count,
            out@.len() == i,
            budget == self::budget(datagram as int),
            budget > 0,
            count == piece_count(payload@.len() as int, datagram as int),
            forall|j: int|
                0 <= j < i ==> (#[trigger] out@[j])@ == data_bytes(
                    msg_id,
                    j as u64,
                    count as u64,
                    piece(payload@, datagram as int, j),
                ),
        decreases count - i,
    {
        out.push(make_fragment(msg_id, payload, budget, count, i, Ghost(datagram as int)));
        i += 1;
    }
    out
}

/// Build just the `index`-th `Data` fragment of `payload`, or `None` if `index`
/// is past the fragment count.
pub fn fragment_at(msg_id: u64, payload: &[u8], datagram: usize, index: u64) -> (r: Option<Vec<u8>>)
    requires
        datagram > HEADER_BUDGET,
    ensures
        r is Some <==> index < piece_count(payload@.len() as int, datagram as int),
        r matches Some(d) ==> d@ == data_bytes(
            msg_id,
            index,
            piece_count(payload@.len() as int, datagram as int) as u64,
            piece(payload@, datagram as int, index as int),
        ),
{
    let (budget, count) = piece_bounds(payload.len(), datagram);
    if index >= count as u64 {
        return None;
    }
    Some(make_fragment(msg_id, payload, budget, count, index as usize, Ghost(datagram as int)))
}

/// Every fragment fits the datagram it was made for.
pub proof fn law_fragments_fit(id: u64, payload: Seq<u8>, datagram: int, i: int)
    requires
        datagram > HEADER_BUDGET,
        0 <= i < piece_count(payload.len() as int, datagram),
        piece_count(payload.len() as int, datagram) <= u64::MAX,
    ensures
        data_bytes(
            id,
            i as u64,
            piece_count(payload.len() as int, datagram) as u64,
            piece(payload, datagram, i),
        ).len() <= datagram,
{
    let count = piece_count(payload.len() as int, datagram) as u64;
    lemma_piece_count(payload.len() as int, datagram);
    lemma_uint_roundtrip(id, Seq::empty());
    lemma_uint_roundtrip(i as u64, Seq::empty());
    lemma_uint_roundtrip(count, Seq::empty());
    let b = budget(datagram);
    assert(0 <= i * b <= (count - 1) * b) by (nonlinear_arith)
        requires
            0 <= i <= count - 1,
            b > 0,
    ;
    assert((i + 1) * b == i * b + b) by (nonlinear_arith);
}

/// The fragments of a message a receiver is still missing.
#[derive(Debug, Clone, PartialEq, Eq)]
pub struct Missing {
    /// The message being reassembled.
    pub id: u64,
    /// Indices not yet received, ascending.
    pub indices: Vec<u64>,
}

/// A message being reassembled: the fragments seen so far, keyed by index.
struct Partial {
    id: u64,
    count: usize,
    frags: HashMap<usize, Vec<u8>>,
    bytes: usize,
}

/// A message being reassembled, as a mathematical value.
#[verifier::ext_equal]
pub struct PartialView {
    /// The message's id.
    pub id: u64,
    /// How many fragments make it whole.
    pub count: nat,
    /// The fragments seen so far.
    pub frags: Map<nat, Seq<u8>>,
}

/// The state of a [`Reassembler`] as a mathematical value.
#[verifier::ext_equal]
pub struct ReassemblerView {
    /// The message in progress.
    pub current: Option<PartialView>,
    /// The highest message id accepted.
    pub accepted: Option<u64>,
    /// How many distinct fragments have ever been stored.
    pub stored: nat,
}

/// How many bytes the fragments below `n` hold.
pub open spec fn total(frags: Map<nat, Seq<u8>>, n: nat) -> nat
    decreases n,
{
    if n == 0 {
        0
    } else {
        let k = (n - 1) as nat;
        total(frags, k) + if frags.dom().contains(k) {
            frags[k].len()
        } else {
            0
        }
    }
}

/// The fragments below `n`, joined in order.
pub open spec fn joined(frags: Map<nat, Seq<u8>>, n: nat) -> Seq<u8>
    decreases n,
{
    if n == 0 {
        Seq::empty()
    } else {
        joined(frags, (n - 1) as nat) + frags[(n - 1) as nat]
    }
}

/// The indices below `n` that no fragment has been seen for, ascending.
pub open spec fn absent(frags: Map<nat, Seq<u8>>, n: nat) -> Seq<u64>
    decreases n,
{
    if n == 0 {
        Seq::empty()
    } else if frags.dom().contains((n - 1) as nat) {
        absent(frags, (n - 1) as nat)
    } else {
        absent(frags, (n - 1) as nat).push((n - 1) as u64)
    }
}

/// Whether every fragment has been seen.
pub open spec fn whole(p: PartialView) -> bool {
    forall|i: nat| i < p.count ==> #[trigger] p.frags.dom().contains(i)
}

/// Whether a fragment is considered at all: its framing is sound, it is newer
/// than every accepted message, and it does not contradict or trail the message
/// in progress.
pub open spec fn considered(s: ReassemblerView, id: u64, index: u64, count: u64) -> bool {
    &&& 0 < count <= MAX_FRAGMENTS
    &&& index < count
    &&& (s.accepted matches Some(done) ==> id > done)
    &&& (s.current matches Some(p) ==> id > p.id || (id == p.id && p.count == count))
}

/// The message a considered fragment belongs to: the one in progress, or a
/// fresh one.
pub open spec fn target(s: ReassemblerView, id: u64, count: u64) -> PartialView {
    match s.current {
        Some(p) => if p.id == id {
            p
        } else {
            PartialView { id, count: count as nat, frags: Map::empty() }
        },
        None => PartialView { id, count: count as nat, frags: Map::empty() },
    }
}

/// What feeding in a fragment does: the state after it, and the message it
/// completes.
pub open spec fn pushed(s: ReassemblerView, id: u64, index: u64, count: u64, payload: Seq<u8>) -> (
    ReassemblerView,
    Option<(u64, Seq<u8>)>,
) {
    if !considered(s, id, index, count) {
        (s, None)
    } else {
        let p = target(s, id, count);
        let fresh = !p.frags.dom().contains(index as nat);
        if fresh && total(p.frags, p.count) + payload.len() > MAX_MESSAGE {
            (ReassemblerView { current: Some(p), ..s }, None)
        } else {
            let q = if fresh {
                PartialView { frags: p.frags.insert(index as nat, payload), ..p }
            } else {
                p
            };
            let stored = if fresh {
                s.stored + 1
            } else {
                s.stored
            };
            if whole(q) {
                (
                    ReassemblerView { current: None, stored, ..s },
                    Some((id, joined(q.frags, q.count))),
                )
            } else {
                (ReassemblerView { current: Some(q), stored, ..s }, None)
            }
        }
    }
}

/// A set of indices below `n` has at most `n` members, and exactly `n` if it
/// has all of them.
proof fn lemma_index_count(s: Set<usize>, n: nat)
    requires
        s.finite(),
        forall|x: usize| s.contains(x) ==> x < n,
        n <= usize::MAX,
    ensures
        s.len() <= n,
        s.len() == n <==> forall|x: usize| x < n ==> s.contains(x),
    decreases n,
{
    if n == 0 {
        assert(s =~= Set::empty());
    } else {
        let top = (n - 1) as usize;
        lemma_index_count(s.remove(top), (n - 1) as nat);
        if s.contains(top) {
            assert forall|x: usize| x < n - 1 && (forall|y: usize| y < n ==> s.contains(y)) implies s.remove(
                top,
            ).contains(x) by {}
            assert forall|x: usize|
                x < n && (forall|y: usize| y < n - 1 ==> s.remove(top).contains(y)) implies s.contains(
                x,
            ) by {
                if x != top {
                    assert(s.remove(top).contains(x));
                }
            }
        }
    }
}

proof fn lemma_total_insert(frags: Map<nat, Seq<u8>>, i: nat, v: Seq<u8>, n: nat)
    requires
        !frags.dom().contains(i),
    ensures
        total(frags.insert(i, v), n) == total(frags, n) + if i < n {
            v.len()
        } else {
            0
        },
    decreases n,
{
    if n > 0 {
        lemma_total_insert(frags, i, v, (n - 1) as nat);
    }
}

impl Partial {
    spec fn frag_map(&self) -> Map<nat, Seq<u8>> {
        Map::new(
            |i: nat| i <= usize::MAX && self.frags@.dom().contains(i as usize),
            |i: nat| self.frags@[i as usize]@,
        )
    }

    spec fn view(&self) -> PartialView {
        PartialView { id: self.id, count: self.count as nat, frags: self.frag_map() }
    }

    spec fn wf(&self) -> bool {
        &&& 0 < self.count <= MAX_FRAGMENTS
        &&& self.frags@.dom().finite()
        &&& forall|i: usize| self.frags@.dom().contains(i) ==> i < self.count
        &&& self.bytes == total(self.frag_map(), self.count as nat)
        &&& self.bytes <= MAX_MESSAGE
    }
}

/// Collects the fragments of a message and tracks which are still missing so the
/// receiver can NACK for them. One message is in flight per direction, so this
/// tracks one at a time and follows the newest id it sees.
pub struct Reassembler {
    current: Option<Partial>,
    accepted: Option<u64>,
    stored: usize,
}

impl View for Reassembler {
    type V = ReassemblerView;

    closed spec fn view(&self) -> ReassemblerView {
        ReassemblerView {
            current: match self.current {
                Some(p) => Some(p.view()),
                None => None,
            },
            accepted: self.accepted,
            stored: self.stored as nat,
        }
    }
}

impl Reassembler {
    /// The message in progress is soundly framed, within the size cap, and not whole.
    pub closed spec fn wf(&self) -> bool {
        self.current matches Some(p) ==> p.wf() && !whole(p.view())
    }

    /// A reassembler with nothing in progress.
    pub fn new() -> (r: Self)
        ensures
            r.wf(),
            r@ == (ReassemblerView { current: None, accepted: None, stored: 0 }),
    {
        Reassembler { current: None, accepted: None, stored: 0 }
    }

    /// A reassembler with nothing in progress that already accepted every
    /// message up to `accepted`.
    pub fn resume(accepted: Option<u64>) -> (r: Self)
        ensures
            r.wf(),
            r@ == (ReassemblerView { current: None, accepted, stored: 0 }),
    {
        Reassembler { current: None, accepted, stored: 0 }
    }

    /// The highest message id accepted so far.
    pub fn accepted(&self) -> (r: Option<u64>)
        ensures
            r == self@.accepted,
    {
        self.accepted
    }

    /// Feed a decoded `Data` fragment. Returns `Some((id, payload))` when it
    /// completes a message; the caller decodes `payload` and, on success, calls
    /// [`Reassembler::accept`] with `id` to commit it. Abusive framing (a count
    /// or size past the caps) or a straggler is dropped.
    pub fn push_data(&mut self, id: u64, index: u64, count: u64, payload: Vec<u8>) -> (r: Option<
        (u64, Vec<u8>),
    >)
        requires
            old(self).wf(),
            old(self)@.stored < usize::MAX,
        ensures
            final(self).wf(),
            final(self)@ == pushed(old(self)@, id, index, count, payload@).0,
            match pushed(old(self)@, id, index, count, payload@).1 {
                Some((done, bytes)) => r is Some && r->Some_0.0 == done && r->Some_0.1@ == bytes,
                None => r is None,
            },
    {
        let ghost before = self@;
        if count == 0 || count > MAX_FRAGMENTS || index >= count {
            return None;
        }
        if let Some(done) = self.accepted {
            if id <= done {
                return None;
            }
        }
        let mut partial: Partial = match self.current.take() {
            Some(p) => {
                if p.id == id && p.count as u64 != count || id < p.id {
                    self.current = Some(p);
                    assert(self@ =~= before);
                    return None;
                }
                if p.id == id {
                    p
                } else {
                    fresh_partial(id, count)
                }
            },
            None => fresh_partial(id, count),
        };
        let ghost p = partial.view();
        assert(p =~= target(before, id, count));
        let slot: usize = index as usize;
        let is_new: bool = !partial.frags.contains_key(&slot);
        assert(is_new == !p.frags.dom().contains(index as nat));
        if is_new {
            if payload.len() > MAX_MESSAGE - partial.bytes {
                self.current = Some(partial);
                assert(self@ =~= (ReassemblerView { current: Some(p), ..before }));
                return None;
            }
            proof {
                lemma_total_insert(p.frags, index as nat, payload@, p.count);
            }
            partial.bytes += payload.len();
            partial.frags.insert(slot, payload);
            assert(partial.frag_map() =~= p.frags.insert(index as nat, payload@));
            self.stored += 1;
        }
        let ghost q = partial.view();
        proof {
            lemma_index_count(partial.frags@.dom(), q.count);
            assert(whole(q) <==> forall|x: usize| x < q.count ==> partial.frags@.dom().contains(x)) by {
                if whole(q) {
                    assert forall|x: usize| x < q.count implies partial.frags@.dom().contains(x) by {
                        assert(q.frags.dom().contains(x as nat));
                    }
                }
                if forall|x: usize| x < q.count ==> partial.frags@.dom().contains(x) {
                    assert forall|i: nat| i < q.count implies #[trigger] q.frags.dom().contains(i) by {
                        assert(partial.frags@.dom().contains(i as usize));
                    }
                }
            }
        }
        if partial.frags.len() == partial.count {
            let out: Vec<u8> = join(&partial);
            return Some((partial.id, out));
        }
        self.current = Some(partial);
        None
    }

    /// Decode `datagram` as a `Data` packet and feed it in; anything else is
    /// ignored.
    pub fn push(&mut self, datagram: &[u8]) -> (r: Option<(u64, Vec<u8>)>)
        requires
            old(self).wf(),
            old(self)@.stored < usize::MAX,
        ensures
            final(self).wf(),
            match read_packet(datagram@) {
                Some(PacketView::Data { id, index, count, payload }) => {
                    &&& final(self)@ == pushed(old(self)@, id, index, count, payload).0
                    &&& match pushed(old(self)@, id, index, count, payload).1 {
                        Some((done, bytes)) => r is Some && r->Some_0.0 == done && r->Some_0.1@ == bytes,
                        None => r is None,
                    }
                },
                _ => r is None && final(self)@ == old(self)@,
            },
    {
        match Packet::decode(datagram) {
            Some(Packet::Data { id, index, count, payload }) => self.push_data(
                id,
                index,
                count,
                payload,
            ),
            _ => None,
        }
    }

    /// Total distinct fragments stored over this reassembler's life.
    pub fn stored(&self) -> (r: usize)
        ensures
            r == self@.stored,
    {
        self.stored
    }

    /// The fragments still missing from the message in progress, or `None` if
    /// nothing is being reassembled: the lowest of them, up to
    /// [`NACK_MAX_INDICES`].
    pub fn missing(&self) -> (r: Option<Missing>)
        requires
            self.wf(),
        ensures
            match self@.current {
                Some(p) => {
                    let gaps = absent(p.frags, p.count);
                    &&& r is Some
                    &&& r->0.id == p.id
                    &&& r->0.indices@ == gaps.take(
                        if gaps.len() < NACK_MAX_INDICES {
                            gaps.len() as int
                        } else {
                            NACK_MAX_INDICES as int
                        },
                    )
                },
                None => r is None,
            },
            r matches Some(m) ==> m.indices@.len() > 0,
    {
        match &self.current {
            Some(partial) => {
                let ghost frags = partial.frag_map();
                let mut indices: Vec<u64> = Vec::new();
                let mut i: usize = 0;
                while i < partial.count && indices.len() < NACK_MAX_INDICES
                    invariant
                        i <= partial.count <= MAX_FRAGMENTS,
                        indices@ == absent(frags, i as nat),
                        indices@.len() <= NACK_MAX_INDICES,
                        frags == partial.frag_map(),
                    decreases partial.count - i,
                {
                    assert(partial.frags@.dom().contains(i) == frags.dom().contains(i as nat));
                    if !partial.frags.contains_key(&i) {
                        indices.push(i as u64);
                    }
                    i += 1;
                }
                proof {
                    lemma_absent_grows(frags, i as nat, partial.count as nat);
                    lemma_not_whole(frags, partial.count as nat);
                }
                Some(Missing { id: partial.id, indices })
            },
            None => None,
        }
    }

    /// Commit `id` once the caller has validated the message it was returned
    /// for. Advances the watermark so stragglers and duplicates of that message
    /// are dropped from here on.
    pub fn accept(&mut self, id: u64)
        requires
            old(self).wf(),
        ensures
            final(self).wf(),
            final(self)@ == (ReassemblerView {
                accepted: Some(
                    match old(self)@.accepted {
                        Some(cur) => if cur > id {
                            cur
                        } else {
                            id
                        },
                        None => id,
                    },
                ),
                ..old(self)@
            }),
    {
        self.accepted = match self.accepted {
            Some(cur) => if cur > id {
                Some(cur)
            } else {
                Some(id)
            },
            None => Some(id),
        };
    }
}

fn fresh_partial(id: u64, count: u64) -> (r: Partial)
    requires
        0 < count <= MAX_FRAGMENTS,
    ensures
        r.wf(),
        r.view() == (PartialView { id, count: count as nat, frags: Map::empty() }),
{
    let r = Partial { id, count: count as usize, frags: HashMap::new(), bytes: 0 };
    proof {
        assert(r.frag_map() =~= Map::empty());
        lemma_total_empty(count as nat);
    }
    r
}

proof fn lemma_total_empty(n: nat)
    ensures
        total(Map::empty(), n) == 0,
    decreases n,
{
    if n > 0 {
        lemma_total_empty((n - 1) as nat);
    }
}

/// Where a fragment is missing, there is a gap.
proof fn lemma_not_whole(frags: Map<nat, Seq<u8>>, n: nat)
    requires
        exists|i: nat| i < n && !(#[trigger] frags.dom().contains(i)),
    ensures
        absent(frags, n).len() > 0,
    decreases n,
{
    if frags.dom().contains((n - 1) as nat) {
        lemma_not_whole(frags, (n - 1) as nat);
    }
}

/// The gaps found by looking further start with those already found.
proof fn lemma_absent_grows(frags: Map<nat, Seq<u8>>, i: nat, n: nat)
    requires
        i <= n,
    ensures
        absent(frags, n).len() >= absent(frags, i).len(),
        absent(frags, n).take(absent(frags, i).len() as int) == absent(frags, i),
    decreases n - i,
{
    if i < n {
        lemma_absent_grows(frags, i, (n - 1) as nat);
        assert(absent(frags, n).take(absent(frags, i).len() as int) =~= absent(
            frags,
            (n - 1) as nat,
        ).take(absent(frags, i).len() as int));
    } else {
        assert(absent(frags, n).take(absent(frags, i).len() as int) =~= absent(frags, i));
    }
}

fn join(partial: &Partial) -> (r: Vec<u8>)
    requires
        partial.wf(),
        whole(partial.view()),
    ensures
        r@ == joined(partial.frag_map(), partial.count as nat),
{
    let mut out: Vec<u8> = Vec::new();
    let mut i: usize = 0;
    while i < partial.count
        invariant
            i <= partial.count,
            whole(partial.view()),
            out@ == joined(partial.frag_map(), i as nat),
        decreases partial.count - i,
    {
        assert(partial.view().frags.dom().contains(i as nat));
        match partial.frags.get(&i) {
            Some(frag) => {
                append(&mut out, frag.as_slice());
            },
            None => {},
        }
        i += 1;
    }
    out
}

/// Whether every fragment held is a piece of `payload`.
pub open spec fn pieces_of(p: PartialView, payload: Seq<u8>, datagram: int) -> bool {
    &&& p.count == piece_count(payload.len() as int, datagram)
    &&& forall|i: nat| #[trigger] p.frags.dom().contains(i) ==> i < p.count && p.frags[i] == piece(
        payload,
        datagram,
        i as int,
    )
}

proof fn lemma_joined_pieces(p: PartialView, payload: Seq<u8>, datagram: int, n: nat)
    requires
        datagram > HEADER_BUDGET,
        pieces_of(p, payload, datagram),
        whole(p),
        n <= p.count,
    ensures
        joined(p.frags, n) == payload.take(
            if n * budget(datagram) < payload.len() {
                n * budget(datagram)
            } else {
                payload.len() as int
            },
        ),
    decreases n,
{
    let b = budget(datagram);
    lemma_piece_count(payload.len() as int, datagram);
    if n == 0 {
        assert(0 * b == 0);
        assert(payload.take(0) =~= Seq::empty());
    } else {
        let k = (n - 1) as nat;
        lemma_joined_pieces(p, payload, datagram, k);
        assert(p.frags.dom().contains(k));
        assert(0 <= k * b <= (p.count - 1) * b) by (nonlinear_arith)
            requires
                0 <= k <= p.count - 1,
                b > 0,
        ;
        assert((k + 1) * b == k * b + b) by (nonlinear_arith);
        let end = if n * b < payload.len() {
            n * b
        } else {
            payload.len() as int
        };
        assert(joined(p.frags, n) =~= payload.take(end));
    }
}

proof fn lemma_total_pieces(p: PartialView, payload: Seq<u8>, datagram: int, n: nat)
    requires
        datagram > HEADER_BUDGET,
        pieces_of(p, payload, datagram),
        n <= p.count,
    ensures
        total(p.frags, n) <= payload.len(),
        total(p.frags, n) <= n * budget(datagram),
    decreases n,
{
    let b = budget(datagram);
    lemma_piece_count(payload.len() as int, datagram);
    if n > 0 {
        let k = (n - 1) as nat;
        lemma_total_pieces(p, payload, datagram, k);
        assert(0 <= k * b <= (p.count - 1) * b) by (nonlinear_arith)
            requires
                0 <= k <= p.count - 1,
                b > 0,
        ;
        assert((k + 1) * b == k * b + b) by (nonlinear_arith);
    } else {
        assert(0 * b == 0);
    }
}

/// Fragments come back together in any order and however often each is
/// repeated: while every fragment held is a piece of the message, feeding in
/// another of its pieces either keeps that so, or gives back exactly the
/// message; and it gives it back as soon as no piece is missing.
pub proof fn law_reassembly(
    s: ReassemblerView,
    id: u64,
    payload: Seq<u8>,
    datagram: int,
    index: u64,
)
    requires
        datagram > HEADER_BUDGET,
        payload.len() <= MAX_MESSAGE,
        piece_count(payload.len() as int, datagram) <= MAX_FRAGMENTS,
        index < piece_count(payload.len() as int, datagram),
        s.accepted matches Some(done) ==> id > done,
        s.current matches Some(p) ==> p.id < id || (p.id == id && pieces_of(p, payload, datagram)),
    ensures
        ({
            let count = piece_count(payload.len() as int, datagram) as u64;
            let (after, done) = pushed(s, id, index, count, piece(payload, datagram, index as int));
            let p = target(s, id, count);
            &&& match done {
                Some((mid, bytes)) => mid == id && bytes == payload && after.current is None,
                None => {
                    &&& after.current matches Some(q)
                    &&& q.id == id
                    &&& pieces_of(q, payload, datagram)
                    &&& q.frags.dom().contains(index as nat)
                },
            }
            &&& done is Some <==> forall|i: nat|
                i < count && i != index ==> #[trigger] p.frags.dom().contains(i)
        }),
{
    let count = piece_count(payload.len() as int, datagram) as u64;
    lemma_piece_count(payload.len() as int, datagram);
    let v = piece(payload, datagram, index as int);
    let p = target(s, id, count);
    assert(pieces_of(p, payload, datagram));
    let b = budget(datagram);
    let q = if p.frags.dom().contains(index as nat) {
        p
    } else {
        PartialView { frags: p.frags.insert(index as nat, v), ..p }
    };
    assert(pieces_of(q, payload, datagram));
    lemma_total_pieces(q, payload, datagram, q.count);
    if !p.frags.dom().contains(index as nat) {
        lemma_total_insert(p.frags, index as nat, v, p.count);
        assert(total(p.frags, p.count) + v.len() <= MAX_MESSAGE);
    }
    if whole(q) {
        lemma_joined_pieces(q, payload, datagram, q.count);
        assert(payload.take(payload.len() as int) =~= payload);
        assert forall|i: nat| i < count && i != index implies #[trigger] p.frags.dom().contains(i) by {
            assert(q.frags.dom().contains(i));
        }
    } else if forall|i: nat| i < count && i != index ==> #[trigger] p.frags.dom().contains(i) {
        assert forall|i: nat| i < q.count implies #[trigger] q.frags.dom().contains(i) by {
            if i != index {
                assert(p.frags.dom().contains(i));
            }
        }
    }
}

/// The first `n` of a message's parts, put together.
pub open spec fn put_together(parts: Seq<Seq<u8>>, n: nat) -> Seq<u8>
    decreases n,
{
    if n == 0 {
        Seq::empty()
    } else {
        put_together(parts, (n - 1) as nat) + parts[n - 1]
    }
}

/// A reassembler after parts of one message are fed in, in the given order.
pub open spec fn fed(s: ReassemblerView, id: u64, parts: Seq<Seq<u8>>, order: Seq<u64>) -> ReassemblerView
    decreases order.len(),
{
    if order.len() == 0 {
        s
    } else {
        pushed(
            fed(s, id, parts, order.drop_last()),
            id,
            order.last(),
            parts.len() as u64,
            parts[order.last() as int],
        ).0
    }
}

/// Whether every one of `n` parts occurs in an order.
pub open spec fn all_occur(order: Seq<u64>, n: nat) -> bool {
    forall|i: u64| i < n ==> #[trigger] order.contains(i)
}

/// Whether a message held is what the parts fed in so far make of it.
spec fn holds_parts(p: PartialView, id: u64, parts: Seq<Seq<u8>>, order: Seq<u64>) -> bool {
    &&& p.id == id
    &&& p.count == parts.len()
    &&& forall|i: nat| #[trigger] p.frags.dom().contains(i) <==> i < parts.len() && order.contains(
        i as u64,
    )
    &&& forall|i: nat| #[trigger] p.frags.dom().contains(i) ==> p.frags[i] == parts[i as int]
}

proof fn lemma_parts_total(frags: Map<nat, Seq<u8>>, parts: Seq<Seq<u8>>, n: nat)
    requires
        n <= parts.len(),
        forall|i: nat| #[trigger] frags.dom().contains(i) ==> frags[i] == parts[i as int],
    ensures
        total(frags, n) <= put_together(parts, n).len(),
    decreases n,
{
    if n > 0 {
        lemma_parts_total(frags, parts, (n - 1) as nat);
    }
}

proof fn lemma_parts_joined(frags: Map<nat, Seq<u8>>, parts: Seq<Seq<u8>>, n: nat)
    requires
        n <= parts.len(),
        forall|i: nat| i < n ==> #[trigger] frags.dom().contains(i) && frags[i] == parts[i as int],
    ensures
        joined(frags, n) == put_together(parts, n),
    decreases n,
{
    if n > 0 {
        lemma_parts_joined(frags, parts, (n - 1) as nat);
        assert(frags.dom().contains((n - 1) as nat));
    }
}

/// What one more part makes of those fed in before it.
proof fn lemma_feeds_one(
    s: ReassemblerView,
    base: nat,
    id: u64,
    parts: Seq<Seq<u8>>,
    order: Seq<u64>,
    index: u64,
)
    requires
        1 <= parts.len() <= MAX_FRAGMENTS,
        put_together(parts, parts.len()).len() <= MAX_MESSAGE,
        index < parts.len(),
        s.accepted matches Some(done) ==> id > done,
        order.len() == 0 ==> s.stored == base && (s.current matches Some(p) ==> p.id < id),
        order.len() > 0 ==> (s.current matches Some(p) && holds_parts(p, id, parts, order)
            && s.stored == base + p.frags.dom().len() && p.frags.dom().finite()),
    ensures
        ({
            let (after, done) = pushed(s, id, index, parts.len() as u64, parts[index as int]);
            let more = order.push(index);
            &&& after.accepted == s.accepted
            &&& all_occur(more, parts.len()) ==> {
                &&& done == Some((id, put_together(parts, parts.len())))
                &&& after.current is None
                &&& after.stored == base + parts.len()
            }
            &&& !all_occur(more, parts.len()) ==> {
                &&& done is None
                &&& after.current matches Some(q)
                &&& holds_parts(q, id, parts, more)
                &&& q.frags.dom().finite()
                &&& after.stored == base + q.frags.dom().len()
            }
        }),
{
    let n = parts.len();
    let count = n as u64;
    let more = order.push(index);
    let p = target(s, id, count);
    assert(p.frags.dom().finite() && s.stored == base + p.frags.dom().len());
    assert(holds_parts(p, id, parts, order)) by {
        if order.len() == 0 {
            assert forall|i: nat| !(#[trigger] p.frags.dom().contains(i)) by {}
            assert forall|i: u64| !(#[trigger] order.contains(i)) by {}
        }
    }
    let v = parts[index as int];
    let fresh = !p.frags.dom().contains(index as nat);
    let q = if fresh {
        PartialView { frags: p.frags.insert(index as nat, v), ..p }
    } else {
        p
    };
    assert forall|i: u64| #[trigger] more.contains(i) <==> order.contains(i) || i == index by {
        crate::lists::lemma_push_contains(order, index, i);
    }
    assert(holds_parts(q, id, parts, more));
    lemma_parts_total(q.frags, parts, n);
    if fresh {
        lemma_total_insert(p.frags, index as nat, v, p.count);
    }
    assert(whole(q) <==> all_occur(more, n)) by {
        if whole(q) {
            assert forall|i: u64| i < n implies #[trigger] more.contains(i) by {
                assert(q.frags.dom().contains(i as nat));
            }
        }
        if all_occur(more, n) {
            assert forall|i: nat| i < q.count implies #[trigger] q.frags.dom().contains(i) by {
                assert(more.contains(i as u64));
            }
        }
    }
    if whole(q) {
        lemma_parts_joined(q.frags, parts, n);
        assert(q.frags.dom() =~= below(n));
        lemma_below(n);
    }
}

spec fn below(n: nat) -> Set<nat> {
    Set::new(|i: nat| i < n)
}

proof fn lemma_below(n: nat)
    ensures
        below(n).finite(),
        below(n).len() == n,
    decreases n,
{
    if n == 0 {
        assert(below(n) =~= Set::empty());
    } else {
        let k = (n - 1) as nat;
        lemma_below(k);
        assert(below(n) =~= below(k).insert(k));
    }
}

proof fn lemma_fed(s: ReassemblerView, id: u64, parts: Seq<Seq<u8>>, order: Seq<u64>)
    requires
        1 <= parts.len() <= MAX_FRAGMENTS,
        put_together(parts, parts.len()).len() <= MAX_MESSAGE,
        forall|i: int| 0 <= i < order.len() ==> #[trigger] order[i] < parts.len(),
        s.accepted matches Some(done) ==> id > done,
        s.current matches Some(p) ==> p.id < id,
        !all_occur(order, parts.len()),
    ensures
        fed(s, id, parts, order).accepted == s.accepted,
        order.len() > 0 ==> {
            let f = fed(s, id, parts, order);
            f.current matches Some(p) && holds_parts(p, id, parts, order) && f.stored == s.stored
                + p.frags.dom().len() && p.frags.dom().finite()
        },
    decreases order.len(),
{
    if order.len() > 0 {
        let old = order.drop_last();
        assert(old.push(order.last()) =~= order);
        assert(order[order.len() - 1] == order.last());
        assert(!all_occur(old, parts.len())) by {
            if all_occur(old, parts.len()) {
                assert forall|i: u64| i < parts.len() implies #[trigger] order.contains(i) by {
                    assert(old.contains(i));
                    let k = old.index_of(i);
                    assert(order[k] == i);
                }
            }
        }
        assert forall|i: int| 0 <= i < old.len() implies #[trigger] old[i] < parts.len() by {
            assert(old[i] == order[i]);
        }
        lemma_fed(s, id, parts, old);
        lemma_feeds_one(fed(s, id, parts, old), s.stored, id, parts, old, order.last());
    }
}

/// However a message is cut into parts, and in whatever order and however often
/// they are fed in: every part but the last of those missing gives back nothing,
/// and that one gives back the message. Then nothing is missing, and as many
/// fragments have been stored as there are parts.
pub proof fn law_any_cut_is_reassembled(
    s: ReassemblerView,
    id: u64,
    parts: Seq<Seq<u8>>,
    order: Seq<u64>,
    index: u64,
)
    requires
        1 <= parts.len() <= MAX_FRAGMENTS,
        put_together(parts, parts.len()).len() <= MAX_MESSAGE,
        forall|i: int| 0 <= i < order.len() ==> #[trigger] order[i] < parts.len(),
        index < parts.len(),
        !all_occur(order, parts.len()),
        s.accepted matches Some(done) ==> id > done,
        s.current matches Some(p) ==> p.id < id,
    ensures
        ({
            let before = fed(s, id, parts, order);
            let (after, done) = pushed(before, id, index, parts.len() as u64, parts[index as int]);
            if all_occur(order.push(index), parts.len()) {
                &&& done == Some((id, put_together(parts, parts.len())))
                &&& after.current is None
                &&& after.stored == s.stored + parts.len()
            } else {
                done is None
            }
        }),
{
    lemma_fed(s, id, parts, order);
    lemma_feeds_one(fed(s, id, parts, order), s.stored, id, parts, order, index);
}

/// A message that is complete but not accepted leaves the watermark where it
/// was, so no later message is shut out by it.
pub proof fn law_only_accept_moves_the_watermark(
    s: ReassemblerView,
    id: u64,
    index: u64,
    count: u64,
    payload: Seq<u8>,
)
    ensures
        pushed(s, id, index, count, payload).0.accepted == s.accepted,
        pushed(s, id, index, count, payload).0.stored >= s.stored,
        s.accepted matches Some(done) && id <= done ==> pushed(s, id, index, count, payload) == (
            s,
            None::<(u64, Seq<u8>)>,
        ),
{
}

/// What is left of a message already accepted, of one older than the one coming in, or
/// does not fit the cut it belongs to, changes nothing; nor does a fragment that came
/// before.
pub proof fn law_stale_fragments_change_nothing(
    s: ReassemblerView,
    id: u64,
    index: u64,
    count: u64,
    payload: Seq<u8>,
)
    requires
        ({
            ||| count == 0
            ||| count > MAX_FRAGMENTS
            ||| index >= count
            ||| s.accepted is Some && id <= s.accepted->Some_0
            ||| s.current is Some && id < s.current->Some_0.id
            ||| s.current is Some && id == s.current->Some_0.id && count != s.current->Some_0.count
            ||| s.current is Some && id == s.current->Some_0.id && !whole(s.current->Some_0)
                && s.current->Some_0.frags.dom().contains(index as nat)
        }),
    ensures
        pushed(s, id, index, count, payload) == (s, None::<(u64, Seq<u8>)>),
{
}

/// A fragment of a newer message starts that message and gives up the older one; one that
/// is the whole message is handed on at once.
pub proof fn law_newer_message_takes_over(
    s: ReassemblerView,
    id: u64,
    index: u64,
    count: u64,
    payload: Seq<u8>,
)
    requires
        index < count <= MAX_FRAGMENTS,
        s.accepted is Some ==> id > s.accepted->Some_0,
        s.current is Some ==> id > s.current->Some_0.id,
        payload.len() <= MAX_MESSAGE,
    ensures
        ({
            let (after, done) = pushed(s, id, index, count, payload);
            &&& after.stored == s.stored + 1
            &&& after.accepted == s.accepted
            &&& count == 1 ==> done == Some((id, payload)) && after.current is None
            &&& count > 1 ==> done is None && after.current is Some && ({
                let p = after.current->Some_0;
                &&& p.id == id
                &&& p.count == count
                &&& forall|i: nat| #[trigger] p.frags.dom().contains(i) <==> i == index
                &&& p.frags[index as nat] == payload
            })
        }),
{
    let none: Map<nat, Seq<u8>> = Map::empty();
    lemma_total_empty(count as nat);
    let q = PartialView { id, count: count as nat, frags: none.insert(index as nat, payload) };
    if count == 1 {
        assert(whole(q));
        reveal_with_fuel(joined, 2);
        assert(joined(q.frags, 1) =~= payload);
    } else {
        let other: nat = if index == 0 {
            1
        } else {
            0
        };
        assert(!q.frags.dom().contains(other));
        assert(!whole(q));
    }
}

/// A fragment with which a message would outgrow the largest one is not stored.
pub proof fn law_outgrown_message_is_not_stored(
    s: ReassemblerView,
    id: u64,
    index: u64,
    count: u64,
    payload: Seq<u8>,
)
    requires
        payload.len() > MAX_MESSAGE,
        s.current matches Some(p) ==> !(p.id == id && p.frags.dom().contains(index as nat)),
    ensures
        pushed(s, id, index, count, payload).0.stored == s.stored,
        pushed(s, id, index, count, payload).1 is None,
{
}

} // verus!
