//! What a wire carries, it carries whole: whatever is lost is sent again, and
//! nothing else is.
use crate::frame::{
    absent, data_bytes, law_data_roundtrip, law_nack_roundtrip, law_reassembly, lemma_piece_count,
    piece, piece_count, pieces_of, read_packet, target, PacketView, HEADER_BUDGET, MAX_FRAGMENTS,
    MAX_MESSAGE, NACK_MAX_INDICES,
};
use crate::lists::lemma_push_contains;
use crate::sync_msg::{law_message_roundtrip, message_bytes, sendable, MessageView};
use crate::transfer::{
    arrived, each_once, fragments_of, front_gaps, interval_over, named_fragments, resent, sent,
    ElapsedView, Exchange, RecvView, WireView,
};
use vstd::prelude::*;

verus! {

/// Datagrams taken in one after the other, until one brings something.
pub open spec fn taken_in(w: WireView, datagrams: Seq<Seq<u8>>) -> (WireView, Option<RecvView>)
    decreases datagrams.len(),
{
    if datagrams.len() == 0 {
        (w, None)
    } else {
        let (w1, r) = taken_in(w, datagrams.drop_last());
        match r {
            Some(_) => (w1, r),
            None => arrived(w1, datagrams.last()),
        }
    }
}

/// Whether a message can be sent on a wire at all.
pub open spec fn carries(v: WireView, m: MessageView) -> bool {
    &&& sendable(m)
    &&& v.mtu > HEADER_BUDGET
    &&& message_bytes(m).len() <= MAX_MESSAGE
    &&& piece_count(message_bytes(m).len() as int, v.mtu) <= MAX_FRAGMENTS
}

/// Whether a receiver is ready for a message: it has accepted none as new, and
/// what it holds of it, if anything, was sent on the wire.
pub open spec fn awaits(w: WireView, id: u64, m: MessageView, mtu: int) -> bool {
    &&& (w.inbound.accepted matches Some(done) ==> id > done)
    &&& (w.inbound.current matches Some(p) ==> p.id < id || (p.id == id && pieces_of(
        p,
        message_bytes(m),
        mtu,
    )))
}

spec fn count_of(m: MessageView, mtu: int) -> u64 {
    piece_count(message_bytes(m).len() as int, mtu) as u64
}

/// The fragments of a message at these positions.
spec fn at_positions(id: u64, m: MessageView, mtu: int, positions: Seq<u64>) -> Seq<Seq<u8>> {
    Seq::new(
        positions.len(),
        |i: int|
            data_bytes(
                id,
                positions[i],
                count_of(m, mtu),
                piece(message_bytes(m), mtu, positions[i] as int),
            ),
    )
}

/// What a receiver holds of a message.
spec fn held_of(w: WireView, id: u64, m: MessageView, mtu: int) -> Map<nat, Seq<u8>> {
    target(w.inbound, id, count_of(m, mtu)).frags
}

/// How many fragments of a message a receiver misses.
pub open spec fn missing_count(w: WireView, id: u64, m: MessageView, mtu: int) -> nat {
    let count = piece_count(message_bytes(m).len() as int, mtu);
    absent(target(w.inbound, id, count as u64).frags, count as nat).len()
}

/// Whether these are positions a receiver misses, each once.
spec fn are_missing(w: WireView, id: u64, m: MessageView, mtu: int, positions: Seq<u64>) -> bool {
    &&& positions.no_duplicates()
    &&& forall|i: int|
        0 <= i < positions.len() ==> #[trigger] positions[i] < count_of(m, mtu) && !held_of(
            w,
            id,
            m,
            mtu,
        ).dom().contains(positions[i] as nat)
}

proof fn lemma_absent(frags: Map<nat, Seq<u8>>, n: nat)
    requires
        n <= MAX_FRAGMENTS,
    ensures
        absent(frags, n).no_duplicates(),
        absent(frags, n).len() <= n,
        forall|x: u64| #[trigger]
            absent(frags, n).contains(x) <==> x < n && !frags.dom().contains(x as nat),
    decreases n,
{
    if n > 0 {
        let m = (n - 1) as nat;
        lemma_absent(frags, m);
        let before = absent(frags, m);
        let all = absent(frags, n);
        assert forall|x: u64| #[trigger] all.contains(x) <==> x < n && !frags.dom().contains(
            x as nat,
        ) by {
            lemma_push_contains(before, m as u64, x);
            assert(before.contains(x) <==> x < m && !frags.dom().contains(x as nat));
        }
        if !frags.dom().contains(m) {
            assert(all.no_duplicates()) by {
                assert forall|i: int, j: int| 0 <= i < j < all.len() implies all[i] != all[j] by {
                    if j == before.len() {
                        assert(before.contains(before[i]));
                    }
                }
            }
        }
    }
}

proof fn lemma_absent_less(frags: Map<nat, Seq<u8>>, n: nat, x: nat, v: Seq<u8>)
    requires
        !frags.dom().contains(x),
    ensures
        absent(frags.insert(x, v), n).len() == (if x < n {
            absent(frags, n).len() - 1
        } else {
            absent(frags, n).len() as int
        }),
    decreases n,
{
    if n > 0 {
        lemma_absent_less(frags, (n - 1) as nat, x, v);
    }
}

proof fn lemma_step(w: WireView, id: u64, m: MessageView, mtu: int, index: u64)
    requires
        sendable(m),
        mtu > HEADER_BUDGET,
        message_bytes(m).len() <= MAX_MESSAGE,
        piece_count(message_bytes(m).len() as int, mtu) <= MAX_FRAGMENTS,
        awaits(w, id, m, mtu),
        index < count_of(m, mtu),
        !held_of(w, id, m, mtu).dom().contains(index as nat),
    ensures
        missing_count(w, id, m, mtu) >= 1,
        ({
            let v = piece(message_bytes(m), mtu, index as int);
            let (w1, r) = arrived(w, data_bytes(id, index, count_of(m, mtu), v));
            if missing_count(w, id, m, mtu) == 1 {
                r == Some(RecvView::Message(m)) && w1.inbound.accepted == Some(id)
                    && w1.inbound.current is None
            } else {
                &&& r is None
                &&& awaits(w1, id, m, mtu)
                &&& missing_count(w1, id, m, mtu) == missing_count(w, id, m, mtu) - 1
                &&& held_of(w1, id, m, mtu) == held_of(w, id, m, mtu).insert(index as nat, v)
            }
        }),
{
    let bytes = message_bytes(m);
    let count = count_of(m, mtu);
    let v = piece(bytes, mtu, index as int);
    lemma_piece_count(bytes.len() as int, mtu);
    let p = target(w.inbound, id, count);
    let gaps = absent(p.frags, count as nat);
    lemma_absent(p.frags, count as nat);
    assert(gaps.contains(index));
    law_data_roundtrip(id, index, count, v);
    law_reassembly(w.inbound, id, bytes, mtu, index);
    law_message_roundtrip(m);
    let w1 = arrived(w, data_bytes(id, index, count, v)).0;
    if gaps.len() == 1 {
        assert forall|n: nat| n < count && n != index implies #[trigger] p.frags.dom().contains(
            n,
        ) by {
            if !p.frags.dom().contains(n) {
                assert(gaps.contains(n as u64));
            }
        }
    } else {
        let other = if gaps[0] == index {
            gaps[1]
        } else {
            gaps[0]
        };
        assert(other != index);
        assert(gaps.contains(gaps[0]) && gaps.contains(gaps[1]));
        assert(!p.frags.dom().contains(other as nat));
        assert(held_of(w1, id, m, mtu) =~= p.frags.insert(index as nat, v));
        lemma_absent_less(p.frags, count as nat, index as nat, v);
    }
}

proof fn lemma_filled(
    w: WireView,
    id: u64,
    m: MessageView,
    mtu: int,
    positions: Seq<u64>,
    k: nat,
)
    requires
        sendable(m),
        mtu > HEADER_BUDGET,
        message_bytes(m).len() <= MAX_MESSAGE,
        piece_count(message_bytes(m).len() as int, mtu) <= MAX_FRAGMENTS,
        awaits(w, id, m, mtu),
        are_missing(w, id, m, mtu, positions),
        k <= positions.len(),
    ensures
        k <= missing_count(w, id, m, mtu),
        ({
            let (w1, r) = taken_in(w, at_positions(id, m, mtu, positions.take(k as int)));
            if 0 < k == missing_count(w, id, m, mtu) {
                r == Some(RecvView::Message(m)) && w1.inbound.accepted == Some(id)
                    && w1.inbound.current is None
            } else {
                &&& r is None
                &&& awaits(w1, id, m, mtu)
                &&& missing_count(w1, id, m, mtu) == missing_count(w, id, m, mtu) - k
                &&& forall|n: nat| #[trigger]
                    held_of(w1, id, m, mtu).dom().contains(n) <==> held_of(
                        w,
                        id,
                        m,
                        mtu,
                    ).dom().contains(n) || (n <= u64::MAX && positions.take(k as int).contains(
                        n as u64,
                    ))
            }
        }),
    decreases k,
{
    let count = count_of(m, mtu);
    lemma_piece_count(message_bytes(m).len() as int, mtu);
    let taken = positions.take(k as int);
    let ds = at_positions(id, m, mtu, taken);
    let held = held_of(w, id, m, mtu);
    if k == 0 {
        assert(taken =~= Seq::<u64>::empty());
        assert(ds =~= Seq::<Seq<u8>>::empty());
    } else {
        let before = positions.take(k - 1);
        lemma_filled(w, id, m, mtu, positions, (k - 1) as nat);
        assert(ds.drop_last() =~= at_positions(id, m, mtu, before));
        let w1 = taken_in(w, ds.drop_last()).0;
        let index = positions[k - 1];
        assert(taken =~= before.push(index));
        assert(!before.contains(index)) by {
            if before.contains(index) {
                let j = before.index_of(index);
                assert(positions[j] == positions[k - 1]);
            }
        }
        if 0 < k - 1 == missing_count(w, id, m, mtu) {
            lemma_all_taken(held, count as nat, before, index);
        }
        assert(!held_of(w1, id, m, mtu).dom().contains(index as nat));
        lemma_step(w1, id, m, mtu, index);
        assert(ds.last() == data_bytes(
            id,
            index,
            count,
            piece(message_bytes(m), mtu, index as int),
        ));
        let w2 = arrived(w1, ds.last()).0;
        if missing_count(w1, id, m, mtu) > 1 {
            assert forall|n: nat| #[trigger]
                held_of(w2, id, m, mtu).dom().contains(n) <==> held.dom().contains(n) || (n
                    <= u64::MAX && taken.contains(n as u64)) by {
                lemma_push_contains(before, index, n as u64);
                assert(held_of(w1, id, m, mtu).dom().contains(n) <==> held.dom().contains(n) || (n
                    <= u64::MAX && before.contains(n as u64)));
            }
        }
    }
}

/// Positions that are as many as are missing are all that are missing.
proof fn lemma_all_taken(held: Map<nat, Seq<u8>>, n: nat, before: Seq<u64>, index: u64)
    requires
        n <= MAX_FRAGMENTS,
        before.no_duplicates(),
        before.len() == absent(held, n).len(),
        forall|i: int|
            0 <= i < before.len() ==> #[trigger] before[i] < n && !held.dom().contains(
                before[i] as nat,
            ),
        index < n,
        !held.dom().contains(index as nat),
    ensures
        before.contains(index),
{
    let gaps = absent(held, n);
    lemma_absent(held, n);
    before.unique_seq_to_set();
    gaps.unique_seq_to_set();
    assert(before.to_set().subset_of(gaps.to_set())) by {
        assert forall|x: u64| before.to_set().contains(x) implies gaps.to_set().contains(x) by {
            let i = before.index_of(x);
            assert(before[i] == x);
            assert(gaps.contains(x));
        }
    }
    vstd::seq_lib::seq_to_set_is_finite(gaps);
    vstd::set_lib::lemma_subset_equality(before.to_set(), gaps.to_set());
    assert(gaps.contains(index));
    assert(before.to_set().contains(index));
}

/// What is sent arrives: where nothing is lost, the fragments of a message bring
/// exactly that message to a receiver that has none of it yet.
pub proof fn law_lossless_transfer(v: WireView, w: WireView, m: MessageView)
    requires
        carries(v, m),
        w.inbound.accepted matches Some(done) ==> v.next_id > done,
        w.inbound.current matches Some(p) ==> p.id < v.next_id,
    ensures
        sent(v, m).1 is Ok,
        ({
            let (w1, r) = taken_in(w, sent(v, m).1->Ok_0);
            &&& r == Some(RecvView::Message(m))
            &&& w1.inbound.accepted == Some(v.next_id)
        }),
{
    let bytes = message_bytes(m);
    let count = count_of(m, v.mtu);
    lemma_piece_count(bytes.len() as int, v.mtu);
    let positions = Seq::new(count as nat, |i: int| i as u64);
    let held = held_of(w, v.next_id, m, v.mtu);
    lemma_all_absent(held, count as nat);
    assert(positions.no_duplicates());
    assert(are_missing(w, v.next_id, m, v.mtu, positions));
    lemma_filled(w, v.next_id, m, v.mtu, positions, count as nat);
    assert(positions.take(count as int) =~= positions);
    assert(at_positions(v.next_id, m, v.mtu, positions) =~= fragments_of(
        v.next_id,
        bytes,
        v.mtu,
    ));
}

proof fn lemma_all_absent(frags: Map<nat, Seq<u8>>, n: nat)
    requires
        frags == Map::<nat, Seq<u8>>::empty(),
    ensures
        absent(frags, n).len() == n,
    decreases n,
{
    if n > 0 {
        lemma_all_absent(frags, (n - 1) as nat);
    }
}

proof fn lemma_each_once(s: Seq<u64>)
    requires
        s.no_duplicates(),
    ensures
        each_once(s) == s,
    decreases s.len(),
{
    if s.len() > 0 {
        let rest = s.drop_last();
        assert(rest.no_duplicates());
        lemma_each_once(rest);
        assert(!rest.contains(s.last())) by {
            if rest.contains(s.last()) {
                let i = rest.index_of(s.last());
                assert(s[i] == s[s.len() - 1]);
            }
        }
        assert(rest.push(s.last()) =~= s);
    } else {
        assert(each_once(s) =~= s);
    }
}

proof fn lemma_named(id: u64, m: MessageView, mtu: int, positions: Seq<u64>)
    requires
        mtu > HEADER_BUDGET,
        piece_count(message_bytes(m).len() as int, mtu) <= MAX_FRAGMENTS,
        forall|i: int| 0 <= i < positions.len() ==> #[trigger] positions[i] < count_of(m, mtu),
    ensures
        named_fragments(id, message_bytes(m), mtu, positions) == at_positions(
            id,
            m,
            mtu,
            positions,
        ),
    decreases positions.len(),
{
    lemma_piece_count(message_bytes(m).len() as int, mtu);
    if positions.len() > 0 {
        let rest = positions.drop_last();
        lemma_named(id, m, mtu, rest);
        assert(positions[positions.len() - 1] == positions.last());
        assert(at_positions(id, m, mtu, positions) =~= at_positions(id, m, mtu, rest).push(
            at_positions(id, m, mtu, positions).last(),
        ));
    } else {
        assert(named_fragments(id, message_bytes(m), mtu, positions) =~= at_positions(
            id,
            m,
            mtu,
            positions,
        ));
    }
}

/// What is lost is repaired: of the fragments that a receiver of part of a message
/// misses, as many as one report names are sent again, and no other. If that is
/// all of them, they bring it exactly that message; if not, it misses fewer by
/// as many.
pub proof fn law_lost_fragments_are_repaired(v: WireView, w: WireView, m: MessageView)
    requires
        carries(v, m),
        w.inbound.accepted matches Some(done) ==> v.next_id > done,
        w.inbound.current matches Some(p) && p.id == v.next_id && pieces_of(
            p,
            message_bytes(m),
            v.mtu,
        ),
        missing_count(w, v.next_id, m, v.mtu) > 0,
    ensures
        ({
            let p = w.inbound.current->Some_0;
            let again = resent(
                sent(v, m).0,
                v.next_id,
                front_gaps(absent(p.frags, p.count)),
            );
            let missing = missing_count(w, v.next_id, m, v.mtu);
            let (w1, r) = taken_in(w, again);
            if missing <= NACK_MAX_INDICES {
                &&& again.len() == missing
                &&& r == Some(RecvView::Message(m))
                &&& w1.inbound.accepted == Some(v.next_id)
            } else {
                &&& again.len() == NACK_MAX_INDICES
                &&& r is None
                &&& awaits(w1, v.next_id, m, v.mtu)
                &&& missing_count(w1, v.next_id, m, v.mtu) == missing - NACK_MAX_INDICES
            }
        }),
{
    let bytes = message_bytes(m);
    let count = count_of(m, v.mtu);
    lemma_piece_count(bytes.len() as int, v.mtu);
    let p = w.inbound.current->Some_0;
    assert(target(w.inbound, v.next_id, count) == p);
    let all = absent(p.frags, p.count);
    lemma_absent(p.frags, p.count);
    let gaps = front_gaps(all);
    assert(gaps.no_duplicates());
    lemma_each_once(gaps);
    assert forall|i: int| 0 <= i < gaps.len() implies #[trigger] gaps[i] < count
        && !p.frags.dom().contains(gaps[i] as nat) by {
        assert(all.contains(all[i]));
    }
    lemma_named(v.next_id, m, v.mtu, gaps);
    assert(are_missing(w, v.next_id, m, v.mtu, gaps));
    lemma_filled(w, v.next_id, m, v.mtu, gaps, gaps.len());
    assert(gaps.take(gaps.len() as int) =~= gaps);
}

/// Where a response stalls, the client names what it misses: a report of fragments that
/// it lacks and no others, each once, and all of them if they fit one report; where
/// nothing has come it asks again.
pub proof fn law_stalled_client_names_what_it_misses(e: Exchange, w: WireView)
    requires
        w.inbound.stored <= e.progress_from,
        w.inbound.current matches Some(p) ==> p.count <= MAX_FRAGMENTS,
    ensures
        match (w.inbound.current, interval_over(e, w).1) {
            (Some(p), ElapsedView::Repair { datagram, .. }) => read_packet(datagram) matches Some(
                PacketView::Nack { id, indices },
            ) && id == p.id && indices.no_duplicates() && (forall|i: u64| #[trigger]
                indices.contains(i) ==> i < p.count && !p.frags.dom().contains(i as nat)) && (
            indices.len() < NACK_MAX_INDICES ==> forall|i: u64|
                i < p.count && !p.frags.dom().contains(i as nat) ==> #[trigger] indices.contains(i)),
            (None, ElapsedView::Ask { .. }) => true,
            _ => false,
        },
{
    if let Some(p) = w.inbound.current {
        let all = absent(p.frags, p.count);
        let gaps = front_gaps(all);
        lemma_absent(p.frags, p.count);
        law_nack_roundtrip(p.id, gaps);
        assert forall|i: u64| #[trigger] gaps.contains(i) implies i < p.count
            && !p.frags.dom().contains(i as nat) by {
            let k = gaps.index_of(i);
            assert(all[k] == i);
            assert(all.contains(i));
        }
        if gaps.len() < NACK_MAX_INDICES {
            assert(gaps =~= all);
        }
    }
}

/// What is reported missing of the last message is sent again: every fragment named that
/// there is, and no other; nothing of a message that is not the last.
pub proof fn law_named_fragments_are_sent_again(v: WireView, id: u64, indices: Seq<u64>, i: u64)
    requires
        v.mtu > HEADER_BUDGET,
    ensures
        match v.last_sent {
            Some((last, bytes)) => {
                let count = piece_count(bytes.len() as int, v.mtu);
                let fragment = data_bytes(id, i, count as u64, piece(bytes, v.mtu, i as int));
                &&& last != id ==> resent(v, id, indices).len() == 0
                &&& last == id && indices.contains(i) && i < count ==> resent(
                    v,
                    id,
                    indices,
                ).contains(fragment)
                &&& forall|k: int|
                    0 <= k < resent(v, id, indices).len() ==> exists|j: u64|
                        indices.contains(j) && j < count && #[trigger] resent(v, id, indices)[k]
                            == #[trigger] data_bytes(
                            id,
                            j,
                            count as u64,
                            piece(bytes, v.mtu, j as int),
                        )
                &&& resent(v, id, indices).len() <= indices.len()
            },
            None => resent(v, id, indices).len() == 0,
        },
{
    if let Some((last, bytes)) = v.last_sent {
        if last == id {
            lemma_each_once_holds(indices);
            lemma_named_holds(id, bytes, v.mtu, each_once(indices));
            let count = piece_count(bytes.len() as int, v.mtu);
            let out = resent(v, id, indices);
            assert forall|k: int| 0 <= k < out.len() implies exists|j: u64|
                indices.contains(j) && j < count && #[trigger] out[k] == #[trigger] data_bytes(
                    id,
                    j,
                    count as u64,
                    piece(bytes, v.mtu, j as int),
                ) by {
                let j = choose|j: u64|
                    each_once(indices).contains(j) && j < count && out[k] == #[trigger] data_bytes(
                        id,
                        j,
                        count as u64,
                        piece(bytes, v.mtu, j as int),
                    );
                assert(indices.contains(j));
            }
        }
    }
}

proof fn lemma_each_once_holds(s: Seq<u64>)
    ensures
        forall|x: u64| #[trigger] each_once(s).contains(x) <==> s.contains(x),
        each_once(s).len() <= s.len(),
    decreases s.len(),
{
    if s.len() > 0 {
        let rest = s.drop_last();
        lemma_each_once_holds(rest);
        assert(s =~= rest.push(s.last()));
        assert forall|x: u64| #[trigger] each_once(s).contains(x) <==> s.contains(x) by {
            lemma_push_contains(rest, s.last(), x);
            lemma_push_contains(each_once(rest), s.last(), x);
        }
    }
}

proof fn lemma_named_holds(id: u64, bytes: Seq<u8>, mtu: int, indices: Seq<u64>)
    ensures
        ({
            let out = named_fragments(id, bytes, mtu, indices);
            let count = piece_count(bytes.len() as int, mtu);
            &&& out.len() <= indices.len()
            &&& forall|i: u64|
                indices.contains(i) && i < count ==> out.contains(
                    #[trigger] data_bytes(id, i, count as u64, piece(bytes, mtu, i as int)),
                )
            &&& forall|k: int|
                0 <= k < out.len() ==> exists|j: u64|
                    indices.contains(j) && j < count && #[trigger] out[k] == #[trigger] data_bytes(
                        id,
                        j,
                        count as u64,
                        piece(bytes, mtu, j as int),
                    )
        }),
    decreases indices.len(),
{
    if indices.len() > 0 {
        let rest = indices.drop_last();
        let x = indices.last();
        let count = piece_count(bytes.len() as int, mtu);
        lemma_named_holds(id, bytes, mtu, rest);
        let front = named_fragments(id, bytes, mtu, rest);
        let out = named_fragments(id, bytes, mtu, indices);
        let last = data_bytes(id, x, count as u64, piece(bytes, mtu, x as int));
        assert(indices =~= rest.push(x));
        assert forall|i: u64| indices.contains(i) && i < count implies out.contains(
            #[trigger] data_bytes(id, i, count as u64, piece(bytes, mtu, i as int)),
        ) by {
            lemma_push_contains(rest, x, i);
            let f = data_bytes(id, i, count as u64, piece(bytes, mtu, i as int));
            lemma_push_contains(front, last, f);
        }
        assert forall|k: int| 0 <= k < out.len() implies exists|j: u64|
            indices.contains(j) && j < count && #[trigger] out[k] == #[trigger] data_bytes(
                id,
                j,
                count as u64,
                piece(bytes, mtu, j as int),
            ) by {
            if k < front.len() {
                assert(out[k] == front[k]);
                let j = choose|j: u64|
                    rest.contains(j) && j < count && front[k] == #[trigger] data_bytes(
                        id,
                        j,
                        count as u64,
                        piece(bytes, mtu, j as int),
                    );
                lemma_push_contains(rest, x, j);
            } else {
                lemma_push_contains(rest, x, x);
            }
        }
    }
}

/// Every message goes out under an id of its own, higher than those before, and can be sent
/// again until the next one goes out; one too large to send changes nothing.
pub proof fn law_message_goes_out_under_its_own_id(v: WireView, m: MessageView)
    requires
        v.next_id < u64::MAX,
        v.mtu > HEADER_BUDGET,
    ensures
        ({
            let (after, out) = sent(v, m);
            if message_bytes(m).len() > MAX_MESSAGE {
                &&& after == v
                &&& out is Err
            } else {
                &&& out is Ok
                &&& out->Ok_0.len() == piece_count(message_bytes(m).len() as int, v.mtu)
                &&& after.next_id == v.next_id + 1
                &&& after.last_sent == Some((v.next_id, message_bytes(m)))
                &&& after.inbound == v.inbound
                &&& after.window == v.window
                &&& after.rtt == v.rtt
            }
        }),
{
    lemma_piece_count(message_bytes(m).len() as int, v.mtu);
}

/// What is no packet, and a report of missing fragments, leave a wire as it is; the report
/// is handed on.
pub proof fn law_noise_leaves_a_wire_as_it_is(v: WireView, datagram: Seq<u8>)
    ensures
        read_packet(datagram) is None ==> arrived(v, datagram) == (v, None::<RecvView>),
        read_packet(datagram) matches Some(PacketView::Nack { id, indices }) ==> arrived(
            v,
            datagram,
        ) == (v, Some(RecvView::Nack { id, indices })),
        arrived(v, datagram).0.next_id == v.next_id,
        arrived(v, datagram).0.last_sent == v.last_sent,
        arrived(v, datagram).0.window == v.window,
{
}

} // verus!
