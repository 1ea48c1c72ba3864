//! Scheduling for a blob download from several providers.
//!
//! Each chunk is named by its hash, so a chunk fetched from any provider is
//! verified the same way and any provider holding it is interchangeable. This
//! module hands distinct chunks out to providers, folds in the ones that come
//! back verified, takes back the ones that don't, and knows when the blob is
//! whole.
use crate::blob::{
    assembled, held, holds, law_assembled_iff_all_held, law_taken_leaves_the_rest, put_in,
    taken_from, Manifest, Store, StoredView,
};
use crate::blob_download::{distinct, distinct_of, law_distinct};
use crate::bytes::{array_of, lemma_array_from_view, lemma_array_of, same_array};
use crate::crypto::{blake3_digest, hash, Digest};
use crate::id::{big_endian, lemma_big_endian_injective, lemma_big_endian_less};
use crate::lists::{
    first, found, lemma_first, lemma_first_at, lemma_first_none, lemma_push_contains, views,
};
use vstd::prelude::*;

verus! {

/// How [`Plan::assign`] orders the pending chunks it hands out.
#[derive(Clone, Copy, Debug, PartialEq, Eq, Structural)]
pub enum Selection {
    /// Fewest known holders first, which keeps every piece available across the
    /// swarm. The right default for a bulk download.
    RarestFirst,
    /// For streaming playback: fetch only the chunks nearest the playback
    /// frontier, in playback order.
    Streaming {
        /// How many chunks ahead of the playback frontier to fetch.
        window: usize,
    },
}

impl Default for Selection {
    fn default() -> (r: Self)
        ensures
            r == Selection::RarestFirst,
    {
        Selection::RarestFirst
    }
}

/// What a provider can serve, as far as the scheduler knows.
#[derive(Clone, Debug)]
pub enum Holdings {
    /// The provider reported holding exactly these chunks.
    Known(Vec<Digest>),
    /// The provider couldn't report its holdings, so it might hold anything
    /// except these chunks, which it has since refused. Used only as a last
    /// resort, after known holders.
    Unknown(Vec<Digest>),
}

/// A [`Holdings`] as a mathematical value.
#[verifier::ext_equal]
pub enum HoldingsView {
    /// The chunks held.
    Known(Set<Digest>),
    /// The chunks refused.
    Unknown(Set<Digest>),
}

impl View for Holdings {
    type V = HoldingsView;

    open spec fn view(&self) -> HoldingsView {
        match self {
            Holdings::Known(set) => HoldingsView::Known(set@.to_set()),
            Holdings::Unknown(refused) => HoldingsView::Unknown(refused@.to_set()),
        }
    }
}

/// Whether a provider might serve a chunk.
pub open spec fn might_serve(h: HoldingsView, chunk: Digest) -> bool {
    match h {
        HoldingsView::Known(set) => set.contains(chunk),
        HoldingsView::Unknown(refused) => !refused.contains(chunk),
    }
}

/// Whether a provider is known to hold a chunk.
pub open spec fn is_holder(h: HoldingsView, chunk: Digest) -> bool {
    h matches HoldingsView::Known(set) && set.contains(chunk)
}

/// What is known of a provider that didn't serve a chunk it was asked for.
pub open spec fn after_refusal(h: HoldingsView, chunk: Digest) -> HoldingsView {
    match h {
        HoldingsView::Known(set) => HoldingsView::Known(set.remove(chunk)),
        HoldingsView::Unknown(refused) => HoldingsView::Unknown(refused.insert(chunk)),
    }
}

fn has_digest(s: &Vec<Digest>, d: &Digest) -> (r: bool)
    ensures
        r == s@.contains(*d),
{
    let mut i: usize = 0;
    while i < s.len()
        invariant
            i <= s.len(),
            forall|j: int| 0 <= j < i ==> #[trigger] s@[j] != *d,
        decreases s.len() - i,
    {
        if same_array(&s[i], d) {
            assert(s@[i as int] == *d);
            return true;
        }
        i += 1;
    }
    false
}

/// A list without a chunk.
fn without(s: &Vec<Digest>, d: &Digest) -> (r: Vec<Digest>)
    ensures
        forall|x: Digest| #[trigger] r@.contains(x) <==> s@.contains(x) && x != *d,
        s@.no_duplicates() ==> r@.no_duplicates(),
{
    let mut r: Vec<Digest> = Vec::new();
    let mut i: usize = 0;
    while i < s.len()
        invariant
            i <= s.len(),
            forall|x: Digest| #[trigger]
                r@.contains(x) <==> s@.take(i as int).contains(x) && x != *d,
            s@.no_duplicates() ==> r@.no_duplicates(),
        decreases s.len() - i,
    {
        let x: Digest = s[i];
        let ghost before = r@;
        let ghost seen = s@.take(i as int);
        assert(s@.take(i + 1) =~= seen.push(x));
        if !same_array(&x, d) {
            r.push(x);
            proof {
                if s@.no_duplicates() {
                    if before.contains(x) {
                        assert(seen.contains(x));
                        let j = seen.index_of(x);
                        assert(s@[j] == s@[i as int]);
                    }
                }
            }
        }
        proof {
            assert forall|y: Digest| #[trigger]
                r@.contains(y) <==> s@.take(i + 1).contains(y) && y != *d by {
                lemma_push_contains(seen, x, y);
                lemma_push_contains(before, x, y);
                assert(before.contains(y) <==> seen.contains(y) && y != *d);
            }
        }
        i += 1;
    }
    assert(s@.take(s@.len() as int) =~= s@);
    r
}

impl Holdings {
    /// A provider whose holdings are unknown and that has refused nothing yet.
    pub fn unknown() -> (r: Self)
        ensures
            r@ == HoldingsView::Unknown(Set::empty()),
    {
        let r = Holdings::Unknown(Vec::new());
        assert(r@->Unknown_0 =~= Set::empty());
        r
    }

    /// Record that this provider won't serve `hash` after all: it was asked for
    /// it but didn't return it. It won't be offered that chunk again.
    pub fn refuse(&mut self, hash: &Digest)
        ensures
            final(self)@ == after_refusal(old(self)@, *hash),
    {
        match self {
            Holdings::Known(set) => {
                let ghost before = set@;
                let rest: Vec<Digest> = without(set, hash);
                assert(rest@.to_set() =~= before.to_set().remove(*hash));
                *set = rest;
            },
            Holdings::Unknown(refused) => {
                let ghost before = refused@;
                proof {
                    assert forall|x: Digest| #[trigger]
                        before.push(*hash).to_set().contains(x) == before.to_set().insert(
                            *hash,
                        ).contains(x) by {
                        lemma_push_contains(before, *hash, x);
                    }
                    assert(before.push(*hash).to_set() =~= before.to_set().insert(*hash));
                }
                refused.push(*hash);
            },
        }
    }

    /// Whether this provider might serve `hash`: a known holder that has it, or
    /// one of unknown holdings that hasn't refused it.
    pub fn can_serve(&self, hash: &Digest) -> (r: bool)
        ensures
            r == might_serve(self@, *hash),
    {
        match self {
            Holdings::Known(set) => has_digest(set, hash),
            Holdings::Unknown(refused) => !has_digest(refused, hash),
        }
    }

    /// Whether this provider's holdings are unknown.
    pub fn is_unknown(&self) -> (r: bool)
        ensures
            r == (self@ is Unknown),
    {
        match self {
            Holdings::Known(_) => false,
            Holdings::Unknown(_) => true,
        }
    }

    /// Whether this is a known holder of `hash`. One of unknown holdings is not,
    /// so it doesn't count toward a chunk's rarity.
    pub fn is_known_holder(&self, hash: &Digest) -> (r: bool)
        ensures
            r == is_holder(self@, *hash),
    {
        match self {
            Holdings::Known(set) => has_digest(set, hash),
            Holdings::Unknown(_) => false,
        }
    }
}

/// What providers offer.
pub open spec fn offers(s: Seq<&Holdings>) -> Seq<HoldingsView> {
    Seq::new(s.len(), |i: int| s[i]@)
}

/// How many providers are known to hold a chunk.
pub open spec fn holders(s: Seq<HoldingsView>, chunk: Digest) -> nat
    decreases s.len(),
{
    if s.len() == 0 {
        0
    } else {
        holders(s.drop_last(), chunk) + if is_holder(s.last(), chunk) {
            1nat
        } else {
            0
        }
    }
}

/// A [`Plan`] as a mathematical value.
#[verifier::ext_equal]
pub struct PlanView {
    /// The chunks of the blob, in playback order.
    pub chunks: Seq<Digest>,
    /// The chunks not yet handed to a provider.
    pub pending: Set<Digest>,
    /// The verified chunks.
    pub have: Seq<StoredView>,
    /// How pending chunks are ordered.
    pub selection: Selection,
    /// The next playback index to deliver.
    pub frontier: nat,
}

/// What is a chunk.
pub open spec fn is_chunk(chunk: Digest) -> spec_fn(Digest) -> bool {
    |d: Digest| d == chunk
}

/// The playback position of a chunk: where it first appears.
pub open spec fn position(chunks: Seq<Digest>, chunk: Digest) -> int {
    first(chunks, is_chunk(chunk))->Some_0
}

/// Whether a chunk may be handed out now.
pub open spec fn eligible(v: PlanView, chunk: Digest) -> bool {
    &&& v.pending.contains(chunk)
    &&& match v.selection {
        Selection::RarestFirst => true,
        Selection::Streaming { window } => position(v.chunks, chunk) < v.frontier + window,
    }
}

/// What a chunk is ordered by in the first place: rarity, or playback position.
pub open spec fn rank(v: PlanView, offered: Seq<HoldingsView>, chunk: Digest) -> int {
    match v.selection {
        Selection::RarestFirst => holders(offered, chunk) as int,
        Selection::Streaming { .. } => position(v.chunks, chunk),
    }
}

/// Whether one chunk is handed out before another: by rank, and among chunks of
/// one rank by hash.
pub open spec fn precedes(v: PlanView, offered: Seq<HoldingsView>, a: Digest, b: Digest) -> bool {
    rank(v, offered, a) < rank(v, offered, b) || (rank(v, offered, a) == rank(v, offered, b)
        && big_endian(a@) < big_endian(b@))
}

/// Chunks stand in the order they are handed out in.
pub open spec fn in_turn(v: PlanView, offered: Seq<HoldingsView>, s: Seq<Digest>) -> bool {
    forall|i: int, j: int|
        0 <= i < j < s.len() ==> precedes(v, offered, #[trigger] s[i], #[trigger] s[j])
}

/// Whether a list is that of the chunks that may be handed out, in order.
pub open spec fn is_order(v: PlanView, offered: Seq<HoldingsView>, s: Seq<Digest>) -> bool {
    &&& in_turn(v, offered, s)
    &&& forall|x: Digest| #[trigger] s.contains(x) <==> eligible(v, x)
}

/// The chunks that may be handed out, in the order they are handed out in.
pub open spec fn order_of(v: PlanView, offered: Seq<HoldingsView>) -> Seq<Digest> {
    choose|s: Seq<Digest>| is_order(v, offered, s)
}

/// Whether a provider has room for another chunk and might serve it.
pub open spec fn can_take(
    offered: Seq<HoldingsView>,
    given: Seq<Seq<Digest>>,
    cap: nat,
    chunk: Digest,
    i: int,
) -> bool {
    given[i].len() < cap && might_serve(offered[i], chunk)
}

/// Whether one provider is preferred to another: a known holder to one of
/// unknown holdings, then the one with less to do.
pub open spec fn preferred(
    offered: Seq<HoldingsView>,
    given: Seq<Seq<Digest>>,
    i: int,
    j: int,
) -> bool {
    (offered[i] is Known && offered[j] is Unknown) || ((offered[i] is Known) == (offered[j] is Known)
        && given[i].len() < given[j].len())
}

/// The provider among the first `n` that is given a chunk.
pub open spec fn picked(
    offered: Seq<HoldingsView>,
    given: Seq<Seq<Digest>>,
    cap: nat,
    chunk: Digest,
    n: nat,
) -> Option<int>
    decreases n,
{
    if n == 0 {
        None
    } else {
        let i = n - 1;
        match picked(offered, given, cap, chunk, (n - 1) as nat) {
            Some(best) => if can_take(offered, given, cap, chunk, i) && preferred(
                offered,
                given,
                i,
                best,
            ) {
                Some(i)
            } else {
                Some(best)
            },
            None => if can_take(offered, given, cap, chunk, i) {
                Some(i)
            } else {
                None
            },
        }
    }
}

/// A chunk handed out.
pub open spec fn handed(
    offered: Seq<HoldingsView>,
    given: Seq<Seq<Digest>>,
    cap: nat,
    chunk: Digest,
) -> Seq<Seq<Digest>> {
    match picked(offered, given, cap, chunk, offered.len()) {
        Some(i) => given.update(i, given[i].push(chunk)),
        None => given,
    }
}

/// Chunks handed out one after the other.
pub open spec fn all_handed(offered: Seq<HoldingsView>, cap: nat, order: Seq<Digest>) -> Seq<
    Seq<Digest>,
>
    decreases order.len(),
{
    if order.len() == 0 {
        Seq::new(offered.len(), |i: int| Seq::<Digest>::empty())
    } else {
        handed(offered, all_handed(offered, cap, order.drop_last()), cap, order.last())
    }
}

/// Whether a chunk has been handed out.
pub open spec fn is_given(given: Seq<Seq<Digest>>, chunk: Digest) -> bool {
    exists|i: int| 0 <= i < given.len() && (#[trigger] given[i]).contains(chunk)
}

/// The pending chunks that have not been handed out.
pub open spec fn left_over(pending: Set<Digest>, given: Seq<Seq<Digest>>) -> Set<Digest> {
    Set::new(|x: Digest| pending.contains(x) && !is_given(given, x))
}

/// A chunk a provider delivered folded in, given its hash: taken only if it is
/// of this blob, new, and what its name says.
pub open spec fn folded(v: PlanView, name: Digest, data: Seq<u8>, digest: Digest) -> (
    PlanView,
    bool,
) {
    if v.chunks.contains(name) && !holds(v.have, name) && digest == name {
        (PlanView { have: put_in(v.have, name, data), ..v }, true)
    } else {
        (v, false)
    }
}

/// Chunks taken back.
pub open spec fn taken_back(v: PlanView, names: Seq<Digest>) -> PlanView {
    PlanView {
        pending: v.pending.union(
            Set::new(|x: Digest| names.contains(x) && v.chunks.contains(x) && !holds(v.have, x)),
        ),
        ..v
    }
}

/// Whether a playback index is the last at which its chunk appears.
pub open spec fn is_last_use(chunks: Seq<Digest>, index: int) -> bool {
    forall|j: int| index < j < chunks.len() ==> #[trigger] chunks[j] != chunks[index]
}

/// The chunk at the frontier delivered.
pub open spec fn delivered(v: PlanView, drop_delivered: bool) -> PlanView {
    let index = v.frontier as int;
    PlanView {
        frontier: v.frontier + 1,
        have: if drop_delivered && index < v.chunks.len() && is_last_use(v.chunks, index) {
            taken_from(v.have, v.chunks[index])
        } else {
            v.have
        },
        ..v
    }
}

/// Whether every distinct chunk has arrived and verified.
pub open spec fn plan_complete(v: PlanView) -> bool {
    forall|i: int| 0 <= i < v.chunks.len() ==> holds(v.have, #[trigger] v.chunks[i])
}

fn less_digest(a: &Digest, b: &Digest) -> (r: bool)
    ensures
        r == (big_endian(a@) < big_endian(b@)),
{
    let mut i: usize = 0;
    while i < 32
        invariant
            i <= 32,
            forall|j: int| 0 <= j < i ==> a@[j] == b@[j],
        decreases 32 - i,
    {
        if a[i] != b[i] {
            proof {
                if a@[i as int] < b@[i as int] {
                    lemma_big_endian_less(a@, b@, i as int);
                } else {
                    lemma_big_endian_less(b@, a@, i as int);
                }
            }
            return a[i] < b[i];
        }
        i += 1;
    }
    assert(a@ =~= b@);
    false
}

fn find_chunk(s: &Vec<Digest>, chunk: &Digest) -> (r: Option<usize>)
    ensures
        found(s@, is_chunk(*chunk), r),
{
    let mut i: usize = 0;
    while i < s.len()
        invariant
            i <= s.len(),
            forall|j: int| 0 <= j < i ==> !is_chunk(*chunk)(#[trigger] s@[j]),
        decreases s.len() - i,
    {
        if same_array(&s[i], chunk) {
            proof {
                lemma_first_at(s@, is_chunk(*chunk), i as int);
            }
            return Some(i);
        }
        i += 1;
    }
    proof {
        lemma_first_none(s@, is_chunk(*chunk));
    }
    None
}

fn count_holders(holdings: &[&Holdings], chunk: &Digest) -> (r: usize)
    ensures
        r == holders(offers(holdings@), *chunk),
{
    let ghost s = offers(holdings@);
    let len: usize = holdings.len();
    let mut n: usize = 0;
    let mut i: usize = 0;
    while i < len
        invariant
            i <= len,
            len == holdings@.len(),
            s == offers(holdings@),
            n <= i,
            n == holders(s.take(i as int), *chunk),
        decreases len - i,
    {
        proof {
            assert(s.take(i + 1).drop_last() =~= s.take(i as int));
            assert(s.take(i + 1).last() == s[i as int]);
        }
        if holdings[i].is_known_holder(chunk) {
            n += 1;
        }
        i += 1;
    }
    assert(s.take(s.len() as int) =~= s);
    n
}

/// Chunks that differ come one after the other.
proof fn lemma_precedes_total(v: PlanView, offered: Seq<HoldingsView>, a: Digest, b: Digest)
    requires
        a != b,
    ensures
        precedes(v, offered, a, b) || precedes(v, offered, b, a),
{
    if big_endian(a@) == big_endian(b@) {
        lemma_big_endian_injective(a@, b@);
        lemma_array_from_view(a, b);
    }
}

/// There is one order.
proof fn lemma_order_unique(
    v: PlanView,
    offered: Seq<HoldingsView>,
    s: Seq<Digest>,
    t: Seq<Digest>,
)
    requires
        in_turn(v, offered, s),
        in_turn(v, offered, t),
        forall|x: Digest| #[trigger] s.contains(x) <==> t.contains(x),
    ensures
        s == t,
    decreases s.len(),
{
    if s.len() == 0 {
        if t.len() > 0 {
            assert(t.contains(t[0]));
            assert(s.contains(t[0]));
        }
        assert(s =~= t);
    } else {
        assert(s.contains(s[0]));
        assert(t.contains(s[0]));
        assert(t.len() > 0);
        let a = s.last();
        let b = t.last();
        assert(s.contains(a) && t.contains(b)) by {
            assert(s[s.len() - 1] == a);
            assert(t[t.len() - 1] == b);
        }
        assert(a == b) by {
            assert(t.contains(a) && s.contains(b));
            let i = t.index_of(a);
            let j = s.index_of(b);
            if i < t.len() - 1 {
                assert(precedes(v, offered, t[i], t[t.len() - 1]));
            }
            if j < s.len() - 1 {
                assert(precedes(v, offered, s[j], s[s.len() - 1]));
            }
        }
        let s1 = s.drop_last();
        let t1 = t.drop_last();
        assert forall|i: int, j: int| 0 <= i < j < s1.len() implies precedes(
            v,
            offered,
            #[trigger] s1[i],
            #[trigger] s1[j],
        ) by {
            assert(s1[i] == s[i] && s1[j] == s[j]);
        }
        assert forall|i: int, j: int| 0 <= i < j < t1.len() implies precedes(
            v,
            offered,
            #[trigger] t1[i],
            #[trigger] t1[j],
        ) by {
            assert(t1[i] == t[i] && t1[j] == t[j]);
        }
        assert forall|x: Digest| #[trigger] s1.contains(x) <==> t1.contains(x) by {
            assert(s =~= s1.push(a));
            assert(t =~= t1.push(a));
            lemma_push_contains(s1, a, x);
            lemma_push_contains(t1, a, x);
            assert(s.contains(x) <==> t.contains(x));
            if s1.contains(x) {
                let i = s1.index_of(x);
                assert(precedes(v, offered, s[i], s[s.len() - 1]));
            }
            if t1.contains(x) {
                let i = t1.index_of(x);
                assert(precedes(v, offered, t[i], t[t.len() - 1]));
            }
        }
        lemma_order_unique(v, offered, s1, t1);
        assert(s =~= s1.push(a));
        assert(t =~= t1.push(a));
    }
}

proof fn lemma_order_of(v: PlanView, offered: Seq<HoldingsView>, s: Seq<Digest>)
    requires
        is_order(v, offered, s),
    ensures
        order_of(v, offered) == s,
{
    lemma_order_unique(v, offered, order_of(v, offered), s);
}

/// Tracks which of a blob's chunks are still needed, hands them out to providers,
/// and puts the blob together once every chunk has arrived and verified.
pub struct Plan {
    manifest: Manifest,
    pending: Vec<Digest>,
    have: Store,
    selection: Selection,
    frontier: usize,
}

impl View for Plan {
    type V = PlanView;

    closed spec fn view(&self) -> PlanView {
        PlanView {
            chunks: self.manifest@,
            pending: self.pending@.to_set(),
            have: self.have@,
            selection: self.selection,
            frontier: self.frontier as nat,
        }
    }
}

impl Plan {
    /// Only chunks of the blob are pending, each once.
    pub closed spec fn wf(&self) -> bool {
        &&& self.pending@.no_duplicates()
        &&& forall|x: Digest| #[trigger] self.pending@.contains(x) ==> self.manifest@.contains(x)
    }

    /// Begin from a verified manifest: every distinct chunk is pending.
    pub fn new(manifest: Manifest) -> (r: Self)
        ensures
            r.wf(),
            r@ == (PlanView {
                chunks: manifest@,
                pending: manifest@.to_set(),
                have: Seq::empty(),
                selection: Selection::RarestFirst,
                frontier: 0,
            }),
    {
        let pending: Vec<Digest> = distinct_of(&manifest.chunks);
        proof {
            law_distinct(manifest@);
            assert(distinct(manifest@).to_set() =~= manifest@.to_set());
        }
        Plan {
            manifest,
            pending,
            have: Store::new(),
            selection: Selection::RarestFirst,
            frontier: 0,
        }
    }

    /// Choose how [`Plan::assign`] orders the pending chunks it hands out.
    pub fn set_selection(&mut self, selection: Selection)
        requires
            old(self).wf(),
        ensures
            final(self).wf(),
            final(self)@ == (PlanView { selection, ..old(self)@ }),
    {
        self.selection = selection;
    }

    fn position_of(&self, chunk: &Digest) -> (r: usize)
        requires
            self.manifest@.contains(*chunk),
        ensures
            r == position(self@.chunks, *chunk),
            r < self@.chunks.len(),
    {
        proof {
            lemma_first(self.manifest@, is_chunk(*chunk));
            let k = self.manifest@.index_of(*chunk);
            assert(is_chunk(*chunk)(self.manifest@[k]));
        }
        match find_chunk(&self.manifest.chunks, chunk) {
            Some(i) => i,
            None => 0,
        }
    }

    fn is_eligible(&self, chunk: &Digest) -> (r: bool)
        requires
            self.wf(),
            self.pending@.contains(*chunk),
        ensures
            r == eligible(self@, *chunk),
    {
        match self.selection {
            Selection::RarestFirst => true,
            Selection::Streaming { window } => {
                let at: usize = self.position_of(chunk);
                at < self.frontier || at - self.frontier < window
            },
        }
    }

    fn rank_of(&self, holdings: &[&Holdings], chunk: &Digest) -> (r: usize)
        requires
            self.manifest@.contains(*chunk),
        ensures
            r == rank(self@, offers(holdings@), *chunk),
    {
        match self.selection {
            Selection::RarestFirst => count_holders(holdings, chunk),
            Selection::Streaming { .. } => self.position_of(chunk),
        }
    }

    /// The chunks that may be handed out, in the order they are handed out in.
    pub fn ordered_pending(&self, holdings: &[&Holdings]) -> (r: Vec<Digest>)
        requires
            self.wf(),
        ensures
            is_order(self@, offers(holdings@), r@),
            r@ == order_of(self@, offers(holdings@)),
    {
        let ghost v = self@;
        let ghost offered = offers(holdings@);
        let mut r: Vec<Digest> = Vec::new();
        let mut ranks: Vec<usize> = Vec::new();
        let mut n: usize = 0;
        while n < self.pending.len()
            invariant
                self.wf(),
                v == self@,
                offered == offers(holdings@),
                n <= self.pending.len(),
                in_turn(v, offered, r@),
                ranks@.len() == r@.len(),
                forall|j: int|
                    0 <= j < r@.len() ==> #[trigger] ranks@[j] == rank(v, offered, r@[j]),
                forall|x: Digest| #[trigger]
                    r@.contains(x) <==> self.pending@.take(n as int).contains(x) && eligible(v, x),
            decreases self.pending.len() - n,
        {
            let x: Digest = self.pending[n];
            let ghost s = r@;
            let ghost seen = self.pending@.take(n as int);
            proof {
                assert(self.pending@.contains(x));
                assert(self.pending@.take(n + 1) =~= seen.push(x));
                if seen.contains(x) {
                    let j = seen.index_of(x);
                    assert(self.pending@[j] == self.pending@[n as int]);
                }
            }
            if self.is_eligible(&x) {
                let k: usize = self.rank_of(holdings, &x);
                let mut i: usize = r.len();
                while i > 0 && (k < ranks[i - 1] || (k == ranks[i - 1] && less_digest(
                    &x,
                    &r[i - 1],
                )))
                    invariant
                        i <= r.len(),
                        r@ == s,
                        k == rank(v, offered, x),
                        ranks@.len() == s.len(),
                        forall|j: int|
                            0 <= j < s.len() ==> #[trigger] ranks@[j] == rank(v, offered, s[j]),
                        in_turn(v, offered, s),
                        forall|j: int|
                            i <= j < s.len() ==> precedes(v, offered, x, #[trigger] s[j]),
                    decreases i,
                {
                    i -= 1;
                }
                proof {
                    lemma_inserted(v, offered, s, i as int, x);
                }
                r.insert(i, x);
                ranks.insert(i, k);
            }
            proof {
                assert forall|y: Digest| #[trigger]
                    r@.contains(y) <==> self.pending@.take(n + 1).contains(y) && eligible(
                    v,
                    y,
                ) by {
                    lemma_push_contains(seen, x, y);
                    assert(s.contains(y) <==> seen.contains(y) && eligible(v, y));
                }
            }
            n += 1;
        }
        proof {
            assert(self.pending@.take(self.pending@.len() as int) =~= self.pending@);
            lemma_order_of(v, offered, r@);
        }
        r
    }

    /// Assign pending chunks to providers for one round. Chunks are considered in
    /// the order set by the current [`Selection`], and each is given to a
    /// least-loaded provider that can serve it, up to `cap` chunks per provider,
    /// a known holder always preferred to one of unknown holdings. A chunk no one
    /// can serve is left pending. The result is indexed to match `holdings`.
    pub fn assign(&mut self, holdings: &[&Holdings], cap: usize) -> (r: Vec<Vec<Digest>>)
        requires
            old(self).wf(),
        ensures
            final(self).wf(),
            is_order(
                old(self)@,
                offers(holdings@),
                order_of(old(self)@, offers(holdings@)),
            ),
            views(r@) == all_handed(
                offers(holdings@),
                cap as nat,
                order_of(old(self)@, offers(holdings@)),
            ),
            final(self)@ == (PlanView {
                pending: left_over(old(self)@.pending, views(r@)),
                ..old(self)@
            }),
    {
        let ghost v = self@;
        let ghost offered = offers(holdings@);
        let order: Vec<Digest> = self.ordered_pending(holdings);
        let len: usize = holdings.len();
        let mut given: Vec<Vec<Digest>> = Vec::new();
        let mut g: usize = 0;
        while g < len
            invariant
                g <= len,
                given@.len() == g,
                forall|j: int| 0 <= j < g ==> (#[trigger] given@[j])@ == Seq::<Digest>::empty(),
            decreases len - g,
        {
            given.push(Vec::new());
            g += 1;
        }
        let mut n: usize = 0;
        proof {
            assert(order@.take(0) =~= Seq::<Digest>::empty());
            assert(views(given@) =~= all_handed(offered, cap as nat, order@.take(0)));
            assert forall|x: Digest| !is_given(views(given@), x) by {}
            assert(left_over(v.pending, views(given@)) =~= v.pending);
            assert(self@ =~= (PlanView { pending: left_over(v.pending, views(given@)), ..v }));
        }
        while n < order.len()
            invariant
                self.wf(),
                n <= order.len(),
                len == holdings@.len(),
                offered == offers(holdings@),
                given@.len() == len,
                views(given@) == all_handed(offered, cap as nat, order@.take(n as int)),
                self@ == (PlanView { pending: left_over(v.pending, views(given@)), ..v }),
            decreases order.len() - n,
        {
            let x: Digest = order[n];
            let ghost before = views(given@);
            proof {
                assert(order@.take(n + 1).drop_last() =~= order@.take(n as int));
                assert(order@.take(n + 1).last() == x);
            }
            if let Some(i) = pick(holdings, &given, cap, &x) {
                let ghost list = given@;
                given[i].push(x);
                proof {
                    assert(views(given@) =~= before.update(i as int, before[i as int].push(x)));
                    lemma_given_more(before, i as int, x);
                }
                let rest: Vec<Digest> = without(&self.pending, &x);
                proof {
                    let after = views(given@);
                    assert forall|y: Digest| rest@.to_set().contains(y) == left_over(
                        v.pending,
                        after,
                    ).contains(y) by {
                        assert(self.pending@.to_set().contains(y) == left_over(
                            v.pending,
                            before,
                        ).contains(y));
                        assert(rest@.contains(y) <==> self.pending@.contains(y) && y != x);
                        assert(is_given(after, y) <==> is_given(before, y) || y == x);
                    }
                    assert(rest@.to_set() =~= left_over(v.pending, after));
                }
                self.pending = rest;
            }
            n += 1;
        }
        assert(order@.take(order@.len() as int) =~= order@);
        given
    }

    /// Fold in a chunk a provider delivered. The bytes must hash to `hash` and
    /// `hash` must belong to this blob; otherwise it is ignored. Returns whether
    /// it was accepted as new progress.
    pub fn store(&mut self, name: Digest, data: Vec<u8>) -> (r: bool)
        requires
            old(self).wf(),
        ensures
            final(self).wf(),
            (final(self)@, r) == folded(
                old(self)@,
                name,
                data@,
                array_of::<32>(blake3_digest(data@)),
            ),
    {
        let digest: Digest = hash(data.as_slice());
        proof {
            lemma_array_of(digest);
        }
        self.store_hashed(name, data, digest)
    }

    /// Fold in a chunk a provider delivered, given the hash of its bytes.
    pub fn store_hashed(&mut self, name: Digest, data: Vec<u8>, digest: Digest) -> (r: bool)
        requires
            old(self).wf(),
        ensures
            final(self).wf(),
            (final(self)@, r) == folded(old(self)@, name, data@, digest),
    {
        if !has_digest(&self.manifest.chunks, &name) || self.have.has(&name) {
            return false;
        }
        if !same_array(&digest, &name) {
            return false;
        }
        self.have.put_hashed(name, data);
        true
    }

    /// Return chunks a provider was assigned but didn't deliver, so another
    /// provider can be given them. Ones that have since arrived are dropped.
    pub fn requeue(&mut self, names: &Vec<Digest>)
        requires
            old(self).wf(),
        ensures
            final(self).wf(),
            final(self)@ == taken_back(old(self)@, names@),
    {
        let ghost v = self@;
        let mut i: usize = 0;
        assert(self@.pending =~= taken_back(v, names@.take(0)).pending);
        while i < names.len()
            invariant
                self.wf(),
                i <= names.len(),
                self@ == taken_back(v, names@.take(i as int)),
            decreases names.len() - i,
        {
            let x: Digest = names[i];
            let ghost seen = names@.take(i as int);
            let ghost before = self.pending@;
            assert(names@.take(i + 1) =~= seen.push(x));
            if has_digest(&self.manifest.chunks, &x) && !self.have.has(&x) && !has_digest(
                &self.pending,
                &x,
            ) {
                self.pending.push(x);
                proof {
                    assert forall|y: Digest| #[trigger]
                        self.pending@.contains(y) implies self.manifest@.contains(y) by {
                        lemma_push_contains(before, x, y);
                    }
                }
            }
            proof {
                assert forall|y: Digest| self@.pending.contains(y) == taken_back(
                    v,
                    names@.take(i + 1),
                ).pending.contains(y) by {
                    lemma_push_contains(seen, x, y);
                    lemma_push_contains(before, x, y);
                    assert(before.to_set().contains(y) == taken_back(v, seen).pending.contains(y));
                }
                assert(self@.pending =~= taken_back(v, names@.take(i + 1)).pending);
            }
            i += 1;
        }
        assert(names@.take(names@.len() as int) =~= names@);
    }

    /// Distinct chunks still waiting to be assigned.
    pub fn pending(&self) -> (r: usize)
        requires
            self.wf(),
        ensures
            r == self@.pending.len(),
    {
        proof {
            self.pending@.unique_seq_to_set();
        }
        self.pending.len()
    }

    /// Whether a chunk is waiting to be assigned.
    pub fn pending_contains(&self, name: Digest) -> (r: bool)
        ensures
            r == self@.pending.contains(name),
    {
        has_digest(&self.pending, &name)
    }

    /// How many chunks are stored.
    pub fn stored_count(&self) -> (r: usize)
        ensures
            r == self@.have.len(),
    {
        self.have.len()
    }

    /// Whether every distinct chunk has arrived and verified.
    pub fn is_complete(&self) -> (r: bool)
        ensures
            r == plan_complete(self@),
    {
        let ghost v = self@;
        let mut i: usize = 0;
        while i < self.manifest.chunks.len()
            invariant
                v == self@,
                i <= self.manifest.chunks.len(),
                forall|j: int| 0 <= j < i ==> holds(v.have, #[trigger] v.chunks[j]),
            decreases self.manifest.chunks.len() - i,
        {
            if !self.have.has(&self.manifest.chunks[i]) {
                assert(!holds(v.have, v.chunks[i as int]));
                return false;
            }
            i += 1;
        }
        true
    }

    /// The blob, or `None` if not yet complete.
    pub fn reassemble(&self) -> (r: Option<Vec<u8>>)
        ensures
            match assembled(self@.have, self@.chunks) {
                Some(data) => r is Some && r->Some_0@ == data,
                None => r is None,
            },
            r is Some <==> plan_complete(self@),
    {
        proof {
            law_assembled_iff_all_held(self@.have, self@.chunks);
        }
        self.have.reassemble(&self.manifest)
    }

    /// How many chunks the blob has, in playback order, counting repeats.
    pub fn chunk_count(&self) -> (r: usize)
        ensures
            r == self@.chunks.len(),
    {
        self.manifest.chunks.len()
    }

    /// The verified bytes of the chunk at playback `index`, if it is stored.
    pub fn chunk_at(&self, index: usize) -> (r: Option<&Vec<u8>>)
        ensures
            match r {
                Some(data) => index < self@.chunks.len() && holds(
                    self@.have,
                    self@.chunks[index as int],
                ) && data@ == held(self@.have, self@.chunks[index as int]),
                None => index >= self@.chunks.len() || !holds(
                    self@.have,
                    self@.chunks[index as int],
                ),
            },
    {
        if index < self.manifest.chunks.len() {
            self.have.get(&self.manifest.chunks[index])
        } else {
            None
        }
    }

    /// The next playback index not yet delivered.
    pub fn frontier(&self) -> (r: usize)
        ensures
            r == self@.frontier,
    {
        self.frontier
    }

    /// Whether every playback index has been delivered.
    pub fn all_delivered(&self) -> (r: bool)
        ensures
            r == (self@.frontier >= self@.chunks.len()),
    {
        self.frontier >= self.manifest.chunks.len()
    }

    /// Record that the chunk at the frontier has been delivered: advance the
    /// frontier and, when `drop_delivered` is set, free the chunk's bytes once its
    /// last playback position has passed.
    pub fn advance_delivery(&mut self, drop_delivered: bool)
        requires
            old(self).wf(),
            old(self)@.frontier < usize::MAX,
        ensures
            final(self).wf(),
            final(self)@ == delivered(old(self)@, drop_delivered),
    {
        let index: usize = self.frontier;
        self.frontier += 1;
        if drop_delivered && index < self.manifest.chunks.len() {
            let x: Digest = self.manifest.chunks[index];
            let mut last: bool = true;
            let mut j: usize = index + 1;
            while j < self.manifest.chunks.len()
                invariant
                    index < j <= self.manifest.chunks.len(),
                    x == self.manifest.chunks@[index as int],
                    last <==> forall|k: int|
                        index < k < j ==> #[trigger] self.manifest.chunks@[k] != x,
                decreases self.manifest.chunks.len() - j,
            {
                if same_array(&self.manifest.chunks[j], &x) {
                    last = false;
                    assert(self.manifest.chunks@[j as int] == x);
                }
                j += 1;
            }
            if last {
                self.have.remove(&x);
            }
        }
    }
}

/// The provider that is given a chunk.
fn pick(holdings: &[&Holdings], given: &Vec<Vec<Digest>>, cap: usize, chunk: &Digest) -> (r: Option<
    usize,
>)
    requires
        given@.len() == holdings@.len(),
    ensures
        match r {
            Some(i) => i < given@.len() && picked(
                offers(holdings@),
                views(given@),
                cap as nat,
                *chunk,
                holdings@.len(),
            ) == Some(i as int),
            None => picked(
                offers(holdings@),
                views(given@),
                cap as nat,
                *chunk,
                holdings@.len(),
            ) is None,
        },
{
    let ghost offered = offers(holdings@);
    let ghost lists = views(given@);
    let len: usize = holdings.len();
    let mut best: Option<usize> = None;
    let mut i: usize = 0;
    while i < len
        invariant
            i <= len,
            len == holdings@.len(),
            given@.len() == len,
            offered == offers(holdings@),
            lists == views(given@),
            match best {
                Some(b) => b < i && picked(offered, lists, cap as nat, *chunk, i as nat) == Some(
                    b as int,
                ),
                None => picked(offered, lists, cap as nat, *chunk, i as nat) is None,
            },
        decreases len - i,
    {
        assert(lists[i as int] == given@[i as int]@);
        assert(offered[i as int] == holdings@[i as int]@);
        if given[i].len() < cap && holdings[i].can_serve(chunk) {
            match best {
                Some(b) => {
                    assert(lists[b as int] == given@[b as int]@);
                    assert(offered[b as int] == holdings@[b as int]@);
                    let iu: bool = holdings[i].is_unknown();
                    let bu: bool = holdings[b].is_unknown();
                    if (!iu && bu) || (iu == bu && given[i].len() < given[b].len()) {
                        best = Some(i);
                    }
                },
                None => {
                    best = Some(i);
                },
            }
        }
        i += 1;
    }
    best
}

/// A chunk put in its place keeps the order.
proof fn lemma_inserted(
    v: PlanView,
    offered: Seq<HoldingsView>,
    s: Seq<Digest>,
    i: int,
    x: Digest,
)
    requires
        in_turn(v, offered, s),
        !s.contains(x),
        0 <= i <= s.len(),
        forall|j: int| i <= j < s.len() ==> precedes(v, offered, x, #[trigger] s[j]),
        i > 0 ==> !precedes(v, offered, x, s[i - 1]),
    ensures
        in_turn(v, offered, s.insert(i, x)),
        forall|y: Digest| #[trigger] s.insert(i, x).contains(y) <==> s.contains(y) || y == x,
{
    let t = s.insert(i, x);
    if i > 0 {
        assert(s.contains(s[i - 1]));
        lemma_precedes_total(v, offered, x, s[i - 1]);
    }
    assert forall|a: int, b: int| 0 <= a < b < t.len() implies precedes(
        v,
        offered,
        #[trigger] t[a],
        #[trigger] t[b],
    ) by {
        let a2 = if a < i {
            a
        } else {
            a - 1
        };
        let b2 = if b < i {
            b
        } else {
            b - 1
        };
        if a != i {
            assert(t[a] == s[a2]);
        }
        if b != i {
            assert(t[b] == s[b2]);
        }
        if a != i && b != i {
            assert(precedes(v, offered, s[a2], s[b2]));
        } else if b == i {
            if a < i - 1 {
                assert(precedes(v, offered, s[a], s[i - 1]));
            }
        }
    }
    assert forall|y: Digest| #[trigger] t.contains(y) <==> s.contains(y) || y == x by {
        if t.contains(y) {
            let j = t.index_of(y);
            if j < i {
                assert(s[j] == y);
            } else if j > i {
                assert(s[j - 1] == y);
            }
        }
        if s.contains(y) {
            let j = s.index_of(y);
            if j < i {
                assert(t[j] == y);
            } else {
                assert(t[j + 1] == y);
            }
        }
        assert(t[i] == x);
    }
}

/// What has been handed out once another chunk is.
proof fn lemma_given_more(given: Seq<Seq<Digest>>, i: int, x: Digest)
    requires
        0 <= i < given.len(),
    ensures
        forall|y: Digest|
            is_given(given.update(i, given[i].push(x)), y) <==> #[trigger] is_given(given, y) || y
                == x,
{
    let after = given.update(i, given[i].push(x));
    assert forall|y: Digest| is_given(after, y) <==> #[trigger] is_given(given, y) || y == x by {
        lemma_push_contains(given[i], x, y);
        if is_given(after, y) {
            let k = choose|k: int| 0 <= k < after.len() && (#[trigger] after[k]).contains(y);
            if k != i {
                assert(given[k].contains(y));
            } else {
                if y != x {
                    assert(given[i].contains(y));
                }
            }
        }
        if is_given(given, y) {
            let k = choose|k: int| 0 <= k < given.len() && (#[trigger] given[k]).contains(y);
            assert(after[k].contains(y)) by {
                if k != i {
                    assert(after[k] == given[k]);
                }
            }
        }
        if y == x {
            assert(after[i].contains(x));
        }
    }
}

/// A chunk goes to a provider that has room for it and might serve it, and to
/// none where another such provider is preferred: a known holder to one of
/// unknown holdings, and the one with less to do. Where it goes to none, none
/// has room and might serve it.
pub proof fn law_pick_is_best(
    offered: Seq<HoldingsView>,
    given: Seq<Seq<Digest>>,
    cap: nat,
    chunk: Digest,
    n: nat,
)
    ensures
        match picked(offered, given, cap, chunk, n) {
            Some(i) => 0 <= i < n && can_take(offered, given, cap, chunk, i) && forall|j: int|
                0 <= j < n && #[trigger] can_take(offered, given, cap, chunk, j) ==> !preferred(
                    offered,
                    given,
                    j,
                    i,
                ),
            None => forall|j: int|
                0 <= j < n ==> !#[trigger] can_take(offered, given, cap, chunk, j),
        },
    decreases n,
{
    if n > 0 {
        law_pick_is_best(offered, given, cap, chunk, (n - 1) as nat);
    }
}

/// Whether a chunk stands in one list only, and there once.
pub open spec fn given_once(given: Seq<Seq<Digest>>) -> bool {
    &&& forall|i: int| 0 <= i < given.len() ==> (#[trigger] given[i]).no_duplicates()
    &&& forall|i: int, j: int, x: Digest|
        0 <= i < given.len() && 0 <= j < given.len() && #[trigger] given[i].contains(x)
            && #[trigger] given[j].contains(x) ==> i == j
}

/// No provider is given a chunk it lacks or has refused, nor more than it may
/// be given, and no chunk is given twice.
pub proof fn law_assignment_is_sound(offered: Seq<HoldingsView>, cap: nat, order: Seq<Digest>)
    requires
        order.no_duplicates(),
    ensures
        ({
            let given = all_handed(offered, cap, order);
            &&& given.len() == offered.len()
            &&& forall|i: int| 0 <= i < given.len() ==> (#[trigger] given[i]).len() <= cap
            &&& forall|i: int, x: Digest|
                0 <= i < given.len() && #[trigger] given[i].contains(x) ==> order.contains(x)
                    && might_serve(offered[i], x)
            &&& given_once(given)
        }),
    decreases order.len(),
{
    let given = all_handed(offered, cap, order);
    if order.len() > 0 {
        let rest = order.drop_last();
        let x = order.last();
        law_assignment_is_sound(offered, cap, rest);
        let before = all_handed(offered, cap, rest);
        law_pick_is_best(offered, before, cap, x, offered.len());
        assert(order =~= rest.push(x));
        assert(!rest.contains(x)) by {
            if rest.contains(x) {
                let j = rest.index_of(x);
                assert(order[j] == order[order.len() - 1]);
            }
        }
        assert forall|y: Digest| rest.contains(y) implies #[trigger] order.contains(y) by {
            lemma_push_contains(rest, x, y);
        }
        lemma_push_contains(rest, x, x);
        if let Some(k) = picked(offered, before, cap, x, offered.len()) {
            assert(!before[k].contains(x));
            assert forall|i: int, y: Digest| 0 <= i < given.len() && #[trigger] given[i].contains(
                y,
            ) implies order.contains(y) && might_serve(offered[i], y) && (before[i].contains(y)
                || (i == k && y == x)) by {
                if i == k {
                    lemma_push_contains(before[k], x, y);
                } else {
                    assert(given[i] == before[i]);
                }
            }
            assert forall|i: int| 0 <= i < given.len() implies (
            #[trigger] given[i]).no_duplicates() by {
                if i != k {
                    assert(given[i] == before[i]);
                }
            }
            assert forall|i: int, j: int, y: Digest|
                0 <= i < given.len() && 0 <= j < given.len() && #[trigger] given[i].contains(y)
                    && #[trigger] given[j].contains(y) implies i == j by {
                if y == x {
                    assert(!before[i].contains(x)) by {
                        if before[i].contains(x) {
                            assert(rest.contains(x));
                        }
                    }
                    assert(!before[j].contains(x)) by {
                        if before[j].contains(x) {
                            assert(rest.contains(x));
                        }
                    }
                }
            }
        }
    } else {
        assert forall|i: int| 0 <= i < given.len() implies #[trigger] given[i] == Seq::<
            Digest,
        >::empty() by {}
    }
}

/// Whether every provider that might serve a chunk has as many chunks as it may.
pub open spec fn all_busy(
    offered: Seq<HoldingsView>,
    given: Seq<Seq<Digest>>,
    cap: nat,
    chunk: Digest,
) -> bool {
    forall|j: int|
        0 <= j < offered.len() && #[trigger] might_serve(offered[j], chunk) ==> given[j].len() >= cap
}

/// Whether every provider known to hold a chunk has as many chunks as it may.
pub open spec fn holders_busy(
    offered: Seq<HoldingsView>,
    given: Seq<Seq<Digest>>,
    cap: nat,
    chunk: Digest,
) -> bool {
    forall|j: int|
        0 <= j < offered.len() && #[trigger] is_holder(offered[j], chunk) ==> given[j].len() >= cap
}

/// Nothing is held back: a chunk goes to no provider only if every one that might
/// serve it has as many as it may be given, and to one of unknown holdings only if
/// every known holder has.
pub proof fn law_assignment_is_complete(offered: Seq<HoldingsView>, cap: nat, order: Seq<Digest>)
    requires
        order.no_duplicates(),
    ensures
        ({
            let given = all_handed(offered, cap, order);
            &&& forall|x: Digest|
                order.contains(x) && !#[trigger] is_given(given, x) ==> all_busy(
                    offered,
                    given,
                    cap,
                    x,
                )
            &&& forall|i: int, x: Digest|
                0 <= i < given.len() && #[trigger] given[i].contains(x) && offered[i] is Unknown
                    ==> holders_busy(offered, given, cap, x)
        }),
    decreases order.len(),
{
    let given = all_handed(offered, cap, order);
    if order.len() > 0 {
        let rest = order.drop_last();
        let x = order.last();
        law_assignment_is_complete(offered, cap, rest);
        law_assignment_is_sound(offered, cap, rest);
        let before = all_handed(offered, cap, rest);
        law_pick_is_best(offered, before, cap, x, offered.len());
        assert(order =~= rest.push(x));
        let to = picked(offered, before, cap, x, offered.len());
        assert forall|j: int| 0 <= j < given.len() implies (#[trigger] given[j]).len()
            >= before[j].len() by {}
        if let Some(k) = to {
            lemma_given_more(before, k, x);
            assert(can_take(offered, before, cap, x, k));
        }
        assert forall|y: Digest| order.contains(y) && !#[trigger] is_given(given, y) implies all_busy(
            offered,
            given,
            cap,
            y,
        ) by {
            lemma_push_contains(rest, x, y);
            assert(is_given(before, y) ==> is_given(given, y));
            if y != x {
                assert(all_busy(offered, before, cap, y));
                assert forall|j: int| 0 <= j < offered.len() && #[trigger] might_serve(
                    offered[j],
                    y,
                ) implies given[j].len() >= cap by {
                    assert(before[j].len() >= cap);
                }
            } else {
                assert(to is None);
                assert forall|j: int| 0 <= j < offered.len() && #[trigger] might_serve(
                    offered[j],
                    y,
                ) implies given[j].len() >= cap by {
                    assert(!can_take(offered, before, cap, x, j));
                }
            }
        }
        assert forall|i: int, y: Digest| 0 <= i < given.len() && #[trigger] given[i].contains(y)
            && offered[i] is Unknown implies holders_busy(offered, given, cap, y) by {
            if before[i].contains(y) {
                assert(holders_busy(offered, before, cap, y));
                assert forall|j: int| 0 <= j < offered.len() && #[trigger] is_holder(
                    offered[j],
                    y,
                ) implies given[j].len() >= cap by {
                    assert(before[j].len() >= cap);
                }
            } else {
                lemma_push_contains(before[i], x, y);
                assert(to == Some(i) && y == x);
                assert forall|j: int| 0 <= j < offered.len() && #[trigger] is_holder(
                    offered[j],
                    y,
                ) implies given[j].len() >= cap by {
                    if before[j].len() < cap {
                        assert(can_take(offered, before, cap, x, j));
                        assert(preferred(offered, before, j, i));
                    }
                }
            }
        }
    } else {
        assert forall|i: int| 0 <= i < given.len() implies #[trigger] given[i] == Seq::<
            Digest,
        >::empty() by {}
    }
}

/// The order in which chunks are handed out holds none twice.
pub proof fn law_order_has_no_repeats(
    v: PlanView,
    offered: Seq<HoldingsView>,
    s: Seq<Digest>,
)
    requires
        is_order(v, offered, s),
    ensures
        s.no_duplicates(),
{
    assert forall|i: int, j: int| 0 <= i < s.len() && 0 <= j < s.len() && i != j implies s[i]
        != s[j] by {
        if i < j {
            assert(precedes(v, offered, s[i], s[j]));
        } else {
            assert(precedes(v, offered, s[j], s[i]));
        }
    }
}

/// A provider is not offered again what it has refused, and everything else
/// stays as it was.
pub proof fn law_refused_is_not_offered(h: HoldingsView, chunk: Digest, other: Digest)
    ensures
        !might_serve(after_refusal(h, chunk), chunk),
        other != chunk ==> might_serve(after_refusal(h, chunk), other) == might_serve(h, other),
{
}

/// Delivering a chunk never frees one that is still to be played.
pub proof fn law_delivery_keeps_what_is_ahead(v: PlanView, drop_delivered: bool, j: int)
    requires
        v.frontier < j < v.chunks.len(),
        holds(v.have, v.chunks[j]),
    ensures
        holds(delivered(v, drop_delivered).have, v.chunks[j]),
        held(delivered(v, drop_delivered).have, v.chunks[j]) == held(v.have, v.chunks[j]),
{
    let index = v.frontier as int;
    if drop_delivered && is_last_use(v.chunks, index) {
        assert(v.chunks[j] != v.chunks[index]);
        law_taken_leaves_the_rest(v.have, v.chunks[index], v.chunks[j]);
    }
}

/// A chunk is taken only if it is of this blob and has its name as its hash, and
/// is then stored under it.
pub proof fn law_only_real_chunks_are_stored(
    v: PlanView,
    name: Digest,
    data: Seq<u8>,
    digest: Digest,
)
    requires
        folded(v, name, data, digest).1,
    ensures
        v.chunks.contains(name),
        digest == name,
        holds(folded(v, name, data, digest).0.have, name),
        held(folded(v, name, data, digest).0.have, name) == data,
{
    crate::blob::law_put_is_held(v.have, name, data);
}

/// How many hold a chunk is counted provider by provider, and only those known to hold
/// it count.
pub proof fn law_holders_are_counted(s: Seq<HoldingsView>, h: HoldingsView, chunk: Digest)
    ensures
        holders(Seq::<HoldingsView>::empty(), chunk) == 0,
        holders(s.push(h), chunk) == holders(s, chunk) + (match h {
            HoldingsView::Known(set) => if set.contains(chunk) {
                1nat
            } else {
                0
            },
            HoldingsView::Unknown(_) => 0,
        }),
{
    assert(s.push(h).drop_last() =~= s);
}

/// A bulk download hands out every pending chunk, the rarest first.
pub proof fn law_rarest_come_first(
    v: PlanView,
    offered: Seq<HoldingsView>,
    s: Seq<Digest>,
    i: int,
    j: int,
)
    requires
        v.selection is RarestFirst,
        is_order(v, offered, s),
        0 <= i < j < s.len(),
    ensures
        holders(offered, s[i]) <= holders(offered, s[j]),
        forall|x: Digest| #[trigger] s.contains(x) <==> v.pending.contains(x),
{
    assert(precedes(v, offered, s[i], s[j]));
    assert forall|x: Digest| #[trigger] s.contains(x) <==> v.pending.contains(x) by {
        assert(eligible(v, x) == v.pending.contains(x));
    }
}

proof fn lemma_position(chunks: Seq<Digest>, x: Digest)
    requires
        chunks.contains(x),
    ensures
        0 <= position(chunks, x) < chunks.len(),
        chunks[position(chunks, x)] == x,
        forall|b: int| 0 <= b < chunks.len() && #[trigger] chunks[b] == x ==> position(chunks, x)
            <= b,
{
    lemma_first(chunks, is_chunk(x));
    let b = chunks.index_of(x);
    assert(is_chunk(x)(chunks[b]));
    assert forall|b: int| 0 <= b < chunks.len() && #[trigger] chunks[b] == x implies position(
        chunks,
        x,
    ) <= b by {
        if b < position(chunks, x) {
            assert(!is_chunk(x)(chunks[b]));
        }
    }
}

/// A stream hands out the pending chunks that are due within its window, and no others,
/// in the order in which they are first played.
pub proof fn law_stream_goes_in_playback_order(
    v: PlanView,
    offered: Seq<HoldingsView>,
    s: Seq<Digest>,
    window: usize,
    i: int,
    j: int,
)
    requires
        v.selection == (Selection::Streaming { window }),
        is_order(v, offered, s),
        forall|x: Digest| #[trigger] v.pending.contains(x) ==> v.chunks.contains(x),
        0 <= i < j < s.len(),
    ensures
        exists|a: int|
            0 <= a < v.chunks.len() && #[trigger] v.chunks[a] == s[i] && forall|b: int|
                0 <= b < v.chunks.len() && #[trigger] v.chunks[b] == s[j] ==> a < b,
        forall|x: Digest| #[trigger]
            s.contains(x) <==> v.pending.contains(x) && exists|a: int|
                0 <= a < v.chunks.len() && a < v.frontier + window && #[trigger] v.chunks[a] == x,
{
    assert(s.contains(s[i]) && s.contains(s[j]));
    assert(eligible(v, s[i]) && eligible(v, s[j]));
    lemma_position(v.chunks, s[i]);
    lemma_position(v.chunks, s[j]);
    assert(precedes(v, offered, s[i], s[j]));
    let a = position(v.chunks, s[i]);
    assert(v.chunks[a] == s[i]);
    assert(a < position(v.chunks, s[j])) by {
        if a == position(v.chunks, s[j]) {
            assert(s[i] == s[j]);
        }
    }
    assert forall|x: Digest| #[trigger] s.contains(x) <==> v.pending.contains(x) && exists|a: int|
        0 <= a < v.chunks.len() && a < v.frontier + window && #[trigger] v.chunks[a] == x by {
        assert(s.contains(x) == eligible(v, x));
        if v.pending.contains(x) {
            lemma_position(v.chunks, x);
            if eligible(v, x) {
                assert(v.chunks[position(v.chunks, x)] == x);
            }
        }
    }
}

/// A chunk goes to a provider that might serve it and has room; to one of unknown
/// holdings only if no known holder has room, and among equals to one with least to do.
pub proof fn law_pick_prefers_holders_and_idlers(
    offered: Seq<HoldingsView>,
    given: Seq<Seq<Digest>>,
    cap: nat,
    chunk: Digest,
    i: int,
    j: int,
)
    requires
        picked(offered, given, cap, chunk, offered.len()) == Some(i),
        0 <= j < offered.len(),
        given[j].len() < cap,
        might_serve(offered[j], chunk),
    ensures
        0 <= i < offered.len(),
        given[i].len() < cap,
        might_serve(offered[i], chunk),
        offered[i] is Unknown ==> offered[j] is Unknown,
        (offered[i] is Unknown) == (offered[j] is Unknown) ==> given[i].len() <= given[j].len(),
{
    law_pick_is_best(offered, given, cap, chunk, offered.len());
    assert(can_take(offered, given, cap, chunk, j));
    assert(!preferred(offered, given, j, i));
}

/// A provider known to hold chunks might serve exactly those, one of unknown holdings
/// all but those it refused.
pub proof fn law_who_might_serve(known: Set<Digest>, refused: Set<Digest>, chunk: Digest)
    ensures
        might_serve(HoldingsView::Known(known), chunk) == known.contains(chunk),
        is_holder(HoldingsView::Known(known), chunk) == known.contains(chunk),
        might_serve(HoldingsView::Unknown(refused), chunk) == !refused.contains(chunk),
        !is_holder(HoldingsView::Unknown(refused), chunk),
{
}

/// A chunk that is of the blob, is not held yet and is what its name says is taken; what
/// is not is not, and leaves everything as it was.
pub proof fn law_missing_chunk_is_taken(v: PlanView, name: Digest, data: Seq<u8>, digest: Digest)
    ensures
        folded(v, name, data, digest).1 <==> v.chunks.contains(name) && digest == name && !(exists|
            i: int,
        |
            0 <= i < v.have.len() && (#[trigger] v.have[i]).name == name),
        !folded(v, name, data, digest).1 ==> folded(v, name, data, digest).0 == v,
        folded(v, name, data, digest).0.pending == v.pending,
        folded(v, name, data, digest).0.chunks == v.chunks,
        folded(v, name, data, digest).0.frontier == v.frontier,
{
    lemma_first(v.have, crate::blob::named(name));
    if exists|i: int| 0 <= i < v.have.len() && (#[trigger] v.have[i]).name == name {
        let i = choose|i: int| 0 <= i < v.have.len() && (#[trigger] v.have[i]).name == name;
        assert(crate::blob::named(name)(v.have[i]));
    }
    if let Some(k) = first(v.have, crate::blob::named(name)) {
        assert(v.have[k].name == name);
    }
}

/// Chunks taken back wait again, unless they have arrived meanwhile or are not of the
/// blob; nothing else changes.
pub proof fn law_taken_back_chunks_wait_again(v: PlanView, names: Seq<Digest>, x: Digest)
    ensures
        taken_back(v, names).pending.contains(x) <==> v.pending.contains(x) || (names.contains(x)
            && v.chunks.contains(x) && !holds(v.have, x)),
        taken_back(v, names).have == v.have,
        taken_back(v, names).chunks == v.chunks,
        taken_back(v, names).frontier == v.frontier,
{
}

/// Delivering moves the frontier on by one; where delivered chunks are freed, a chunk is
/// at its last use, and not before.
pub proof fn law_delivered_chunk_is_freed(v: PlanView, drop_delivered: bool)
    requires
        v.frontier < v.chunks.len(),
        forall|i: int, j: int|
            0 <= i < j < v.have.len() ==> (#[trigger] v.have[i]).name != (#[trigger] v.have[j]).name,
    ensures
        ({
            let r = delivered(v, drop_delivered);
            let x = v.chunks[v.frontier as int];
            let again = exists|j: int|
                v.frontier < j < v.chunks.len() && #[trigger] v.chunks[j] == x;
            &&& r.frontier == v.frontier + 1
            &&& r.pending == v.pending
            &&& !drop_delivered || again ==> r.have == v.have
            &&& drop_delivered && !again ==> !holds(r.have, x)
        }),
{
    let r = delivered(v, drop_delivered);
    let x = v.chunks[v.frontier as int];
    let p = crate::blob::named(x);
    lemma_first(v.have, p);
    lemma_first(r.have, p);
    if drop_delivered && is_last_use(v.chunks, v.frontier as int) {
        if let Some(k) = first(v.have, p) {
            assert forall|i: int| 0 <= i < r.have.len() implies !p(#[trigger] r.have[i]) by {
                if i < k {
                    assert(r.have[i] == v.have[i]);
                    assert(v.have[i].name != v.have[k].name);
                } else {
                    assert(r.have[i] == v.have[i + 1]);
                    assert(v.have[k].name != v.have[i + 1].name);
                }
            }
        }
    }
}

/// Of two chunks that are equally rare, the one with the lower name goes first, so that
/// there is one order.
pub proof fn law_ties_go_by_name(
    v: PlanView,
    offered: Seq<HoldingsView>,
    s: Seq<Digest>,
    i: int,
    j: int,
)
    requires
        v.selection is RarestFirst,
        is_order(v, offered, s),
        0 <= i < j < s.len(),
        holders(offered, s[i]) == holders(offered, s[j]),
    ensures
        big_endian(s[i]@) < big_endian(s[j]@),
{
    assert(precedes(v, offered, s[i], s[j]));
}

/// Of providers that are equally good for a chunk, the first gets it.
pub proof fn law_first_of_equals_is_picked(
    offered: Seq<HoldingsView>,
    given: Seq<Seq<Digest>>,
    cap: nat,
    chunk: Digest,
    n: nat,
    j: int,
)
    requires
        picked(offered, given, cap, chunk, n) is Some,
        0 <= j < picked(offered, given, cap, chunk, n)->Some_0,
        given[j].len() < cap,
        might_serve(offered[j], chunk),
    ensures
        ({
            let i = picked(offered, given, cap, chunk, n)->Some_0;
            (offered[i] is Known && offered[j] is Unknown) || given[i].len() < given[j].len()
        }),
    decreases n,
{
    if n > 0 {
        let m = (n - 1) as nat;
        let i = picked(offered, given, cap, chunk, n)->Some_0;
        law_pick_is_best(offered, given, cap, chunk, m);
        if picked(offered, given, cap, chunk, m) == Some(i) {
            law_first_of_equals_is_picked(offered, given, cap, chunk, m, j);
        } else {
            assert(can_take(offered, given, cap, chunk, j));
            let best = picked(offered, given, cap, chunk, m)->Some_0;
            assert(!preferred(offered, given, j, best));
        }
    }
}

} // verus!
