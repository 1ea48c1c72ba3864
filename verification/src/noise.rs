//! An authenticated, forward-secret wrapper around a datagram link.
use vstd::prelude::*;

verus! {

/// How many nonces behind the highest one are still told apart.
pub const REPLAY_WINDOW: u64 = 65_536;

/// How many words the window's bits take.
pub const REPLAY_WORDS: usize = 1_024;

/// Remembers which nonces of a sliding window have been accepted, so that a
/// datagram is taken once, however the link reorders them.
pub struct ReplayWindow {
    highest: Option<u64>,
    bits: Vec<u64>,
}

/// A [`ReplayWindow`] as a mathematical value: the highest nonce accepted, and
/// which of the nonces no further behind it than the window have been.
#[verifier::ext_equal]
pub struct ReplayView {
    /// The highest nonce accepted.
    pub highest: Option<u64>,
    /// The nonces inside the window that were accepted.
    pub seen: Set<u64>,
}

/// Whether a nonce lies in the window that ends at `highest`.
pub open spec fn in_window(highest: u64, nonce: u64) -> bool {
    nonce <= highest && highest - nonce < REPLAY_WINDOW
}

/// The nonce inside the full window that shares its place with an older one.
pub open spec fn alias(highest: u64, nonce: u64) -> u64 {
    (highest - (highest - nonce) % REPLAY_WINDOW as int) as u64
}

/// What recording a nonce does.
pub open spec fn recorded(w: ReplayView, nonce: u64) -> ReplayView {
    match w.highest {
        None => ReplayView { highest: Some(nonce), seen: set![nonce] },
        Some(highest) => if nonce > highest {
            ReplayView {
                highest: Some(nonce),
                seen: w.seen.filter(|n: u64| in_window(nonce, n)).insert(nonce),
            }
        } else {
            ReplayView { highest: w.highest, seen: w.seen.insert(alias(highest, nonce)) }
        },
    }
}

/// Whether a nonce is refused: the reserved one, one behind the window, and one
/// already accepted.
pub open spec fn refused(w: ReplayView, nonce: u64) -> bool {
    ||| nonce == u64::MAX
    ||| match w.highest {
        None => false,
        Some(highest) => nonce <= highest && (highest - nonce >= REPLAY_WINDOW || w.seen.contains(
            nonce,
        )),
    }
}

spec fn word_bit(w: u64, b: u64) -> bool {
    (w >> b) & 1 == 1
}

spec fn bit_at(words: Seq<u64>, nonce: u64) -> bool {
    word_bit(
        words[(nonce % REPLAY_WINDOW) as int / 64],
        ((nonce % REPLAY_WINDOW) as int % 64) as u64,
    )
}

proof fn lemma_set_bit(w: u64, b: u64, c: u64)
    requires
        b < 64,
        c < 64,
    ensures
        word_bit(w | (1u64 << b), c) == (b == c || word_bit(w, c)),
{
    assert(b < 64 && c < 64 ==> (((w | (1u64 << b)) >> c) & 1 == 1) == (b == c || (w >> c) & 1 == 1))
        by (bit_vector);
}

proof fn lemma_clear_bit(w: u64, b: u64, c: u64)
    requires
        b < 64,
        c < 64,
    ensures
        word_bit(w & !(1u64 << b), c) == (b != c && word_bit(w, c)),
{
    assert(b < 64 && c < 64 ==> (((w & !(1u64 << b)) >> c) & 1 == 1) == (b != c && (w >> c) & 1
        == 1)) by (bit_vector);
}

impl View for ReplayWindow {
    type V = ReplayView;

    closed spec fn view(&self) -> ReplayView {
        ReplayView {
            highest: self.highest,
            seen: match self.highest {
                None => Set::empty(),
                Some(highest) => Set::new(
                    |n: u64| in_window(highest, n) && bit_at(self.bits@, n),
                ),
            },
        }
    }
}

impl ReplayWindow {
    /// The window has all its bits, and none is set before the first nonce.
    pub closed spec fn wf(&self) -> bool {
        &&& self.bits@.len() == REPLAY_WORDS
        &&& self.highest is None ==> forall|n: u64| !#[trigger] bit_at(self.bits@, n)
    }

    /// A window that has accepted nothing.
    pub fn new() -> (r: Self)
        ensures
            r.wf(),
            r@ == (ReplayView { highest: None, seen: Set::empty() }),
    {
        let bits: Vec<u64> = vec![0u64; REPLAY_WORDS];
        proof {
            assert forall|n: u64| !#[trigger] bit_at(bits@, n) by {
                let b = ((n % REPLAY_WINDOW) as int % 64) as u64;
                assert((0u64 >> b) & 1 == 0) by (bit_vector);
            }
        }
        ReplayWindow { highest: None, bits }
    }

    /// Whether `nonce` must be refused.
    pub fn rejects(&self, nonce: u64) -> (r: bool)
        requires
            self.wf(),
        ensures
            r == refused(self@, nonce),
    {
        if nonce == u64::MAX {
            return true;
        }
        match self.highest {
            None => false,
            Some(highest) => if nonce > highest {
                false
            } else {
                highest - nonce >= REPLAY_WINDOW || self.is_set(nonce)
            },
        }
    }

    /// Records that `nonce` was accepted.
    pub fn record(&mut self, nonce: u64)
        requires
            old(self).wf(),
        ensures
            final(self).wf(),
            final(self)@ == recorded(old(self)@, nonce),
    {
        let ghost before = *self;
        match self.highest {
            None => {
                self.highest = Some(nonce);
                self.set(nonce);
                proof {
                    assert forall|n: u64| in_window(nonce, n) implies (bit_at(self.bits@, n) <==> n
                        == nonce) by {
                        assert(!bit_at(before.bits@, n));
                    }
                    assert(self@.seen =~= set![nonce]);
                }
            },
            Some(highest) => {
                if nonce > highest {
                    let advance: u64 = nonce - highest;
                    if advance >= REPLAY_WINDOW {
                        self.bits = vec![0u64; REPLAY_WORDS];
                        proof {
                            assert forall|n: u64| !#[trigger] bit_at(self.bits@, n) by {
                                let b = ((n % REPLAY_WINDOW) as int % 64) as u64;
                                assert((0u64 >> b) & 1 == 0) by (bit_vector);
                            }
                        }
                    } else {
                        let mut step: u64 = 0;
                        while step < advance
                            invariant
                                step <= advance < REPLAY_WINDOW,
                                highest + advance <= u64::MAX,
                                self.bits@.len() == REPLAY_WORDS,
                                before.bits@.len() == REPLAY_WORDS,
                                self.highest == Some(highest),
                                forall|n: u64| #[trigger]
                                    bit_at(self.bits@, n) == (bit_at(before.bits@, n) && offset(
                                        highest,
                                        n,
                                    ) >= step),
                            decreases advance - step,
                        {
                            let ghost mid = self.bits@;
                            let expired: u64 = highest + step + 1;
                            self.clear(expired);
                            proof {
                                assert forall|n: u64| #[trigger]
                                    bit_at(self.bits@, n) == (bit_at(before.bits@, n) && offset(
                                        highest,
                                        n,
                                    ) >= step + 1) by {
                                    assert(bit_at(mid, n) == (bit_at(before.bits@, n) && offset(
                                        highest,
                                        n,
                                    ) >= step));
                                    lemma_offset(highest, step, n);
                                }
                            }
                            step += 1;
                        }
                    }
                    self.highest = Some(nonce);
                    let ghost cleared = self.bits@;
                    self.set(nonce);
                    proof {
                        let want = before@.seen.filter(|n: u64| in_window(nonce, n)).insert(nonce);
                        assert forall|n: u64| self@.seen.contains(n) <==> want.contains(n) by {
                            lemma_window_places(nonce, n);
                            if in_window(nonce, n) && n != nonce {
                                assert(bit_at(self.bits@, n) == bit_at(cleared, n));
                                assert(advance >= REPLAY_WINDOW ==> !bit_at(cleared, n));
                                if n <= highest && advance < REPLAY_WINDOW {
                                    assert(in_window(highest, n));
                                }
                            }
                        }
                        assert(self@.seen =~= want);
                    }
                } else {
                    self.set(nonce);
                    proof {
                        let m = alias(highest, nonce);
                        lemma_alias(highest, nonce);
                        let want = before@.seen.insert(m);
                        assert forall|n: u64| self@.seen.contains(n) <==> want.contains(n) by {
                            if in_window(highest, n) {
                                if n % REPLAY_WINDOW == nonce % REPLAY_WINDOW {
                                    lemma_same_place(n, m);
                                    assert(n == m);
                                }
                            }
                        }
                        assert(self@.seen =~= want);
                    }
                }
            },
        }
    }

    fn position(nonce: u64) -> (r: (usize, u64))
        ensures
            r.0 == (nonce % REPLAY_WINDOW) as int / 64,
            r.0 < REPLAY_WORDS,
            r.1 == (nonce % REPLAY_WINDOW) as int % 64,
    {
        let bit: u64 = nonce % REPLAY_WINDOW;
        ((bit / 64) as usize, bit % 64)
    }

    fn is_set(&self, nonce: u64) -> (r: bool)
        requires
            self.bits@.len() == REPLAY_WORDS,
        ensures
            r == bit_at(self.bits@, nonce),
    {
        let (word, bit) = Self::position(nonce);
        (self.bits[word] >> bit) & 1 == 1
    }

    fn set(&mut self, nonce: u64)
        requires
            old(self).bits@.len() == REPLAY_WORDS,
        ensures
            final(self).bits@.len() == REPLAY_WORDS,
            final(self).highest == old(self).highest,
            forall|n: u64| #[trigger]
                bit_at(final(self).bits@, n) == (n % REPLAY_WINDOW == nonce % REPLAY_WINDOW || bit_at(
                    old(self).bits@,
                    n,
                )),
    {
        let (word, bit) = Self::position(nonce);
        let old_word: u64 = self.bits[word];
        self.bits[word] = old_word | (1u64 << bit);
        proof {
            assert forall|n: u64| #[trigger]
                bit_at(self.bits@, n) == (n % REPLAY_WINDOW == nonce % REPLAY_WINDOW || bit_at(
                    old(self).bits@,
                    n,
                )) by {
                let p = (n % REPLAY_WINDOW) as int;
                lemma_set_bit(old_word, bit, (p % 64) as u64);
            }
        }
    }

    fn clear(&mut self, nonce: u64)
        requires
            old(self).bits@.len() == REPLAY_WORDS,
        ensures
            final(self).bits@.len() == REPLAY_WORDS,
            final(self).highest == old(self).highest,
            forall|n: u64| #[trigger]
                bit_at(final(self).bits@, n) == (n % REPLAY_WINDOW != nonce % REPLAY_WINDOW && bit_at(
                    old(self).bits@,
                    n,
                )),
    {
        let (word, bit) = Self::position(nonce);
        let old_word: u64 = self.bits[word];
        self.bits[word] = old_word & !(1u64 << bit);
        proof {
            assert forall|n: u64| #[trigger]
                bit_at(self.bits@, n) == (n % REPLAY_WINDOW != nonce % REPLAY_WINDOW && bit_at(
                    old(self).bits@,
                    n,
                )) by {
                let p = (n % REPLAY_WINDOW) as int;
                lemma_clear_bit(old_word, bit, (p % 64) as u64);
            }
        }
    }
}

/// How far behind the window's end a nonce's place comes up for reuse.
spec fn offset(highest: u64, n: u64) -> int {
    (n - highest - 1) % 65_536
}

proof fn lemma_offset(highest: u64, step: u64, n: u64)
    requires
        step < REPLAY_WINDOW,
        highest + step + 1 <= u64::MAX,
    ensures
        offset(highest, n) == step <==> n % REPLAY_WINDOW == ((highest + step + 1) as u64)
            % REPLAY_WINDOW,
{
}

/// Two nonces less than a window apart share a place only if they are one.
proof fn lemma_same_place(a: u64, b: u64)
    requires
        -REPLAY_WINDOW < a - b < REPLAY_WINDOW,
    ensures
        a % REPLAY_WINDOW == b % REPLAY_WINDOW <==> a == b,
{
    if a % REPLAY_WINDOW == b % REPLAY_WINDOW {
        assert((a - b) % 65_536 == 0);
    }
}

proof fn lemma_window_places(highest: u64, n: u64)
    ensures
        in_window(highest, n) && n % REPLAY_WINDOW == highest % REPLAY_WINDOW ==> n == highest,
{
    if in_window(highest, n) {
        lemma_same_place(n, highest);
    }
}

proof fn lemma_alias(highest: u64, nonce: u64)
    requires
        nonce <= highest,
    ensures
        in_window(highest, alias(highest, nonce)),
        alias(highest, nonce) % REPLAY_WINDOW == nonce % REPLAY_WINDOW,
        in_window(highest, nonce) ==> alias(highest, nonce) == nonce,
{
    let d = highest - nonce;
    assert(d % 65_536 <= d);
    assert((highest - d % 65_536) % 65_536 == (highest - d) % 65_536);
}

/// A nonce that was recorded is refused from then on, whatever is recorded
/// after it, and recording it changes the verdict on no other nonce inside the
/// window.
pub proof fn law_accepted_once(w: ReplayView, nonce: u64, later: u64)
    requires
        !refused(w, nonce),
        !refused(recorded(w, nonce), later),
    ensures
        refused(recorded(w, nonce), nonce),
        refused(recorded(recorded(w, nonce), later), nonce),
{
    match w.highest {
        Some(highest) => if nonce <= highest {
            lemma_alias(highest, nonce);
        },
        None => {},
    }
    let w1 = recorded(w, nonce);
    match w1.highest {
        Some(highest) => if later <= highest {
            lemma_alias(highest, later);
        } else if in_window(later, nonce) {
            assert(w1.seen.contains(nonce));
        },
        None => {},
    }
}

/// A nonce inside the window that was never recorded is not refused: wide
/// reordering costs nothing.
pub proof fn law_reordering_is_accepted(w: ReplayView, nonce: u64)
    requires
        w.highest matches Some(highest) ==> nonce > highest || in_window(highest, nonce),
        !w.seen.contains(nonce),
        nonce != u64::MAX,
    ensures
        !refused(w, nonce),
{
}

/// What is refused stays refused, whatever is accepted after it.
pub proof fn law_refusal_lasts(w: ReplayView, nonce: u64, later: Seq<u64>)
    requires
        refused(w, nonce),
        all_accepted(w, later),
    ensures
        refused(all_recorded(w, later), nonce),
    decreases later.len(),
{
    if later.len() > 0 {
        law_refusal_lasts(w, nonce, later.drop_last());
        let before = all_recorded(w, later.drop_last());
        if let Some(highest) = before.highest {
            if later.last() > highest && nonce <= highest {
                assert(in_window(later.last(), nonce) ==> in_window(highest, nonce));
            }
        }
    }
}

/// A window after nonces are recorded one after the other.
pub open spec fn all_recorded(w: ReplayView, nonces: Seq<u64>) -> ReplayView
    decreases nonces.len(),
{
    if nonces.len() == 0 {
        w
    } else {
        recorded(all_recorded(w, nonces.drop_last()), nonces.last())
    }
}

/// Whether each of the nonces is accepted when its turn comes.
pub open spec fn all_accepted(w: ReplayView, nonces: Seq<u64>) -> bool
    decreases nonces.len(),
{
    nonces.len() > 0 ==> all_accepted(w, nonces.drop_last()) && !refused(
        all_recorded(w, nonces.drop_last()),
        nonces.last(),
    )
}

/// Of a session from its start: a nonce is accepted exactly if it is not the last one of
/// all, was not accepted before, and is not further behind the highest accepted than the
/// window reaches.
pub proof fn law_accepted_exactly_once(nonces: Seq<u64>, nonce: u64)
    requires
        all_accepted(ReplayView { highest: None, seen: Set::empty() }, nonces),
    ensures
        ({
            let w = all_recorded(ReplayView { highest: None, seen: Set::empty() }, nonces);
            refused(w, nonce) <==> nonce == u64::MAX || nonces.contains(nonce) || exists|i: int|
                0 <= i < nonces.len() && (#[trigger] nonces[i]) >= nonce + REPLAY_WINDOW
        }),
{
    lemma_window_of(nonces);
    let w = all_recorded(ReplayView { highest: None, seen: Set::empty() }, nonces);
    if let Some(highest) = w.highest {
        assert(nonces.contains(highest));
        let h = nonces.index_of(highest);
        if nonces.contains(nonce) {
            assert(nonces[nonces.index_of(nonce)] <= highest);
        }
        if highest >= nonce + REPLAY_WINDOW {
            assert(nonces[h] >= nonce + REPLAY_WINDOW);
        }
    } else {
        if nonces.contains(nonce) {
            assert(nonces.len() > 0);
        }
    }
}

proof fn lemma_window_of(nonces: Seq<u64>)
    requires
        all_accepted(ReplayView { highest: None, seen: Set::empty() }, nonces),
    ensures
        ({
            let w = all_recorded(ReplayView { highest: None, seen: Set::empty() }, nonces);
            match w.highest {
                None => nonces.len() == 0,
                Some(highest) => nonces.contains(highest) && (forall|i: int|
                    0 <= i < nonces.len() ==> (#[trigger] nonces[i]) <= highest) && (forall|n: u64|
                    #[trigger]
                    w.seen.contains(n) <==> nonces.contains(n) && in_window(highest, n)),
            }
        }),
    decreases nonces.len(),
{
    if nonces.len() > 0 {
        let rest = nonces.drop_last();
        let x = nonces.last();
        lemma_window_of(rest);
        let b = all_recorded(ReplayView { highest: None, seen: Set::empty() }, rest);
        let w = recorded(b, x);
        assert(nonces =~= rest.push(x));
        assert forall|n: u64| #[trigger] nonces.contains(n) <==> rest.contains(n) || n == x by {
            crate::lists::lemma_push_contains(rest, x, n);
        }
        assert forall|i: int| 0 <= i < nonces.len() implies (#[trigger] nonces[i])
            <= w.highest->Some_0 by {
            if i < rest.len() {
                assert(rest[i] == nonces[i]);
            }
        }
        match b.highest {
            Some(highest) => {
                if x <= highest {
                    lemma_alias(highest, x);
                } else {
                    assert forall|n: u64| #[trigger] w.seen.contains(n) <==> nonces.contains(n)
                        && in_window(x, n) by {
                        if rest.contains(n) {
                            assert(rest[rest.index_of(n)] <= highest);
                        }
                    }
                }
            },
            None => {
                assert forall|n: u64| #[trigger] w.seen.contains(n) <==> nonces.contains(n)
                    && in_window(x, n) by {
                    if rest.contains(n) {
                        assert(rest.len() > 0);
                    }
                }
            },
        }
    }
}

} // verus!
