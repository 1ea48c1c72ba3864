//! A small, fast, seedable generator (SplitMix64), the same on every platform.
use crate::bytes::to_array;
use crate::crypto::Keypair;
use crate::id::NodeId;
use crate::wire::{le_bytes, u64_to_le};
use vstd::arithmetic::div_mod::lemma_mod_multiples_vanish;
use vstd::prelude::*;

verus! {

/// How far the state moves with every draw.
pub const GAMMA: u64 = 0x9e37_79b9_7f4a_7c15;

/// The first multiplier.
pub const MIX_ONE: u64 = 0xbf58_476d_1ce4_e5b9;

/// The second multiplier.
pub const MIX_TWO: u64 = 0x94d0_49bb_1331_11eb;

/// How many states there are.
pub open spec fn range() -> int {
    0x1_0000_0000_0000_0000
}

/// The value drawn in a state.
#[verifier::opaque]
pub open spec fn mix(z: u64) -> u64 {
    let a = (z ^ (z >> 30)).wrapping_mul(MIX_ONE);
    let b = (a ^ (a >> 27)).wrapping_mul(MIX_TWO);
    b ^ (b >> 31)
}

/// The state after `k` draws.
pub open spec fn nth_state(s: u64, k: nat) -> u64 {
    ((s + k * GAMMA) % range()) as u64
}

/// The value of the `k`-th draw from a state, the first being the 0th.
pub open spec fn nth_draw(s: u64, k: nat) -> u64 {
    mix(nth_state(s, k + 1))
}

/// The bytes of four draws.
pub open spec fn draws_32(s: u64) -> Seq<u8> {
    le_bytes(nth_draw(s, 0) as nat, 8) + le_bytes(nth_draw(s, 1) as nat, 8) + le_bytes(
        nth_draw(s, 2) as nat,
        8,
    ) + le_bytes(nth_draw(s, 3) as nat, 8)
}

/// A seedable generator.
#[derive(Clone)]
pub struct Rng(u64);

impl Rng {
    /// The state the generator is in.
    pub closed spec fn state(&self) -> u64 {
        self.0
    }

    /// Seed the generator.
    pub fn new(seed: u64) -> (r: Self)
        ensures
            r.state() == seed,
    {
        Rng(seed)
    }

    /// Next 64-bit value.
    pub fn next_u64(&mut self) -> (r: u64)
        ensures
            final(self).state() == nth_state(old(self).state(), 1),
            r == nth_draw(old(self).state(), 0),
    {
        proof {
            reveal(mix);
        }
        self.0 = self.0.wrapping_add(GAMMA);
        let z: u64 = self.0;
        let a: u64 = (z ^ (z >> 30)).wrapping_mul(MIX_ONE);
        let b: u64 = (a ^ (a >> 27)).wrapping_mul(MIX_TWO);
        b ^ (b >> 31)
    }

    /// A random 32-byte buffer: seed material for a node id or a key pair.
    pub fn fill32(&mut self) -> (r: [u8; 32])
        ensures
            final(self).state() == nth_state(old(self).state(), 4),
            r@ == draws_32(old(self).state()),
    {
        let ghost s = self.state();
        let mut out: Vec<u8> = Vec::new();
        let one: u64 = self.next_u64();
        proof {
            lemma_nth_compose(s, 1, 1);
            lemma_nth_compose(s, 2, 1);
            lemma_nth_compose(s, 3, 1);
        }
        let two: u64 = self.next_u64();
        let three: u64 = self.next_u64();
        let four: u64 = self.next_u64();
        crate::bytes::append(&mut out, &u64_to_le(one));
        crate::bytes::append(&mut out, &u64_to_le(two));
        crate::bytes::append(&mut out, &u64_to_le(three));
        crate::bytes::append(&mut out, &u64_to_le(four));
        assert(out@ =~= draws_32(s));
        to_array(out.as_slice())
    }

    /// A random node id.
    pub fn node_id(&mut self) -> (r: NodeId)
        ensures
            final(self).state() == nth_state(old(self).state(), 4),
            r@ == draws_32(old(self).state()),
    {
        NodeId::from_bytes(self.fill32())
    }

    /// A deterministic signing identity.
    pub fn keypair(&mut self) -> (r: Keypair)
        ensures
            final(self).state() == nth_state(old(self).state(), 4),
            r.secret() == draws_32(old(self).state()),
    {
        let seed: [u8; 32] = self.fill32();
        Keypair::from_seed(&seed)
    }
}

/// Drawing `j` times and then `k` times is drawing `j + k` times.
pub proof fn lemma_nth_compose(s: u64, j: nat, k: nat)
    ensures
        nth_state(nth_state(s, j), k) == nth_state(s, j + k),
        nth_state(s, 0) == s,
{
    let m = range();
    let x = s + j * GAMMA;
    assert(x + k * GAMMA == s + (j + k) * GAMMA) by (nonlinear_arith)
        requires
            x == s + j * GAMMA,
    ;
    vstd::arithmetic::div_mod::lemma_add_mod_noop(x, k * GAMMA, m);
    vstd::arithmetic::div_mod::lemma_add_mod_noop(x % m, k * GAMMA, m);
    assert(x % m % m == x % m);
    assert(0 * GAMMA == 0);
}

/// Multiplying by an odd number is undone by multiplying by its inverse.
proof fn lemma_unmultiply(t: int, c: int, inverse: int, q: int)
    requires
        c * inverse == q * range() + 1,
        0 <= t < range(),
    ensures
        ((t * inverse) % range()) * c % range() == t,
{
    let m = range();
    let k = (t * inverse) % m;
    let j = (t * inverse) / m;
    vstd::arithmetic::div_mod::lemma_fundamental_div_mod(t * inverse, m);
    assert(k * c == m * (t * q - j * c) + t) by (nonlinear_arith)
        requires
            k == t * inverse - m * j,
            c * inverse == q * m + 1,
    ;
    lemma_mod_multiples_vanish(t * q - j * c, t, m);
}

/// Every value is drawn in some state.
proof fn lemma_mix_onto(y: u64) -> (z: u64)
    ensures
        mix(z) == y,
{
    reveal(mix);
    let b = y ^ (y >> 31) ^ (y >> 62);
    assert(b ^ (b >> 31) == y) by (bit_vector)
        requires
            b == y ^ (y >> 31) ^ (y >> 62),
    ;
    let u = ((b * 0x3196_42b2_d24d_8ec3int) % range()) as u64;
    lemma_unmultiply(b as int, MIX_TWO as int, 0x3196_42b2_d24d_8ec3, 2077064247507883091);
    assert(u.wrapping_mul(MIX_TWO) == b);
    let a = u ^ (u >> 27) ^ (u >> 54);
    assert(a ^ (a >> 27) == u) by (bit_vector)
        requires
            a == u ^ (u >> 27) ^ (u >> 54),
    ;
    let v = ((a * 0x96de_1b17_3f11_9089int) % range()) as u64;
    lemma_unmultiply(a as int, MIX_ONE as int, 0x96de_1b17_3f11_9089, 8125545580553827436);
    assert(v.wrapping_mul(MIX_ONE) == a);
    let z = v ^ (v >> 30) ^ (v >> 60);
    assert(z ^ (z >> 30) == v) by (bit_vector)
        requires
            z == v ^ (v >> 30) ^ (v >> 60),
    ;
    z
}

/// Every state comes up after some number of draws, one or more.
proof fn lemma_state_reached(s: u64, z: u64) -> (k: nat)
    ensures
        nth_state(s, k + 1) == z,
{
    let m = range();
    let t = (z - s - GAMMA) % m;
    let inverse = 0xf1de_83e1_9937_733dint;
    let k = ((t * inverse) % m) as nat;
    lemma_unmultiply(t, GAMMA as int, inverse, 10771413168148108919);
    let w = (z - s - GAMMA) / m;
    vstd::arithmetic::div_mod::lemma_fundamental_div_mod(z - s - GAMMA, m);
    vstd::arithmetic::div_mod::lemma_fundamental_div_mod(k * GAMMA, m);
    let d = (k * GAMMA) / m;
    assert(s + (k + 1) * GAMMA == m * (d - w) + z) by (nonlinear_arith)
        requires
            k * GAMMA == m * d + t,
            z - s - GAMMA == m * w + t,
    ;
    lemma_mod_multiples_vanish(d - w, z as int, m);
    k
}

/// From every state every value is drawn sooner or later: the generator leaves
/// none out.
pub proof fn law_every_value_is_drawn(s: u64, y: u64)
    ensures
        exists|k: nat| nth_draw(s, k) == y,
{
    let z = lemma_mix_onto(y);
    let k = lemma_state_reached(s, z);
    assert(nth_draw(s, k) == y);
}

} // verus!
