//! Node identifiers and the Kademlia XOR distance metric.
//!
//! A [`NodeId`] is an opaque 256-bit identifier. Closeness between two ids is
//! their bitwise XOR interpreted as a big-endian integer: it is symmetric, and
//! for any target there is a unique closest id.
use crate::bytes::same_array;
use core::cmp::Ordering;
use vstd::prelude::*;
use vstd::std_specs::bits::*;

verus! {

/// Length of a node id, in bytes.
pub const ID_LEN: usize = 32;

/// A 256-bit node identifier.
#[derive(Clone, Copy, Debug, Eq, PartialOrd, Ord, Hash)]
pub struct NodeId([u8; 32]);

impl PartialEq for NodeId {
    fn eq(&self, other: &Self) -> (r: bool) {
        proof {
            if self.0@ == other.0@ {
                crate::bytes::lemma_array_from_view(self.0, other.0);
            }
        }
        same_array(&self.0, &other.0)
    }
}

impl vstd::std_specs::cmp::PartialEqSpecImpl for NodeId {
    open spec fn obeys_eq_spec() -> bool {
        true
    }

    open spec fn eq_spec(&self, other: &Self) -> bool {
        *self == *other
    }
}

impl View for NodeId {
    type V = Seq<u8>;

    closed spec fn view(&self) -> Seq<u8> {
        self.0@
    }
}

impl View for Distance {
    type V = Seq<u8>;

    closed spec fn view(&self) -> Seq<u8> {
        self.0@
    }
}

/// The bytewise XOR of two byte strings of one length.
pub open spec fn xor(a: Seq<u8>, b: Seq<u8>) -> Seq<u8> {
    Seq::new(a.len(), |i: int| a[i] ^ b[i])
}

/// A byte string read as a big-endian number.
pub open spec fn big_endian(s: Seq<u8>) -> nat
    decreases s.len(),
{
    if s.len() == 0 {
        0
    } else {
        256 * big_endian(s.drop_last()) + s.last() as nat
    }
}

/// The id with the given bytes.
pub open spec fn id_of(bytes: Seq<u8>) -> NodeId {
    choose|n: NodeId| n@ == bytes
}

/// An id is the one with its bytes.
pub proof fn lemma_id_of(n: NodeId)
    ensures
        id_of(n@) == n,
{
    lemma_id_from_view(id_of(n@), n);
}

/// How far apart two ids are, as a number.
pub open spec fn dist(a: NodeId, b: NodeId) -> nat {
    big_endian(xor(a@, b@))
}

/// Whether `a` is closer to `target` than `b` is.
pub fn closer(a: &NodeId, b: &NodeId, target: &NodeId) -> (r: bool)
    ensures
        r == (dist(*a, *target) < dist(*b, *target)),
{
    a.distance(target).less(&b.distance(target))
}

/// How many zero bits a byte string starts with.
pub open spec fn zero_bits(s: Seq<u8>) -> nat
    decreases s.len(),
{
    if s.len() == 0 {
        0
    } else if s[0] == 0 {
        8 + zero_bits(s.skip(1))
    } else {
        u8_leading_zeros(s[0]) as nat
    }
}

/// The `i`-th bit of a byte string, the most significant bit of the first byte
/// being the 0th.
pub open spec fn bit(s: Seq<u8>, i: int) -> bool {
    (s[i / 8] >> ((7 - i % 8) as u8)) & 1 == 1
}

impl NodeId {
    /// Construct from raw bytes.
    pub fn from_bytes(bytes: [u8; 32]) -> (r: Self)
        ensures
            r@ == bytes@,
            r == id_of(bytes@),
    {
        let r = NodeId(bytes);
        proof {
            lemma_id_of(r);
        }
        r
    }

    /// Borrow the raw bytes.
    pub fn as_bytes(&self) -> (r: &[u8; 32])
        ensures
            r@ == self@,
    {
        &self.0
    }

    /// The XOR distance to another id.
    pub fn distance(&self, other: &NodeId) -> (r: Distance)
        ensures
            r@ == xor(self@, other@),
    {
        let mut d: [u8; 32] = [0u8; 32];
        let mut i: usize = 0;
        while i < 32
            invariant
                i <= 32,
                forall|j: int| 0 <= j < i ==> d@[j] == self.0@[j] ^ other.0@[j],
            decreases 32 - i,
        {
            d[i] = self.0[i] ^ other.0[i];
            i += 1;
        }
        assert(d@ =~= xor(self@, other@));
        Distance(d)
    }
}

/// The XOR distance between two [`NodeId`]s.
///
/// Ordered as a big-endian 256-bit integer, so smaller means closer.
#[derive(Clone, Copy, Debug, Eq, Ord)]
pub struct Distance([u8; 32]);

impl PartialEq for Distance {
    fn eq(&self, other: &Self) -> (r: bool) {
        same_array(&self.0, &other.0)
    }
}

impl vstd::std_specs::cmp::PartialEqSpecImpl for Distance {
    open spec fn obeys_eq_spec() -> bool {
        true
    }

    open spec fn eq_spec(&self, other: &Self) -> bool {
        *self == *other
    }
}

impl PartialOrd for Distance {
    fn partial_cmp(&self, other: &Self) -> (r: Option<Ordering>) {
        proof {
            lemma_distance_from_view(*self, *other);
        }
        if self.less(other) {
            Some(Ordering::Less)
        } else if other.less(self) {
            Some(Ordering::Greater)
        } else {
            proof {
                lemma_view_len(*self);
                lemma_view_len(*other);
                lemma_big_endian_injective(self@, other@);
            }
            Some(Ordering::Equal)
        }
    }
}

impl vstd::std_specs::cmp::PartialOrdSpecImpl for Distance {
    open spec fn obeys_partial_cmp_spec() -> bool {
        true
    }

    open spec fn partial_cmp_spec(&self, other: &Self) -> Option<Ordering> {
        if big_endian(self@) < big_endian(other@) {
            Some(Ordering::Less)
        } else if big_endian(self@) > big_endian(other@) {
            Some(Ordering::Greater)
        } else {
            Some(Ordering::Equal)
        }
    }
}

impl Distance {
    /// Distance zero: an id's distance to itself.
    pub fn zero() -> (r: Self)
        ensures
            r@ == Seq::new(32, |i: int| 0u8),
    {
        let r = Distance([0u8; 32]);
        assert(r@ =~= Seq::new(32, |i: int| 0u8));
        r
    }

    /// Number of leading zero bits.
    ///
    /// This is the length of the shared prefix between the two ids, and thus the
    /// Kademlia k-bucket index for the more distant id relative to the closer.
    pub fn leading_zeros(&self) -> (r: u32)
        ensures
            r == zero_bits(self@),
            r <= 256,
            r == 256 <==> self@ == Seq::new(32, |i: int| 0u8),
    {
        let mut n: u32 = 0;
        let mut i: usize = 0;
        assert(self.0@.skip(0) =~= self.0@);
        while i < 32
            invariant
                i <= 32,
                n == 8 * i,
                n + zero_bits(self.0@.skip(i as int)) == zero_bits(self.0@),
                forall|j: int| 0 <= j < i ==> self.0@[j] == 0,
            decreases 32 - i,
        {
            let byte: u8 = self.0[i];
            assert(self.0@.skip(i as int)[0] == byte);
            assert(self.0@.skip(i as int).skip(1) =~= self.0@.skip(i + 1));
            if byte == 0 {
                n += 8;
            } else {
                proof {
                    axiom_u8_leading_zeros(byte);
                    assert(u8_leading_zeros(byte) < 8);
                }
                assert(self@[i as int] != 0);
                return n + byte.leading_zeros();
            }
            i += 1;
        }
        assert(self@ =~= Seq::new(32, |i: int| 0u8));
        n
    }

    /// The raw distance bytes.
    pub fn as_bytes(&self) -> (r: &[u8; 32])
        ensures
            r@ == self@,
    {
        &self.0
    }

    /// Whether this distance is smaller than `other`.
    pub fn less(&self, other: &Distance) -> (r: bool)
        ensures
            r == (big_endian(self@) < big_endian(other@)),
    {
        let mut i: usize = 0;
        while i < 32
            invariant
                i <= 32,
                forall|j: int| 0 <= j < i ==> self.0@[j] == other.0@[j],
            decreases 32 - i,
        {
            if self.0[i] != other.0[i] {
                proof {
                    if self.0@[i as int] < other.0@[i as int] {
                        lemma_big_endian_less(self.0@, other.0@, i as int);
                    } else {
                        lemma_big_endian_less(other.0@, self.0@, i as int);
                    }
                }
                return self.0[i] < other.0[i];
            }
            i += 1;
        }
        assert(self.0@ =~= other.0@);
        false
    }
}

/// Every distance is 32 bytes long.
pub proof fn lemma_view_len(d: Distance)
    ensures
        d@.len() == 32,
{
}

/// Every id is 32 bytes long.
pub proof fn lemma_id_len(a: NodeId)
    ensures
        a@.len() == 32,
{
}

/// Ids with the same bytes are the same id.
pub proof fn lemma_id_from_view(a: NodeId, b: NodeId)
    ensures
        a@ == b@ <==> a == b,
{
    if a@ == b@ {
        crate::bytes::lemma_array_from_view(a.0, b.0);
    }
}

/// Distances with the same bytes are the same distance.
pub proof fn lemma_distance_from_view(a: Distance, b: Distance)
    ensures
        a@ == b@ <==> a == b,
{
    if a@ == b@ {
        crate::bytes::lemma_array_from_view(a.0, b.0);
    }
}

/// Of two byte strings that agree up to `i` and differ there, the one with the
/// smaller byte is the smaller number.
pub proof fn lemma_big_endian_less(a: Seq<u8>, b: Seq<u8>, i: int)
    requires
        a.len() == b.len(),
        0 <= i < a.len(),
        forall|j: int| 0 <= j < i ==> a[j] == b[j],
        a[i] < b[i],
    ensures
        big_endian(a) < big_endian(b),
    decreases a.len(),
{
    if i < a.len() - 1 {
        assert forall|j: int| 0 <= j < i implies a.drop_last()[j] == b.drop_last()[j] by {
            assert(a[j] == b[j]);
        }
        lemma_big_endian_less(a.drop_last(), b.drop_last(), i);
    } else {
        assert(a.drop_last() =~= b.drop_last());
    }
}

/// Different byte strings of one length are different numbers.
pub proof fn lemma_big_endian_injective(a: Seq<u8>, b: Seq<u8>)
    requires
        a.len() == b.len(),
        big_endian(a) == big_endian(b),
    ensures
        a == b,
    decreases a.len(),
{
    if a.len() > 0 {
        assert(a.last() == b.last()) by {
            assert(big_endian(a) % 256 == a.last() as nat);
            assert(big_endian(b) % 256 == b.last() as nat);
        }
        lemma_big_endian_injective(a.drop_last(), b.drop_last());
        assert(a =~= a.drop_last().push(a.last()));
        assert(b =~= b.drop_last().push(b.last()));
    } else {
        assert(a =~= b);
    }
}

/// Distance is symmetric.
pub proof fn law_distance_symmetric(a: NodeId, b: NodeId)
    ensures
        xor(a@, b@) == xor(b@, a@),
{
    assert forall|i: int| 0 <= i < 32 implies a@[i] ^ b@[i] == b@[i] ^ a@[i] by {
        let x = a@[i];
        let y = b@[i];
        assert(x ^ y == y ^ x) by (bit_vector);
    }
    assert(xor(a@, b@) =~= xor(b@, a@));
}

/// The distance is zero for an id to itself and for no other pair.
pub proof fn law_distance_zero(a: NodeId, b: NodeId)
    ensures
        xor(a@, b@) == Seq::new(32, |i: int| 0u8) <==> a == b,
{
    lemma_id_from_view(a, b);
    assert forall|i: int| 0 <= i < 32 implies (a@[i] ^ b@[i] == 0 <==> a@[i] == b@[i]) by {
        let x = a@[i];
        let y = b@[i];
        assert(x ^ y == 0 <==> x == y) by (bit_vector);
    }
    if a == b {
        assert(xor(a@, b@) =~= Seq::new(32, |i: int| 0u8));
    }
    if xor(a@, b@) == Seq::new(32, |i: int| 0u8) {
        assert forall|i: int| 0 <= i < 32 implies a@[i] == b@[i] by {
            assert(xor(a@, b@)[i] == 0);
        }
        assert(a@ =~= b@);
    }
}

/// For any target no two ids are equally close.
pub proof fn law_closest_is_unique(target: NodeId, a: NodeId, b: NodeId)
    requires
        big_endian(xor(target@, a@)) == big_endian(xor(target@, b@)),
    ensures
        a == b,
{
    lemma_big_endian_injective(xor(target@, a@), xor(target@, b@));
    assert forall|i: int| 0 <= i < 32 implies a@[i] == b@[i] by {
        let t = target@[i];
        let x = a@[i];
        let y = b@[i];
        assert(xor(target@, a@)[i] == xor(target@, b@)[i]);
        assert(t ^ x == t ^ y ==> x == y) by (bit_vector);
    }
    assert(a@ =~= b@);
    lemma_id_from_view(a, b);
}

/// The leading zero bits of the distance count the bits the two ids share at
/// the front: all of those agree, and the next one, if there is one, differs.
pub proof fn law_shared_prefix(a: NodeId, b: NodeId)
    ensures
        forall|i: int| 0 <= i < zero_bits(xor(a@, b@)) ==> #[trigger] bit(a@, i) == bit(b@, i),
        zero_bits(xor(a@, b@)) < 256 ==> bit(a@, zero_bits(xor(a@, b@)) as int) != bit(
            b@,
            zero_bits(xor(a@, b@)) as int,
        ),
        zero_bits(xor(a@, b@)) <= 256,
{
    lemma_shared_prefix(a@, b@);
}

proof fn lemma_shared_prefix(a: Seq<u8>, b: Seq<u8>)
    requires
        a.len() == b.len(),
    ensures
        forall|i: int| 0 <= i < zero_bits(xor(a, b)) ==> #[trigger] bit(a, i) == bit(b, i),
        zero_bits(xor(a, b)) < 8 * a.len() ==> bit(a, zero_bits(xor(a, b)) as int) != bit(
            b,
            zero_bits(xor(a, b)) as int,
        ),
        zero_bits(xor(a, b)) <= 8 * a.len(),
    decreases a.len(),
{
    let d = xor(a, b);
    if a.len() > 0 {
        let x = a[0];
        let y = b[0];
        if d[0] == 0 {
            assert(x ^ y == 0 ==> x == y) by (bit_vector);
            let (ar, br) = (a.skip(1), b.skip(1));
            assert(d.skip(1) =~= xor(ar, br));
            lemma_shared_prefix(ar, br);
            let n = zero_bits(xor(ar, br));
            assert forall|i: int| 0 <= i < zero_bits(d) implies #[trigger] bit(a, i) == bit(b, i) by {
                if i >= 8 {
                    assert(bit(ar, i - 8) == bit(br, i - 8));
                    assert((i - 8) / 8 == i / 8 - 1);
                } else {
                    assert(i / 8 == 0);
                }
            }
            if n < 8 * ar.len() {
                assert((n as int + 8) / 8 == n as int / 8 + 1);
                assert(bit(ar, n as int) != bit(br, n as int));
            }
        } else {
            let z = x ^ y;
            axiom_u8_leading_zeros(z);
            let n = u8_leading_zeros(z);
            assert forall|i: int| 0 <= i < n implies #[trigger] bit(a, i) == bit(b, i) by {
                let k = (7 - i) as u8;
                let m = (8 - n) as u8;
                assert(z >> m == 0 && k >= m && k < 8 ==> z >> k == 0) by (bit_vector);
                assert(z == x ^ y && z >> k == 0 && k < 8 ==> ((x >> k) & 1) == ((y >> k) & 1))
                    by (bit_vector);
            }
            let k = (7 - n) as u8;
            assert((z >> k) & 1 == 0 || (z >> k) & 1 == 1) by (bit_vector);
            assert(n as int / 8 == 0 && n as int % 8 == n);
            assert(z == x ^ y && (z >> k) & 1 == 1 && k < 8 ==> ((x >> k) & 1 == 1) != ((y >> k) & 1
                == 1)) by (bit_vector);
        }
    }
}

/// Of two ids, the one that shares more leading bits with a target is closer to it.
pub proof fn law_longer_shared_prefix_is_closer(a: NodeId, b: NodeId, target: NodeId)
    requires
        zero_bits(xor(a@, target@)) > zero_bits(xor(b@, target@)),
    ensures
        dist(a, target) < dist(b, target),
{
    lemma_id_len(a);
    lemma_id_len(b);
    assert(xor(a@, target@).skip(0) =~= xor(a@, target@));
    assert(xor(b@, target@).skip(0) =~= xor(b@, target@));
    lemma_more_zeros_is_less(xor(a@, target@), xor(b@, target@), 0);
}

proof fn lemma_more_zeros_is_less(x: Seq<u8>, y: Seq<u8>, i: int)
    requires
        x.len() == y.len(),
        0 <= i <= x.len(),
        forall|j: int| 0 <= j < i ==> x[j] == 0 && y[j] == 0,
        zero_bits(x.skip(i)) > zero_bits(y.skip(i)),
    ensures
        big_endian(x) < big_endian(y),
    decreases x.len() - i,
{
    let (s, t) = (x.skip(i), y.skip(i));
    if i < x.len() {
        let (p, q) = (s[0], t[0]);
        if p == 0 && q == 0 {
            assert(s.skip(1) =~= x.skip(i + 1));
            assert(t.skip(1) =~= y.skip(i + 1));
            lemma_more_zeros_is_less(x, y, i + 1);
        } else {
            axiom_u8_leading_zeros(p);
            axiom_u8_leading_zeros(q);
            if p != 0 {
                let m = (8 - u8_leading_zeros(p)) as u8;
                let k = (7 - u8_leading_zeros(q)) as u8;
                assert(p >> m == 0 && (q >> k) & 1 != 0 && m <= k && k < 8 ==> p < q)
                    by (bit_vector);
            }
            lemma_big_endian_less(x, y, i);
        }
    }
}

} // verus!
