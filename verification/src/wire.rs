//! The byte-level codec: single bytes, little-endian integers, variable-length
//! integers in groups of seven bits, raw runs and length-prefixed runs.
use crate::bytes::{append, part, to_array};
use vstd::prelude::*;

verus! {

/// Why a buffer could not be read.
#[derive(Clone, Copy, Debug, PartialEq, Eq, Structural)]
pub enum WireError {
    /// The buffer ended inside a value.
    UnexpectedEnd,
    /// A variable-length integer does not fit 64 bits.
    VarintOverflow,
    /// Bytes were left over after the last value.
    TrailingBytes(usize),
}

/// What reading a value of type `T` off the front of a byte string gives: the
/// value and what follows it, or the reason it could not be read.
pub type Reading<T> = Result<(T, Seq<u8>), WireError>;

/// One more than the largest value the groups from the `k`-th on may hold.
pub open spec fn group_cap(k: nat) -> int {
    if k == 0 {
        0x1_0000_0000_0000_0000
    } else if k == 1 {
        0x200_0000_0000_0000
    } else if k == 2 {
        0x4_0000_0000_0000
    } else if k == 3 {
        0x800_0000_0000
    } else if k == 4 {
        0x10_0000_0000
    } else if k == 5 {
        0x2000_0000
    } else if k == 6 {
        0x40_0000
    } else if k == 7 {
        0x8000
    } else if k == 8 {
        0x100
    } else {
        2
    }
}

/// The encoding of an integer: seven bits a byte, least significant group
/// first, the top bit set on every byte but the last.
pub open spec fn varint(n: nat) -> Seq<u8>
    decreases n,
{
    if n < 128 {
        seq![n as u8]
    } else {
        seq![(n % 128 + 128) as u8] + varint(n / 128)
    }
}

/// Reads the groups of an integer from the `k`-th on: the value they hold and
/// what follows.
pub open spec fn read_groups(s: Seq<u8>, k: nat) -> Result<(nat, Seq<u8>), WireError>
    decreases s.len(),
{
    if s.len() == 0 {
        Err(WireError::UnexpectedEnd)
    } else if k >= 9 && s[0] > 1 {
        Err(WireError::VarintOverflow)
    } else if s[0] < 128 {
        Ok((s[0] as nat, s.skip(1)))
    } else {
        match read_groups(s.skip(1), k + 1) {
            Ok((v, rest)) => Ok(((s[0] - 128 + 128 * v) as nat, rest)),
            Err(e) => Err(e),
        }
    }
}

/// Reading one byte.
pub open spec fn read_u8(s: Seq<u8>) -> Reading<u8> {
    if s.len() == 0 {
        Err(WireError::UnexpectedEnd)
    } else {
        Ok((s[0], s.skip(1)))
    }
}

/// Reading a two-byte little-endian integer.
pub open spec fn read_u16_le(s: Seq<u8>) -> Reading<u16> {
    if s.len() < 2 {
        Err(WireError::UnexpectedEnd)
    } else {
        Ok(((s[0] + 256 * s[1]) as u16, s.skip(2)))
    }
}

/// The two bytes of an integer, least significant first.
pub open spec fn u16_le(v: u16) -> Seq<u8> {
    seq![(v % 256) as u8, (v / 256) as u8]
}

/// Reading a variable-length integer.
pub open spec fn read_uint(s: Seq<u8>) -> Reading<u64> {
    match read_groups(s, 0) {
        Ok((v, rest)) => Ok((v as u64, rest)),
        Err(e) => Err(e),
    }
}

/// Reading exactly `n` bytes.
pub open spec fn read_raw(s: Seq<u8>, n: nat) -> Reading<Seq<u8>> {
    if s.len() < n {
        Err(WireError::UnexpectedEnd)
    } else {
        Ok((s.take(n as int), s.skip(n as int)))
    }
}

/// Reading a run of bytes behind its length.
pub open spec fn read_bytes(s: Seq<u8>) -> Reading<Seq<u8>> {
    match read_uint(s) {
        Ok((n, rest)) => read_raw(rest, n as nat),
        Err(e) => Err(e),
    }
}

/// A run of bytes behind its length.
pub open spec fn with_length(s: Seq<u8>) -> Seq<u8> {
    varint(s.len()) + s
}

/// Whether nothing is left to read.
pub open spec fn read_end(s: Seq<u8>) -> Result<(), WireError> {
    if s.len() == 0 {
        Ok(())
    } else {
        Err(WireError::TrailingBytes(s.len() as usize))
    }
}

/// An integer that fits the groups from the `k`-th on is read back, whatever
/// follows it.
pub proof fn lemma_groups_roundtrip(n: nat, k: nat, rest: Seq<u8>)
    requires
        k <= 9,
        n < group_cap(k),
    ensures
        read_groups(varint(n) + rest, k) == Ok::<(nat, Seq<u8>), WireError>((n, rest)),
        0 < varint(n).len() <= 10 - k,
    decreases n,
{
    let s = varint(n) + rest;
    if n < 128 {
        assert(s[0] == n as u8);
        assert(s.skip(1) =~= rest);
    } else {
        assert(k < 9);
        assert(group_cap(k) == 128 * group_cap(k + 1));
        lemma_groups_roundtrip(n / 128, k + 1, rest);
        assert(s[0] == (n % 128 + 128) as u8);
        assert(s.skip(1) =~= varint(n / 128) + rest);
    }
}

/// What an integer encodes to is read back, whatever follows it.
pub proof fn lemma_uint_roundtrip(v: u64, rest: Seq<u8>)
    ensures
        read_uint(varint(v as nat) + rest) == Ok::<(u64, Seq<u8>), WireError>((v, rest)),
        0 < varint(v as nat).len() <= 10,
{
    lemma_groups_roundtrip(v as nat, 0, rest);
}

/// A length-prefixed run is read back, whatever follows it.
pub proof fn lemma_bytes_roundtrip(b: Seq<u8>, rest: Seq<u8>)
    requires
        b.len() <= u64::MAX,
    ensures
        read_bytes(with_length(b) + rest) == Ok::<(Seq<u8>, Seq<u8>), WireError>((b, rest)),
{
    lemma_uint_roundtrip(b.len() as u64, b + rest);
    assert(with_length(b) + rest =~= varint(b.len()) + (b + rest));
    assert((b + rest).take(b.len() as int) =~= b);
    assert((b + rest).skip(b.len() as int) =~= rest);
}

/// A raw run is read back, whatever follows it.
pub proof fn lemma_raw_roundtrip(b: Seq<u8>, rest: Seq<u8>)
    ensures
        read_raw(b + rest, b.len()) == Ok::<(Seq<u8>, Seq<u8>), WireError>((b, rest)),
{
    assert((b + rest).take(b.len() as int) =~= b);
    assert((b + rest).skip(b.len() as int) =~= rest);
}

/// A byte is read back, whatever follows it.
pub proof fn lemma_u8_roundtrip(v: u8, rest: Seq<u8>)
    ensures
        read_u8(seq![v] + rest) == Ok::<(u8, Seq<u8>), WireError>((v, rest)),
{
    assert((seq![v] + rest).skip(1) =~= rest);
}

/// A two-byte integer is read back, whatever follows it.
pub proof fn lemma_u16_roundtrip(v: u16, rest: Seq<u8>)
    ensures
        read_u16_le(u16_le(v) + rest) == Ok::<(u16, Seq<u8>), WireError>((v, rest)),
{
    let s = u16_le(v) + rest;
    assert(s[0] == (v % 256) as u8);
    assert(s[1] == (v / 256) as u8);
    assert(s.skip(2) =~= rest);
}

/// A read value is bounded by what its groups may hold, and takes a byte or
/// more.
pub proof fn lemma_groups_bounded(s: Seq<u8>, k: nat)
    requires
        k <= 9,
    ensures
        read_groups(s, k) matches Ok((v, rest)) ==> v < group_cap(k) && rest.len() < s.len(),
    decreases s.len(),
{
    if s.len() > 0 && !(k >= 9 && s[0] > 1) && s[0] >= 128 {
        assert(k < 9);
        lemma_groups_bounded(s.skip(1), k + 1);
        assert(group_cap(k) == 128 * group_cap(k + 1));
    }
}

/// The `n` lowest bytes of a number, least significant first.
pub open spec fn le_bytes(x: nat, n: nat) -> Seq<u8>
    decreases n,
{
    if n == 0 {
        Seq::empty()
    } else {
        seq![(x % 256) as u8] + le_bytes(x / 256, (n - 1) as nat)
    }
}

/// The number that bytes stand for, least significant first.
pub open spec fn le_value(s: Seq<u8>) -> nat
    decreases s.len(),
{
    if s.len() == 0 {
        0
    } else {
        s[0] as nat + 256 * le_value(s.skip(1))
    }
}

/// One more than the largest number of `n` bytes.
pub open spec fn byte_cap(n: nat) -> nat
    decreases n,
{
    if n == 0 {
        1
    } else {
        256 * byte_cap((n - 1) as nat)
    }
}

/// A number that fits `n` bytes is what its `n` bytes stand for.
pub proof fn lemma_le_roundtrip(x: nat, n: nat)
    requires
        x < byte_cap(n),
    ensures
        le_value(le_bytes(x, n)) == x,
        le_bytes(x, n).len() == n,
    decreases n,
{
    if n > 0 {
        lemma_le_roundtrip(x / 256, (n - 1) as nat);
        assert(le_bytes(x, n).skip(1) =~= le_bytes(x / 256, (n - 1) as nat));
    }
}

proof fn lemma_le_bounded(s: Seq<u8>)
    ensures
        le_value(s) < byte_cap(s.len()),
    decreases s.len(),
{
    if s.len() > 0 {
        lemma_le_bounded(s.skip(1));
    }
}

pub proof fn lemma_byte_cap_eight()
    ensures
        byte_cap(8) == 0x1_0000_0000_0000_0000,
{
    reveal_with_fuel(byte_cap, 9);
}

/// The eight bytes of a number, least significant first.
pub fn u64_to_le(v: u64) -> (r: [u8; 8])
    ensures
        r@ == le_bytes(v as nat, 8),
        le_value(r@) == v,
{
    proof {
        lemma_byte_cap_eight();
        lemma_le_roundtrip(v as nat, 8);
        reveal_with_fuel(le_bytes, 9);
    }
    let b0: u8 = (v % 256) as u8;
    let v1: u64 = v / 256;
    let v2: u64 = v1 / 256;
    let v3: u64 = v2 / 256;
    let v4: u64 = v3 / 256;
    let v5: u64 = v4 / 256;
    let v6: u64 = v5 / 256;
    let v7: u64 = v6 / 256;
    let r: [u8; 8] = [
        b0,
        (v1 % 256) as u8,
        (v2 % 256) as u8,
        (v3 % 256) as u8,
        (v4 % 256) as u8,
        (v5 % 256) as u8,
        (v6 % 256) as u8,
        (v7 % 256) as u8,
    ];
    assert(r@ =~= le_bytes(v as nat, 8));
    r
}

/// The number that eight bytes stand for, least significant first.
pub fn u64_from_le(s: &[u8]) -> (r: u64)
    requires
        s.len() == 8,
    ensures
        r == le_value(s@),
{
    let mut v: u64 = 0;
    let mut i: usize = 8;
    assert(s@.skip(8) =~= Seq::empty());
    while i > 0
        invariant
            i <= 8,
            s.len() == 8,
            v == le_value(s@.skip(i as int)),
        decreases i,
    {
        assert(s@.skip(i - 1)[0] == s@[i - 1]);
        assert(s@.skip(i - 1).skip(1) =~= s@.skip(i as int));
        proof {
            lemma_le_bounded(s@.skip(i - 1));
            lemma_byte_cap_eight();
            reveal_with_fuel(byte_cap, 9);
        }
        i -= 1;
        v = s[i] as u64 + 256 * v;
    }
    assert(s@.skip(0) =~= s@);
    v
}

/// Builds a byte string value by value.
pub struct Encoder {
    out: Vec<u8>,
}

impl View for Encoder {
    type V = Seq<u8>;

    closed spec fn view(&self) -> Seq<u8> {
        self.out@
    }
}

impl Encoder {
    /// An encoder that has written nothing.
    pub fn new() -> (r: Self)
        ensures
            r@ == Seq::<u8>::empty(),
    {
        Encoder { out: Vec::new() }
    }

    /// Writes one byte.
    pub fn u8(&mut self, v: u8)
        ensures
            final(self)@ == old(self)@ + seq![v],
    {
        self.out.push(v);
        assert(self.out@ =~= old(self).out@ + seq![v]);
    }

    /// Writes a two-byte integer, least significant byte first.
    pub fn u16_le(&mut self, v: u16)
        ensures
            final(self)@ == old(self)@ + u16_le(v),
    {
        self.out.push((v % 256) as u8);
        self.out.push((v / 256) as u8);
        assert(self.out@ =~= old(self).out@ + u16_le(v));
    }

    /// Writes a variable-length integer.
    pub fn uint(&mut self, v: u64)
        ensures
            final(self)@ == old(self)@ + varint(v as nat),
    {
        let mut n: u64 = v;
        while n >= 128
            invariant
                self.out@ + varint(n as nat) == old(self).out@ + varint(v as nat),
            decreases n,
        {
            let ghost before = self.out@;
            self.out.push((n % 128) as u8 + 128);
            assert(self.out@ + varint(n as nat / 128) =~= before + varint(n as nat));
            n = n / 128;
        }
        let ghost before = self.out@;
        self.out.push(n as u8);
        assert(self.out@ =~= before + varint(n as nat));
    }

    /// Writes bytes as they are.
    pub fn raw(&mut self, s: &[u8])
        ensures
            final(self)@ == old(self)@ + s@,
    {
        append(&mut self.out, s);
    }

    /// Writes bytes behind their length.
    pub fn bytes(&mut self, s: &[u8])
        ensures
            final(self)@ == old(self)@ + with_length(s@),
    {
        self.uint(s.len() as u64);
        self.raw(s);
        assert(self@ =~= old(self)@ + with_length(s@));
    }

    /// The bytes written.
    pub fn into_vec(self) -> (r: Vec<u8>)
        ensures
            r@ == self@,
    {
        self.out
    }
}

/// Reads a byte string value by value.
pub struct Decoder<'a> {
    buf: &'a [u8],
    pos: usize,
}

impl<'a> View for Decoder<'a> {
    type V = Seq<u8>;

    closed spec fn view(&self) -> Seq<u8> {
        self.buf@.skip(self.pos as int)
    }
}

impl<'a> Decoder<'a> {
    /// Whether the decoder's place lies inside its buffer.
    pub closed spec fn wf(&self) -> bool {
        self.pos <= self.buf@.len()
    }

    /// A decoder at the front of `buf`.
    pub fn new(buf: &'a [u8]) -> (r: Self)
        ensures
            r.wf(),
            r@ == buf@,
    {
        let r = Decoder { buf, pos: 0 };
        assert(r@ =~= buf@);
        r
    }

    /// How many bytes are left.
    pub fn remaining(&self) -> (r: usize)
        requires
            self.wf(),
        ensures
            r == self@.len(),
    {
        self.buf.len() - self.pos
    }

    /// Reads one byte.
    pub fn u8(&mut self) -> (r: Result<u8, WireError>)
        requires
            old(self).wf(),
        ensures
            final(self).wf(),
            match read_u8(old(self)@) {
                Ok((v, rest)) => r == Ok::<u8, WireError>(v) && final(self)@ == rest,
                Err(e) => r == Err::<u8, WireError>(e),
            },
    {
        if self.pos >= self.buf.len() {
            return Err(WireError::UnexpectedEnd);
        }
        let v: u8 = self.buf[self.pos];
        self.pos += 1;
        assert(self@ =~= old(self)@.skip(1));
        Ok(v)
    }

    /// Reads a two-byte integer, least significant byte first.
    pub fn u16_le(&mut self) -> (r: Result<u16, WireError>)
        requires
            old(self).wf(),
        ensures
            final(self).wf(),
            match read_u16_le(old(self)@) {
                Ok((v, rest)) => r == Ok::<u16, WireError>(v) && final(self)@ == rest,
                Err(e) => r == Err::<u16, WireError>(e),
            },
    {
        if self.buf.len() - self.pos < 2 {
            return Err(WireError::UnexpectedEnd);
        }
        let v: u16 = self.buf[self.pos] as u16 + 256 * (self.buf[self.pos + 1] as u16);
        self.pos += 2;
        assert(self@ =~= old(self)@.skip(2));
        Ok(v)
    }

    fn groups(&mut self, k: u32) -> (r: Result<u64, WireError>)
        requires
            old(self).wf(),
            k <= 9,
        ensures
            final(self).wf(),
            match read_groups(old(self)@, k as nat) {
                Ok((v, rest)) => r == Ok::<u64, WireError>(v as u64) && final(self)@ == rest && v
                    <= u64::MAX,
                Err(e) => r == Err::<u64, WireError>(e),
            },
        decreases 10 - k,
    {
        proof {
            lemma_groups_bounded(self@, k as nat);
        }
        let byte: u8 = match self.u8() {
            Ok(byte) => byte,
            Err(e) => {
                return Err(e);
            },
        };
        if k >= 9 && byte > 1 {
            return Err(WireError::VarintOverflow);
        }
        if byte < 128 {
            return Ok(byte as u64);
        }
        proof {
            lemma_groups_bounded(self@, k as nat + 1);
            assert(group_cap(k as nat) == 128 * group_cap(k as nat + 1));
        }
        match self.groups(k + 1) {
            Ok(v) => Ok((byte - 128) as u64 + 128 * v),
            Err(e) => Err(e),
        }
    }

    /// Reads a variable-length integer.
    pub fn uint(&mut self) -> (r: Result<u64, WireError>)
        requires
            old(self).wf(),
        ensures
            final(self).wf(),
            match read_uint(old(self)@) {
                Ok((v, rest)) => r == Ok::<u64, WireError>(v) && final(self)@ == rest,
                Err(e) => r == Err::<u64, WireError>(e),
            },
    {
        self.groups(0)
    }

    /// Reads `n` bytes.
    pub fn raw(&mut self, n: usize) -> (r: Result<&'a [u8], WireError>)
        requires
            old(self).wf(),
        ensures
            final(self).wf(),
            match read_raw(old(self)@, n as nat) {
                Ok((v, rest)) => r is Ok && r->Ok_0@ == v && final(self)@ == rest,
                Err(e) => r == Err::<&'a [u8], WireError>(e),
            },
    {
        if self.buf.len() - self.pos < n {
            return Err(WireError::UnexpectedEnd);
        }
        let out: &'a [u8] = part(self.buf, self.pos, self.pos + n);
        self.pos += n;
        assert(out@ =~= old(self)@.take(n as int));
        assert(self@ =~= old(self)@.skip(n as int));
        Ok(out)
    }

    /// Reads `N` bytes into an array.
    pub fn array<const N: usize>(&mut self) -> (r: Result<[u8; N], WireError>)
        requires
            old(self).wf(),
        ensures
            final(self).wf(),
            match read_raw(old(self)@, N as nat) {
                Ok((v, rest)) => r is Ok && r->Ok_0@ == v && final(self)@ == rest,
                Err(e) => r == Err::<[u8; N], WireError>(e),
            },
    {
        match self.raw(N) {
            Ok(s) => Ok(to_array(s)),
            Err(e) => Err(e),
        }
    }

    /// Reads a length and that many bytes.
    pub fn bytes(&mut self) -> (r: Result<&'a [u8], WireError>)
        requires
            old(self).wf(),
        ensures
            final(self).wf(),
            match read_bytes(old(self)@) {
                Ok((v, rest)) => r is Ok && r->Ok_0@ == v && final(self)@ == rest,
                Err(e) => r == Err::<&'a [u8], WireError>(e),
            },
    {
        let n: u64 = match self.uint() {
            Ok(n) => n,
            Err(e) => {
                return Err(e);
            },
        };
        if n > self.remaining() as u64 {
            return Err(WireError::UnexpectedEnd);
        }
        self.raw(n as usize)
    }

    /// Succeeds if every byte has been read.
    pub fn finish(&self) -> (r: Result<(), WireError>)
        requires
            self.wf(),
        ensures
            r == read_end(self@),
    {
        let left: usize = self.remaining();
        if left == 0 {
            Ok(())
        } else {
            Err(WireError::TrailingBytes(left))
        }
    }
}

/// An integer takes a byte for every seven bits, the lowest first; every byte but the last
/// says that another follows.
pub proof fn law_integers_are_compact(n: nat)
    ensures
        varint(n).len() >= 1,
        varint(n).len() == 1 <==> n < 128,
        varint(n)[0] % 128 == n % 128,
        varint(n)[0] >= 128 <==> n >= 128,
        n >= 128 ==> varint(n).skip(1) == varint(n / 128),
        varint(n).last() < 128,
    decreases n,
{
    if n >= 128 {
        law_integers_are_compact(n / 128);
        let s = seq![(n % 128 + 128) as u8] + varint(n / 128);
        assert(s.skip(1) =~= varint(n / 128));
        assert(s.last() == varint(n / 128).last());
    }
}

/// What is written is read back, whatever follows it, and what follows is left.
pub proof fn law_written_values_are_read(v: u64, w: u16, x: u8, b: Seq<u8>, rest: Seq<u8>)
    requires
        b.len() <= u64::MAX,
    ensures
        read_uint(varint(v as nat) + rest) == Ok::<(u64, Seq<u8>), WireError>((v, rest)),
        read_u16_le(u16_le(w) + rest) == Ok::<(u16, Seq<u8>), WireError>((w, rest)),
        read_u8(seq![x] + rest) == Ok::<(u8, Seq<u8>), WireError>((x, rest)),
        read_bytes(with_length(b) + rest) == Ok::<(Seq<u8>, Seq<u8>), WireError>((b, rest)),
        read_raw(b + rest, b.len()) == Ok::<(Seq<u8>, Seq<u8>), WireError>((b, rest)),
{
    lemma_uint_roundtrip(v, rest);
    lemma_u16_roundtrip(w, rest);
    lemma_u8_roundtrip(x, rest);
    lemma_bytes_roundtrip(b, rest);
    lemma_raw_roundtrip(b, rest);
}

/// Input that ends too early is refused, and so is what is left at the end.
pub proof fn law_short_input_is_refused(s: Seq<u8>, n: nat)
    ensures
        s.len() < n <==> read_raw(s, n) is Err,
        s.len() < n ==> read_raw(s, n) == Err::<(Seq<u8>, Seq<u8>), WireError>(
            WireError::UnexpectedEnd,
        ),
        s.len() == 0 <==> read_end(s) is Ok,
        s.len() == 0 ==> read_u8(s) == Err::<(u8, Seq<u8>), WireError>(WireError::UnexpectedEnd)
            && read_uint(s) == Err::<(u64, Seq<u8>), WireError>(WireError::UnexpectedEnd),
        s.len() < 2 ==> read_u16_le(s) == Err::<(u16, Seq<u8>), WireError>(
            WireError::UnexpectedEnd,
        ),
        read_u16_le(s) matches Ok((v, rest)) ==> v == s[0] + 256 * s[1] && rest == s.skip(2),
{
}

} // verus!
