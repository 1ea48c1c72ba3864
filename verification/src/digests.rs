//! Lists of content hashes, as they stand in messages.
use crate::bytes::{array_of, lemma_array_of};
use crate::crypto::Digest;
use crate::wire::{lemma_raw_roundtrip, read_raw, Decoder, Encoder, Reading, WireError};
use vstd::prelude::*;

verus! {

/// Hashes one after the other.
pub open spec fn digest_list(s: Seq<Digest>) -> Seq<u8>
    decreases s.len(),
{
    if s.len() == 0 {
        Seq::empty()
    } else {
        digest_list(s.drop_last()) + s.last()@
    }
}

/// Reading `n` hashes.
pub open spec fn read_digests(s: Seq<u8>, n: nat) -> Reading<Seq<Digest>>
    decreases n,
{
    if n == 0 {
        Ok((Seq::empty(), s))
    } else {
        match read_raw(s, 32) {
            Ok((d, s)) => match read_digests(s, (n - 1) as nat) {
                Ok((more, s)) => Ok((seq![array_of::<32>(d)] + more, s)),
                Err(e) => Err(e),
            },
            Err(e) => Err(e),
        }
    }
}

/// How long a list of hashes is.
pub proof fn lemma_digest_list_len(s: Seq<Digest>)
    ensures
        digest_list(s).len() == 32 * s.len(),
    decreases s.len(),
{
    if s.len() > 0 {
        lemma_digest_list_len(s.drop_last());
    }
}

/// A list begins with its first hash.
proof fn lemma_digest_list_front(s: Seq<Digest>)
    requires
        s.len() > 0,
    ensures
        digest_list(s) == s[0]@ + digest_list(s.skip(1)),
    decreases s.len(),
{
    if s.len() == 1 {
        assert(s.drop_last() =~= Seq::<Digest>::empty());
        assert(s.skip(1) =~= Seq::<Digest>::empty());
        assert(digest_list(s) =~= s[0]@ + digest_list(s.skip(1)));
    } else {
        lemma_digest_list_front(s.drop_last());
        assert(s.drop_last().skip(1) =~= s.skip(1).drop_last());
        assert(s.skip(1).last() == s.last());
        assert(digest_list(s) =~= s[0]@ + digest_list(s.skip(1)));
    }
}

/// Hashes are read back, whatever follows them.
pub proof fn lemma_digests_roundtrip(s: Seq<Digest>, rest: Seq<u8>)
    ensures
        read_digests(digest_list(s) + rest, s.len()) == Ok::<(Seq<Digest>, Seq<u8>), WireError>(
            (s, rest),
        ),
    decreases s.len(),
{
    if s.len() == 0 {
        assert(digest_list(s) + rest =~= rest);
        assert(s =~= Seq::<Digest>::empty());
    } else {
        lemma_digest_list_front(s);
        let more = digest_list(s.skip(1)) + rest;
        assert(digest_list(s) + rest =~= s[0]@ + more);
        lemma_raw_roundtrip(s[0]@, more);
        lemma_array_of(s[0]);
        lemma_digests_roundtrip(s.skip(1), rest);
        assert(seq![s[0]] + s.skip(1) =~= s);
    }
}

/// Writes hashes one after the other.
pub fn put_digests(enc: &mut Encoder, s: &Vec<Digest>)
    ensures
        final(enc)@ == old(enc)@ + digest_list(s@),
{
    let ghost head = enc@;
    let mut i: usize = 0;
    assert(head + digest_list(s@.take(0)) =~= head);
    while i < s.len()
        invariant
            i <= s.len(),
            enc@ == head + digest_list(s@.take(i as int)),
        decreases s.len() - i,
    {
        assert(s@.take(i + 1).drop_last() =~= s@.take(i as int));
        assert(s@.take(i + 1).last() == s@[i as int]);
        let ghost before = enc@;
        enc.raw(&s[i]);
        assert(enc@ =~= head + digest_list(s@.take(i + 1)));
        i += 1;
    }
    assert(s@.take(s@.len() as int) =~= s@);
}

/// Reads `n` hashes.
pub fn take_digests(dec: &mut Decoder, n: u64) -> (r: Result<Vec<Digest>, WireError>)
    requires
        old(dec).wf(),
    ensures
        final(dec).wf(),
        match read_digests(old(dec)@, n as nat) {
            Ok((v, rest)) => r is Ok && r->Ok_0@ == v && final(dec)@ == rest,
            Err(e) => r == Err::<Vec<Digest>, WireError>(e),
        },
{
    let ghost s0 = dec@;
    let mut out: Vec<Digest> = Vec::new();
    let mut i: u64 = 0;
    assert(out@ =~= Seq::<Digest>::empty());
    while i < n
        invariant
            i <= n,
            s0 == old(dec)@,
            dec.wf(),
            match read_digests(dec@, (n - i) as nat) {
                Ok((more, rest)) => read_digests(s0, n as nat) == Ok::<
                    (Seq<Digest>, Seq<u8>),
                    WireError,
                >((out@ + more, rest)),
                Err(e) => read_digests(s0, n as nat) == Err::<(Seq<Digest>, Seq<u8>), WireError>(e),
            },
        decreases n - i,
    {
        let ghost before = dec@;
        let ghost had = out@;
        let d: Digest = match dec.array::<32>() {
            Ok(d) => d,
            Err(e) => {
                return Err(e);
            },
        };
        proof {
            lemma_array_of(d);
        }
        out.push(d);
        proof {
            if let Ok((more, rest)) = read_digests(dec@, (n - i - 1) as nat) {
                assert(had + (seq![d] + more) =~= out@ + more);
            }
        }
        i += 1;
    }
    assert(out@ + Seq::<Digest>::empty() =~= out@);
    Ok(out)
}

} // verus!
