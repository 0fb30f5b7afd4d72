//! The variable-length quantity (VLQ) codec.
//!
//! Packet lengths in the packet table are big-endian base-128
//! integers: each byte contributes its low seven bits, and its top bit
//! says whether another byte follows. Decoding caps the run at ten
//! bytes — enough for the full 64-bit range — and fails rather than
//! looping unboundedly on adversarial input.

use vstd::prelude::*;
use crate::error::CafError;

verus! {

/// How many bytes a VLQ run may span before decoding gives up.
pub const VLQ_BYTE_CAP: usize = 10;

/// One decoding step: shift the accumulator and take the byte's low
/// seven bits.
pub open spec fn vlq_step(acc: u64, b: u8) -> u64 {
    (acc << 7) | ((b % 128) as u64)
}

/// The accumulator after folding `vlq_step` over `s` from the left.
pub open spec fn vlq_fold(s: Seq<u8>, acc: u64) -> u64
    decreases s.len(),
{
    if s.len() == 0 {
        acc
    } else {
        vlq_fold(s.drop_first(), vlq_step(acc, s[0]))
    }
}

/// The continuation bytes (top bit set) that precede the final byte in
/// the encoding of a value whose remaining high part is `u`.
pub open spec fn vlq_cont(u: u64) -> Seq<u8>
    decreases u,
{
    if u == 0 {
        Seq::empty()
    } else {
        vlq_cont((u / 128) as u64).push((u % 128 + 128) as u8)
    }
}

/// The VLQ encoding of `v`: continuation bytes, then the low seven
/// bits with the top bit clear.
pub open spec fn vlq_encode(v: u64) -> Seq<u8> {
    vlq_cont((v / 128) as u64).push((v % 128) as u8)
}

/// How many consecutive bytes from `pos` carry the continuation bit.
pub open spec fn vlq_cont_run(s: Seq<u8>, pos: int) -> nat
    decreases s.len() - pos,
{
    if pos < 0 || pos >= s.len() {
        0
    } else if s[pos] >= 128 {
        1 + vlq_cont_run(s, pos + 1)
    } else {
        0
    }
}

/// What reading one VLQ at `pos` yields: the value and the number of
/// bytes consumed, or the error.
pub open spec fn spec_read_vlq(s: Seq<u8>, pos: int) -> Result<(u64, int), CafError> {
    let run = vlq_cont_run(s, pos);
    if run >= VLQ_BYTE_CAP {
        Err(CafError::MalformedVlq)
    } else if pos + run >= s.len() {
        Err(CafError::MalformedField)
    } else {
        Ok((vlq_fold(s.subrange(pos, pos + run + 1), 0), run + 1 as int))
    }
}

/// A stretch of `m` continuation bytes from `pos` makes the run at
/// least `m` long.
proof fn lemma_vlq_cont_run_at_least(s: Seq<u8>, pos: int, m: int)
    requires
        0 <= pos,
        0 <= m,
        pos + m <= s.len(),
        forall|j: int| pos <= j < pos + m ==> s[j] >= 128,
    ensures
        vlq_cont_run(s, pos) >= m,
    decreases m,
{
    if m > 0 {
        assert(s[pos] >= 128);
        lemma_vlq_cont_run_at_least(s, pos + 1, m - 1);
        assert(vlq_cont_run(s, pos) == 1 + vlq_cont_run(s, pos + 1));
    }
}

/// A run of `m` continuation bytes up to a terminator (or the end of
/// the data) pins `vlq_cont_run` down to `m`.
proof fn lemma_vlq_cont_run_is(s: Seq<u8>, pos: int, m: int)
    requires
        0 <= pos,
        0 <= m,
        pos + m <= s.len(),
        forall|j: int| pos <= j < pos + m ==> s[j] >= 128,
        pos + m == s.len() || s[pos + m] < 128,
    ensures
        vlq_cont_run(s, pos) == m,
    decreases m,
{
    if m == 0 {
    } else {
        lemma_vlq_cont_run_is(s, pos + 1, m - 1);
    }
}

/// Reads one VLQ starting at `pos`. Returns the value and the number
/// of bytes consumed. Fails with `MalformedField` when the data ends
/// before a terminating byte, and with `MalformedVlq` when the
/// continuation-bit run exceeds the byte cap.
pub fn read_vlq(data: &Vec<u8>, pos: usize) -> (r: Result<(u64, usize), CafError>)
    requires
        pos <= data@.len(),
    ensures
        match r {
            Ok((v, n)) => spec_read_vlq(data@, pos as int) == Ok::<(u64, int), CafError>((
                v,
                n as int,
            )),
            Err(e) => spec_read_vlq(data@, pos as int) == Err::<(u64, int), CafError>(e),
        },
        match r {
            Ok((v, n)) => {
                &&& 1 <= n <= VLQ_BYTE_CAP
                &&& pos + n <= data@.len()
                &&& forall|j: int| pos <= j < pos + n - 1 ==> data@[j] >= 128
                &&& data@[pos + n - 1] < 128
                &&& v == vlq_fold(data@.subrange(pos as int, pos + n), 0)
            },
            Err(CafError::MalformedVlq) => {
                &&& pos + VLQ_BYTE_CAP <= data@.len()
                &&& forall|j: int| pos <= j < pos + VLQ_BYTE_CAP ==> data@[j] >= 128
            },
            Err(CafError::MalformedField) => {
                &&& data@.len() < pos + VLQ_BYTE_CAP
                &&& forall|j: int| pos <= j < data@.len() ==> data@[j] >= 128
            },
            Err(_) => false,
        },
{
    let n = data.len();
    let mut acc: u64 = 0;
    let mut i: usize = 0;
    while i < VLQ_BYTE_CAP
        invariant
            pos <= n == data@.len(),
            i <= VLQ_BYTE_CAP,
            pos + i <= data@.len(),
            forall|j: int| pos <= j < pos + i ==> data@[j] >= 128,
            acc == vlq_fold(data@.subrange(pos as int, pos + i), 0),
        decreases VLQ_BYTE_CAP - i,
    {
        if n - pos == i {
            proof {
                lemma_vlq_cont_run_is(data@, pos as int, i as int);
            }
            return Err(CafError::MalformedField);
        }
        let b = data[pos + i];
        proof {
            lemma_vlq_fold_snoc(data@.subrange(pos as int, pos + i), data@[pos + i], 0);
            assert(data@.subrange(pos as int, pos + i + 1) =~= data@.subrange(
                pos as int,
                pos + i,
            ).push(data@[pos + i]));
        }
        acc = (acc << 7) | ((b % 128) as u64);
        i = i + 1;
        if b < 128 {
            proof {
                lemma_vlq_cont_run_is(data@, pos as int, i - 1);
            }
            return Ok((acc, i));
        }
    }
    proof {
        lemma_vlq_cont_run_at_least(data@, pos as int, VLQ_BYTE_CAP as int);
    }
    Err(CafError::MalformedVlq)
}

/// Appends the continuation bytes for the high part `u`.
fn encode_cont(u: u64, out: &mut Vec<u8>)
    ensures
        final (out)@ == old(out)@ + vlq_cont(u),
    decreases u,
{
    if u > 0 {
        encode_cont(u / 128, out);
        out.push((u % 128) as u8 + 128);
        proof {
            assert(final (out)@ =~= old(out)@ + vlq_cont(u));
        }
    } else {
        proof {
            assert(final (out)@ =~= old(out)@ + vlq_cont(0));
        }
    }
}

/// Encodes `v` as a VLQ.
pub fn encode_vlq(v: u64) -> (r: Vec<u8>)
    ensures
        r@ == vlq_encode(v),
{
    let mut out: Vec<u8> = Vec::new();
    encode_cont(v / 128, &mut out);
    out.push((v % 128) as u8);
    proof {
        assert(out@ =~= vlq_encode(v));
    }
    out
}

/// Folding one more byte is one more step.
pub proof fn lemma_vlq_fold_snoc(s: Seq<u8>, b: u8, acc: u64)
    ensures
        vlq_fold(s.push(b), acc) == vlq_step(vlq_fold(s, acc), b),
    decreases s.len(),
{
    if s.len() == 0 {
        assert(s.push(b)[0] == b);
        assert(s.push(b).drop_first() =~= Seq::<u8>::empty());
        assert(vlq_fold(s.push(b), acc) == vlq_fold(Seq::<u8>::empty(), vlq_step(acc, b)));
    } else {
        assert(s.push(b)[0] == s[0]);
        assert(s.push(b).drop_first() =~= s.drop_first().push(b));
        lemma_vlq_fold_snoc(s.drop_first(), b, vlq_step(acc, s[0]));
        assert(vlq_fold(s.push(b), acc) == vlq_fold(s.drop_first().push(b), vlq_step(acc, s[0])));
    }
}

/// Decoding the continuation bytes of `u` from a zero accumulator
/// rebuilds `u / 128`'s high part exactly: the fold of `vlq_cont(u)`
/// is `u`.
proof fn lemma_vlq_cont_fold(u: u64)
    ensures
        vlq_fold(vlq_cont(u), 0) == u,
    decreases u,
{
    if u == 0 {
    } else {
        let h = (u / 128) as u64;
        lemma_vlq_cont_fold(h);
        lemma_vlq_fold_snoc(vlq_cont(h), (u % 128 + 128) as u8, 0);
        assert((((u / 128) as u64) << 7) | (((u % 128 + 128) as u8 % 128) as u64) == u)
            by (bit_vector);
    }
}

/// The continuation bytes all have the top bit set, and a value below
/// `128^k` takes at most `k` of them.
proof fn lemma_vlq_cont_props(u: u64, k: nat)
    requires
        u < vstd::arithmetic::power::pow(128, k),
    ensures
        vlq_cont(u).len() <= k,
        forall|j: int| 0 <= j < vlq_cont(u).len() ==> vlq_cont(u)[j] >= 128,
    decreases u,
{
    if u == 0 {
    } else {
        let h = (u / 128) as u64;
        assert(k > 0) by {
            if k == 0 {
                vstd::arithmetic::power::lemma_pow0(128);
            }
        }
        assert(h < vstd::arithmetic::power::pow(128, (k - 1) as nat)) by {
            assert(vstd::arithmetic::power::pow(128, k) == 128 * vstd::arithmetic::power::pow(
                128,
                (k - 1) as nat,
            )) by {
                reveal(vstd::arithmetic::power::pow);
            }
            vstd::arithmetic::power::lemma_pow_positive(128, (k - 1) as nat);
            assert(u / 128 < vstd::arithmetic::power::pow(128, (k - 1) as nat)) by (nonlinear_arith)
                requires
                    u < 128 * vstd::arithmetic::power::pow(128, (k - 1) as nat),
                    vstd::arithmetic::power::pow(128, (k - 1) as nat) > 0,
            ;
        }
        lemma_vlq_cont_props(h, (k - 1) as nat);
    }
}

/// Encode-then-decode returns the original value, for every `u64`: the
/// encoding is at most ten bytes (at most nine when the value is below
/// `2^63`), its continuation bytes all carry the top bit, its final
/// byte does not, and folding the decoder's step function over it
/// yields the value back.
pub proof fn lemma_vlq_round_trip(v: u64)
    ensures
        vlq_fold(vlq_encode(v), 0) == v,
        1 <= vlq_encode(v).len() <= VLQ_BYTE_CAP,
        v < 0x8000_0000_0000_0000 ==> vlq_encode(v).len() <= 9,
        forall|j: int| 0 <= j < vlq_encode(v).len() - 1 ==> vlq_encode(v)[j] >= 128,
        vlq_encode(v)[vlq_encode(v).len() - 1] < 128,
{
    let h = (v / 128) as u64;
    lemma_vlq_cont_fold(h);
    lemma_vlq_fold_snoc(vlq_cont(h), (v % 128) as u8, 0);
    assert((((v / 128) as u64) << 7) | (((v % 128) as u8 % 128) as u64) == v) by (bit_vector);
    assert(h < vstd::arithmetic::power::pow(128, 9)) by {
        reveal_with_fuel(vstd::arithmetic::power::pow, 10);
        assert(vstd::arithmetic::power::pow(128, 9) == 0x8000_0000_0000_0000);
        assert(v / 128 < 0x8000_0000_0000_0000) by (bit_vector);
    }
    lemma_vlq_cont_props(h, 9);
    if v < 0x8000_0000_0000_0000 {
        assert(h < vstd::arithmetic::power::pow(128, 8)) by {
            reveal_with_fuel(vstd::arithmetic::power::pow, 9);
            assert(vstd::arithmetic::power::pow(128, 8) == 0x100_0000_0000_0000);
            assert(v < 0x8000_0000_0000_0000 ==> v / 128 < 0x100_0000_0000_0000) by (bit_vector);
        }
        lemma_vlq_cont_props(h, 8);
    }
}

} // verus!
