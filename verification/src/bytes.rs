//! Big-endian fixed-width integer fields.
//!
//! Every fixed-width field of a CAF container is big-endian. The spec
//! functions here say what integer a run of bytes denotes, and the
//! executable readers and writers are proved against them.

use vstd::prelude::*;

verus! {

/// The unsigned 32-bit big-endian integer denoted by `s[i..i+4]`.
pub open spec fn be_u32_at(s: Seq<u8>, i: int) -> int
    recommends
        0 <= i,
        i + 4 <= s.len(),
{
    (s[i] as int) * 0x100_0000 + (s[i + 1] as int) * 0x1_0000 + (s[i + 2] as int) * 0x100 + (s[i
        + 3] as int)
}

/// The unsigned 64-bit big-endian integer denoted by `s[i..i+8]`.
pub open spec fn be_u64_at(s: Seq<u8>, i: int) -> int
    recommends
        0 <= i,
        i + 8 <= s.len(),
{
    (s[i] as int) * 0x100_0000_0000_0000 + (s[i + 1] as int) * 0x1_0000_0000_0000 + (s[i
        + 2] as int) * 0x100_0000_0000 + (s[i + 3] as int) * 0x1_0000_0000 + (s[i
        + 4] as int) * 0x100_0000 + (s[i + 5] as int) * 0x1_0000 + (s[i + 6] as int) * 0x100 + (s[i
        + 7] as int)
}

/// The signed (two's complement) 64-bit big-endian integer denoted by
/// `s[i..i+8]`.
pub open spec fn be_i64_at(s: Seq<u8>, i: int) -> i64
    recommends
        0 <= i,
        i + 8 <= s.len(),
{
    be_u64_at(s, i) as u64 as i64
}

/// The signed (two's complement) 32-bit big-endian integer denoted by
/// `s[i..i+4]`.
pub open spec fn be_i32_at(s: Seq<u8>, i: int) -> i32
    recommends
        0 <= i,
        i + 4 <= s.len(),
{
    be_u32_at(s, i) as u32 as i32
}

/// Reads the big-endian u32 at `pos`.
pub fn read_be_u32(data: &Vec<u8>, pos: usize) -> (r: u32)
    requires
        pos + 4 <= data@.len(),
    ensures
        r as int == be_u32_at(data@, pos as int),
{
    let n = data.len();
    let b0 = data[pos] as u32;
    let b1 = data[pos + 1] as u32;
    let b2 = data[pos + 2] as u32;
    let b3 = data[pos + 3] as u32;
    b0 * 0x100_0000 + b1 * 0x1_0000 + b2 * 0x100 + b3
}

/// Reads the big-endian u64 at `pos`.
pub fn read_be_u64(data: &Vec<u8>, pos: usize) -> (r: u64)
    requires
        pos + 8 <= data@.len(),
    ensures
        r as int == be_u64_at(data@, pos as int),
{
    let n = data.len();
    let b0 = data[pos] as u64;
    let b1 = data[pos + 1] as u64;
    let b2 = data[pos + 2] as u64;
    let b3 = data[pos + 3] as u64;
    let b4 = data[pos + 4] as u64;
    let b5 = data[pos + 5] as u64;
    let b6 = data[pos + 6] as u64;
    let b7 = data[pos + 7] as u64;
    b0 * 0x100_0000_0000_0000 + b1 * 0x1_0000_0000_0000 + b2 * 0x100_0000_0000 + b3
        * 0x1_0000_0000 + b4 * 0x100_0000 + b5 * 0x1_0000 + b6 * 0x100 + b7
}

/// Reads the big-endian two's complement i64 at `pos`.
pub fn read_be_i64(data: &Vec<u8>, pos: usize) -> (r: i64)
    requires
        pos + 8 <= data@.len(),
    ensures
        r == be_i64_at(data@, pos as int),
{
    read_be_u64(data, pos) as i64
}

/// Reads the big-endian two's complement i32 at `pos`.
pub fn read_be_i32(data: &Vec<u8>, pos: usize) -> (r: i32)
    requires
        pos + 4 <= data@.len(),
    ensures
        r == be_i32_at(data@, pos as int),
{
    read_be_u32(data, pos) as i32
}

/// The four big-endian bytes of `v`.
pub open spec fn be_u32_bytes(v: u32) -> Seq<u8> {
    seq![
        (v / 0x100_0000) as u8,
        ((v / 0x1_0000) % 0x100) as u8,
        ((v / 0x100) % 0x100) as u8,
        (v % 0x100) as u8,
    ]
}

/// The eight big-endian bytes of `v`.
pub open spec fn be_u64_bytes(v: u64) -> Seq<u8> {
    seq![
        (v / 0x100_0000_0000_0000) as u8,
        ((v / 0x1_0000_0000_0000) % 0x100) as u8,
        ((v / 0x100_0000_0000) % 0x100) as u8,
        ((v / 0x1_0000_0000) % 0x100) as u8,
        ((v / 0x100_0000) % 0x100) as u8,
        ((v / 0x1_0000) % 0x100) as u8,
        ((v / 0x100) % 0x100) as u8,
        (v % 0x100) as u8,
    ]
}

/// Appends the four big-endian bytes of `v`.
pub fn push_be_u32(out: &mut Vec<u8>, v: u32)
    ensures
        final (out)@ == old(out)@ + be_u32_bytes(v),
{
    out.push((v / 0x100_0000) as u8);
    out.push(((v / 0x1_0000) % 0x100) as u8);
    out.push(((v / 0x100) % 0x100) as u8);
    out.push((v % 0x100) as u8);
    proof {
        assert(final (out)@ =~= old(out)@ + be_u32_bytes(v));
    }
}

/// Appends the eight big-endian bytes of `v`.
pub fn push_be_u64(out: &mut Vec<u8>, v: u64)
    ensures
        final (out)@ == old(out)@ + be_u64_bytes(v),
{
    out.push((v / 0x100_0000_0000_0000) as u8);
    out.push(((v / 0x1_0000_0000_0000) % 0x100) as u8);
    out.push(((v / 0x100_0000_0000) % 0x100) as u8);
    out.push(((v / 0x1_0000_0000) % 0x100) as u8);
    out.push(((v / 0x100_0000) % 0x100) as u8);
    out.push(((v / 0x1_0000) % 0x100) as u8);
    out.push(((v / 0x100) % 0x100) as u8);
    out.push((v % 0x100) as u8);
    proof {
        assert(final (out)@ =~= old(out)@ + be_u64_bytes(v));
    }
}

/// Reading the four bytes written for `v` gives `v` back.
pub proof fn lemma_be_u32_round_trip(v: u32)
    ensures
        be_u32_bytes(v).len() == 4,
        be_u32_at(be_u32_bytes(v), 0) == v,
{
    assert(((v / 0x100_0000) as u8) as int * 0x100_0000 + (((v / 0x1_0000) % 0x100) as u8) as int
        * 0x1_0000 + (((v / 0x100) % 0x100) as u8) as int * 0x100 + ((v % 0x100) as u8) as int
        == v) by (bit_vector);
}

/// Reading the eight bytes written for `v` gives `v` back.
pub proof fn lemma_be_u64_round_trip(v: u64)
    ensures
        be_u64_bytes(v).len() == 8,
        be_u64_at(be_u64_bytes(v), 0) == v,
{
    assert(((v / 0x100_0000_0000_0000) as u8) as int * 0x100_0000_0000_0000 + (((v
        / 0x1_0000_0000_0000) % 0x100) as u8) as int * 0x1_0000_0000_0000 + (((v
        / 0x100_0000_0000) % 0x100) as u8) as int * 0x100_0000_0000 + (((v / 0x1_0000_0000)
        % 0x100) as u8) as int * 0x1_0000_0000 + (((v / 0x100_0000) % 0x100) as u8) as int
        * 0x100_0000 + (((v / 0x1_0000) % 0x100) as u8) as int * 0x1_0000 + (((v / 0x100)
        % 0x100) as u8) as int * 0x100 + ((v % 0x100) as u8) as int == v) by (bit_vector);
}

} // verus!
