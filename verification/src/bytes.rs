//! Little-endian byte encodings of the fixed-width integers that the
//! cache's binary format and the fingerprint are built from, with the
//! facts (round trips, injectivity) that the codec proofs need.

use vstd::prelude::*;

verus! {

pub open spec fn u16_le(v: u16) -> Seq<u8> {
    seq![v as u8, (v >> 8) as u8]
}

pub open spec fn u32_le(v: u32) -> Seq<u8> {
    seq![v as u8, (v >> 8) as u8, (v >> 16) as u8, (v >> 24) as u8]
}

pub open spec fn u64_le(v: u64) -> Seq<u8> {
    seq![
        v as u8,
        (v >> 8) as u8,
        (v >> 16) as u8,
        (v >> 24) as u8,
        (v >> 32) as u8,
        (v >> 40) as u8,
        (v >> 48) as u8,
        (v >> 56) as u8,
    ]
}

/// A signed value is laid out as the little-endian bytes of its
/// two's-complement reinterpretation.
pub open spec fn i32_le(v: i32) -> Seq<u8> {
    u32_le(v as u32)
}

pub open spec fn i64_le(v: i64) -> Seq<u8> {
    u64_le(v as u64)
}

pub proof fn lemma_u16_le_injective(a: u16, b: u16)
    ensures
        u16_le(a) == u16_le(b) ==> a == b,
{
    if u16_le(a) == u16_le(b) {
        assert(u16_le(a)[0] == u16_le(b)[0]);
        assert(u16_le(a)[1] == u16_le(b)[1]);
        assert(a as u8 == b as u8 && (a >> 8) as u8 == (b >> 8) as u8 ==> a == b)
            by (bit_vector);
    }
}

pub proof fn lemma_u32_le_injective(a: u32, b: u32)
    ensures
        u32_le(a) == u32_le(b) ==> a == b,
{
    if u32_le(a) == u32_le(b) {
        assert(u32_le(a)[0] == u32_le(b)[0]);
        assert(u32_le(a)[1] == u32_le(b)[1]);
        assert(u32_le(a)[2] == u32_le(b)[2]);
        assert(u32_le(a)[3] == u32_le(b)[3]);
        assert(a as u8 == b as u8 && (a >> 8) as u8 == (b >> 8) as u8
            && (a >> 16) as u8 == (b >> 16) as u8 && (a >> 24) as u8 == (b >> 24) as u8
            ==> a == b) by (bit_vector);
    }
}

pub proof fn lemma_u64_le_injective(a: u64, b: u64)
    ensures
        u64_le(a) == u64_le(b) ==> a == b,
{
    if u64_le(a) == u64_le(b) {
        assert(u64_le(a)[0] == u64_le(b)[0]);
        assert(u64_le(a)[1] == u64_le(b)[1]);
        assert(u64_le(a)[2] == u64_le(b)[2]);
        assert(u64_le(a)[3] == u64_le(b)[3]);
        assert(u64_le(a)[4] == u64_le(b)[4]);
        assert(u64_le(a)[5] == u64_le(b)[5]);
        assert(u64_le(a)[6] == u64_le(b)[6]);
        assert(u64_le(a)[7] == u64_le(b)[7]);
        assert(a as u8 == b as u8 && (a >> 8) as u8 == (b >> 8) as u8
            && (a >> 16) as u8 == (b >> 16) as u8 && (a >> 24) as u8 == (b >> 24) as u8
            && (a >> 32) as u8 == (b >> 32) as u8 && (a >> 40) as u8 == (b >> 40) as u8
            && (a >> 48) as u8 == (b >> 48) as u8 && (a >> 56) as u8 == (b >> 56) as u8
            ==> a == b) by (bit_vector);
    }
}

pub proof fn lemma_i32_le_injective(a: i32, b: i32)
    ensures
        i32_le(a) == i32_le(b) ==> a == b,
{
    if i32_le(a) == i32_le(b) {
        lemma_u32_le_injective(a as u32, b as u32);
        assert(a as u32 == b as u32 ==> a == b) by (bit_vector);
    }
}

pub proof fn lemma_i64_le_injective(a: i64, b: i64)
    ensures
        i64_le(a) == i64_le(b) ==> a == b,
{
    if i64_le(a) == i64_le(b) {
        lemma_u64_le_injective(a as u64, b as u64);
        assert(a as u64 == b as u64 ==> a == b) by (bit_vector);
    }
}

pub fn push_u16_le(buf: &mut Vec<u8>, v: u16)
    ensures
        final(buf)@ == old(buf)@ + u16_le(v),
{
    buf.push(#[verifier::truncate] (v as u8));
    buf.push(#[verifier::truncate] ((v >> 8) as u8));
    proof {
        assert(buf@ =~= old(buf)@ + u16_le(v));
    }
}

pub fn push_u32_le(buf: &mut Vec<u8>, v: u32)
    ensures
        final(buf)@ == old(buf)@ + u32_le(v),
{
    buf.push(#[verifier::truncate] (v as u8));
    buf.push(#[verifier::truncate] ((v >> 8) as u8));
    buf.push(#[verifier::truncate] ((v >> 16) as u8));
    buf.push(#[verifier::truncate] ((v >> 24) as u8));
    proof {
        assert(buf@ =~= old(buf)@ + u32_le(v));
    }
}

pub fn push_u64_le(buf: &mut Vec<u8>, v: u64)
    ensures
        final(buf)@ == old(buf)@ + u64_le(v),
{
    buf.push(#[verifier::truncate] (v as u8));
    buf.push(#[verifier::truncate] ((v >> 8) as u8));
    buf.push(#[verifier::truncate] ((v >> 16) as u8));
    buf.push(#[verifier::truncate] ((v >> 24) as u8));
    buf.push(#[verifier::truncate] ((v >> 32) as u8));
    buf.push(#[verifier::truncate] ((v >> 40) as u8));
    buf.push(#[verifier::truncate] ((v >> 48) as u8));
    buf.push(#[verifier::truncate] ((v >> 56) as u8));
    proof {
        assert(buf@ =~= old(buf)@ + u64_le(v));
    }
}

pub fn push_i32_le(buf: &mut Vec<u8>, v: i32)
    ensures
        final(buf)@ == old(buf)@ + i32_le(v),
{
    push_u32_le(buf, #[verifier::truncate] (v as u32));
}

pub fn push_i64_le(buf: &mut Vec<u8>, v: i64)
    ensures
        final(buf)@ == old(buf)@ + i64_le(v),
{
    push_u64_le(buf, #[verifier::truncate] (v as u64));
}

pub fn read_u16_le(buf: &Vec<u8>, off: usize) -> (v: u16)
    requires
        off + 2 <= buf@.len(),
    ensures
        u16_le(v) =~= buf@.subrange(off as int, off as int + 2),
{
    let _n: usize = buf.len();
    let x0: u8 = buf[off];
    let x1: u8 = buf[off + 1];
    let v: u16 = (x0 as u16) | ((x1 as u16) << 8);
    proof {
        assert(v == (x0 as u16) | ((x1 as u16) << 8) ==> v as u8 == x0 && (v >> 8) as u8 == x1)
            by (bit_vector);
    }
    v
}

pub fn read_u32_le(buf: &Vec<u8>, off: usize) -> (v: u32)
    requires
        off + 4 <= buf@.len(),
    ensures
        u32_le(v) =~= buf@.subrange(off as int, off as int + 4),
{
    let _n: usize = buf.len();
    let x0: u8 = buf[off];
    let x1: u8 = buf[off + 1];
    let x2: u8 = buf[off + 2];
    let x3: u8 = buf[off + 3];
    let v: u32 = (x0 as u32) | ((x1 as u32) << 8) | ((x2 as u32) << 16) | ((x3 as u32) << 24);
    proof {
        assert(v == (x0 as u32) | ((x1 as u32) << 8) | ((x2 as u32) << 16) | ((x3 as u32) << 24)
            ==> v as u8 == x0 && (v >> 8) as u8 == x1 && (v >> 16) as u8 == x2
                && (v >> 24) as u8 == x3) by (bit_vector);
    }
    v
}

pub fn read_i32_le(buf: &Vec<u8>, off: usize) -> (v: i32)
    requires
        off + 4 <= buf@.len(),
    ensures
        i32_le(v) =~= buf@.subrange(off as int, off as int + 4),
{
    let u: u32 = read_u32_le(buf, off);
    let v: i32 = #[verifier::truncate] (u as i32);
    proof {
        assert(v == u as i32 ==> v as u32 == u) by (bit_vector);
    }
    v
}

} // verus!
