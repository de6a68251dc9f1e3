//! Repository-state fingerprinting for the index cache.
//!
//! The cache key is derived from the repository's root path together
//! with the on-disk index file's modification time and size: state
//! that changes exactly when the staged index changes. The derivation
//! is injective, so an unchanged index always maps to the same key and
//! any change of the observed stat values maps to a different one.
//! (Equal fingerprints are a trust boundary, not a cryptographic
//! guarantee: a clock rollback that restores an earlier mtime and size
//! can produce a stale hit.)

use vstd::prelude::*;

use crate::bytes::{i64_le, lemma_i64_le_injective, lemma_u32_le_injective, lemma_u64_le_injective,
    push_i64_le, push_u32_le, push_u64_le, u32_le, u64_le};
use crate::codec::lemma_concat_peel;

verus! {

/// The stat fields of the on-disk index file that the fingerprint
/// summarizes. Callers obtain them from the filesystem and hand them
/// in as plain values.
pub struct IndexStat {
    pub mtime_secs: i64,
    pub mtime_nanos: u32,
    pub size: u64,
}

pub open spec fn hex_digit(d: int) -> char {
    if d == 0 { '0' }
    else if d == 1 { '1' }
    else if d == 2 { '2' }
    else if d == 3 { '3' }
    else if d == 4 { '4' }
    else if d == 5 { '5' }
    else if d == 6 { '6' }
    else if d == 7 { '7' }
    else if d == 8 { '8' }
    else if d == 9 { '9' }
    else if d == 10 { 'a' }
    else if d == 11 { 'b' }
    else if d == 12 { 'c' }
    else if d == 13 { 'd' }
    else if d == 14 { 'e' }
    else { 'f' }
}

pub open spec fn hex_byte(b: u8) -> Seq<char> {
    seq![hex_digit(b as int / 16), hex_digit(b as int % 16)]
}

pub open spec fn hex_bytes(bs: Seq<u8>) -> Seq<char>
    decreases bs.len(),
{
    if bs.len() == 0 {
        Seq::<char>::empty()
    } else {
        hex_byte(bs[0]) + hex_bytes(bs.skip(1))
    }
}

/// The raw material of the key: path bytes, then the three stat
/// fields at fixed widths. The fixed-width tail makes the layout
/// injective without a length prefix.
pub open spec fn fingerprint_bytes(path: Seq<u8>, st: IndexStat) -> Seq<u8> {
    path + i64_le(st.mtime_secs) + u32_le(st.mtime_nanos) + u64_le(st.size)
}

/// The cache key: the raw fingerprint rendered in lowercase hex.
pub open spec fn key_spec(path: Seq<u8>, st: IndexStat) -> Seq<char> {
    hex_bytes(fingerprint_bytes(path, st))
}

proof fn lemma_hex_digit_injective(x: int, y: int)
    requires
        0 <= x < 16,
        0 <= y < 16,
        hex_digit(x) == hex_digit(y),
    ensures
        x == y,
{
}

pub proof fn lemma_hex_bytes_len(bs: Seq<u8>)
    ensures
        hex_bytes(bs).len() == 2 * bs.len(),
    decreases bs.len(),
{
    if bs.len() > 0 {
        lemma_hex_bytes_len(bs.skip(1));
    }
}

/// Hex rendering loses nothing: two byte sequences with the same
/// rendering are equal.
pub proof fn lemma_hex_bytes_injective(a: Seq<u8>, b: Seq<u8>)
    requires
        hex_bytes(a) == hex_bytes(b),
    ensures
        a == b,
    decreases a.len(),
{
    lemma_hex_bytes_len(a);
    lemma_hex_bytes_len(b);
    if a.len() == 0 {
        assert(a =~= b);
    } else {
        lemma_concat_peel(hex_byte(a[0]), hex_bytes(a.skip(1)), hex_byte(b[0]),
            hex_bytes(b.skip(1)));
        lemma_hex_digit_injective(a[0] as int / 16, b[0] as int / 16);
        lemma_hex_digit_injective(a[0] as int % 16, b[0] as int % 16);
        assert(a[0] == b[0]);
        lemma_hex_bytes_injective(a.skip(1), b.skip(1));
        assert forall|i: int| 0 <= i < a.len() implies a[i] == b[i] by {
            if i > 0 {
                assert(a.skip(1)[i - 1] == a[i]);
                assert(b.skip(1)[i - 1] == b[i]);
            }
        }
        assert(a =~= b);
    }
}

/// Fingerprint stability and sensitivity: re-fingerprinting an
/// unchanged index yields the same key (the key is a function of the
/// inputs), and a change of the path or of any observed stat field
/// yields a different key.
pub proof fn lemma_cache_key_injective(p1: Seq<u8>, st1: IndexStat, p2: Seq<u8>, st2: IndexStat)
    requires
        key_spec(p1, st1) == key_spec(p2, st2),
    ensures
        p1 == p2,
        st1.mtime_secs == st2.mtime_secs,
        st1.mtime_nanos == st2.mtime_nanos,
        st1.size == st2.size,
{
    lemma_hex_bytes_injective(fingerprint_bytes(p1, st1), fingerprint_bytes(p2, st2));
    let t1 = i64_le(st1.mtime_secs) + u32_le(st1.mtime_nanos) + u64_le(st1.size);
    let t2 = i64_le(st2.mtime_secs) + u32_le(st2.mtime_nanos) + u64_le(st2.size);
    assert(fingerprint_bytes(p1, st1) =~= p1 + t1);
    assert(fingerprint_bytes(p2, st2) =~= p2 + t2);
    assert(p1.len() == p2.len());
    lemma_concat_peel(p1, t1, p2, t2);
    assert(t1 =~= i64_le(st1.mtime_secs) + (u32_le(st1.mtime_nanos) + u64_le(st1.size)));
    assert(t2 =~= i64_le(st2.mtime_secs) + (u32_le(st2.mtime_nanos) + u64_le(st2.size)));
    lemma_concat_peel(i64_le(st1.mtime_secs), u32_le(st1.mtime_nanos) + u64_le(st1.size),
        i64_le(st2.mtime_secs), u32_le(st2.mtime_nanos) + u64_le(st2.size));
    lemma_i64_le_injective(st1.mtime_secs, st2.mtime_secs);
    lemma_concat_peel(u32_le(st1.mtime_nanos), u64_le(st1.size), u32_le(st2.mtime_nanos),
        u64_le(st2.size));
    lemma_u32_le_injective(st1.mtime_nanos, st2.mtime_nanos);
    lemma_u64_le_injective(st1.size, st2.size);
}

proof fn lemma_hex_bytes_snoc(bs: Seq<u8>, b: u8)
    ensures
        hex_bytes(bs.push(b)) == hex_bytes(bs) + hex_byte(b),
    decreases bs.len(),
{
    if bs.len() == 0 {
        assert(bs.push(b)[0] == b);
        assert(bs.push(b).skip(1) =~= Seq::<u8>::empty());
        assert(hex_bytes(Seq::<u8>::empty()) == Seq::<char>::empty());
        assert(hex_bytes(bs) == Seq::<char>::empty());
        assert(hex_bytes(bs.push(b)) =~= hex_bytes(bs) + hex_byte(b));
    } else {
        assert(bs.push(b)[0] == bs[0]);
        assert(bs.push(b).skip(1) =~= bs.skip(1).push(b));
        lemma_hex_bytes_snoc(bs.skip(1), b);
        assert(hex_bytes(bs.push(b)) == hex_byte(bs[0]) + hex_bytes(bs.skip(1).push(b)));
        assert(hex_bytes(bs) == hex_byte(bs[0]) + hex_bytes(bs.skip(1)));
        assert(hex_bytes(bs.push(b)) =~= hex_bytes(bs) + hex_byte(b));
    }
}

/// One lowercase hex digit as a string slice.
fn digit_str(d: u8) -> (s: &'static str)
    requires
        d < 16,
    ensures
        s@ == seq![hex_digit(d as int)],
{
    let s = match d {
        0 => "0",
        1 => "1",
        2 => "2",
        3 => "3",
        4 => "4",
        5 => "5",
        6 => "6",
        7 => "7",
        8 => "8",
        9 => "9",
        10 => "a",
        11 => "b",
        12 => "c",
        13 => "d",
        14 => "e",
        _ => "f",
    };
    proof {
        reveal_strlit("0");
        reveal_strlit("1");
        reveal_strlit("2");
        reveal_strlit("3");
        reveal_strlit("4");
        reveal_strlit("5");
        reveal_strlit("6");
        reveal_strlit("7");
        reveal_strlit("8");
        reveal_strlit("9");
        reveal_strlit("a");
        reveal_strlit("b");
        reveal_strlit("c");
        reveal_strlit("d");
        reveal_strlit("e");
        reveal_strlit("f");
        assert(s@ =~= seq![hex_digit(d as int)]);
    }
    s
}

/// Renders bytes as lowercase hex, two digits per byte.
fn hex_string(bs: &Vec<u8>) -> (out: String)
    ensures
        out@ == hex_bytes(bs@),
{
    let mut out = String::new();
    let n = bs.len();
    let mut i: usize = 0;
    while i < n
        invariant
            i <= n == bs@.len(),
            out@ == hex_bytes(bs@.take(i as int)),
        decreases n - i,
    {
        let b = bs[i];
        out.append(digit_str(b / 16));
        out.append(digit_str(b % 16));
        proof {
            lemma_hex_bytes_snoc(bs@.take(i as int), b);
            assert(bs@.take(i + 1) =~= bs@.take(i as int).push(b));
            assert(out@ =~= hex_bytes(bs@.take(i + 1)));
        }
        i = i + 1;
    }
    proof {
        assert(bs@.take(n as int) =~= bs@);
    }
    out
}

/// Derives the cache key for a repository from its root path and the
/// observed stat of its index file. Deterministic and injective: see
/// `lemma_cache_key_injective`.
pub fn cache_key(repo_path: &Vec<u8>, stat: &IndexStat) -> (key: String)
    ensures
        key@ == key_spec(repo_path@, *stat),
{
    let mut raw = crate::clone_bytes(repo_path);
    push_i64_le(&mut raw, stat.mtime_secs);
    push_u32_le(&mut raw, stat.mtime_nanos);
    push_u64_le(&mut raw, stat.size);
    proof {
        assert(raw@ =~= fingerprint_bytes(repo_path@, *stat));
    }
    hex_string(&raw)
}

} // verus!
