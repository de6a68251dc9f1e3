//! Deterministic binary encoding of a cached index set.
//!
//! Layout: a 4-byte little-endian schema version, then the entries one
//! after another. Each entry starts with a 52-byte fixed header (the two
//! length prefixes and the fixed-width fields), followed by the path
//! bytes and the content-id bytes. The framing is self-describing: the
//! decoder never needs the entry count in advance, it reads entries
//! until the input is exhausted and rejects anything that is not the
//! exact image of an encoding.

use vstd::prelude::*;

use crate::bytes::{i32_le, lemma_i32_le_injective, lemma_u16_le_injective,
    lemma_u32_le_injective, push_i32_le, push_u16_le, push_u32_le, read_i32_le, read_u16_le,
    read_u32_le, u16_le, u32_le};
use crate::index_entry::{IndexEntry, IndexEntryView, wf_entry};

verus! {

/// Bytes of one entry's fixed-width header.
pub open spec fn enc_header(e: IndexEntryView) -> Seq<u8> {
    u32_le(e.path.len() as u32) + (u32_le(e.content_id.len() as u32) + (u32_le(e.file_size)
        + (i32_le(e.ctime_secs) + (u32_le(e.ctime_nanos) + (i32_le(e.mtime_secs)
        + (u32_le(e.mtime_nanos) + (u32_le(e.dev) + (u32_le(e.ino) + (u32_le(e.mode)
        + (u32_le(e.uid) + (u32_le(e.gid) + (u16_le(e.flags) + u16_le(e.flags_extended)))))))))))))
}

/// Bytes of one entry: header, then path, then content id.
pub open spec fn enc_entry(e: IndexEntryView) -> Seq<u8> {
    enc_header(e) + e.path + e.content_id
}

/// Bytes of a sequence of entries, one after another.
pub open spec fn enc_entries(es: Seq<IndexEntryView>) -> Seq<u8>
    decreases es.len(),
{
    if es.len() == 0 {
        Seq::<u8>::empty()
    } else {
        enc_entry(es[0]) + enc_entries(es.skip(1))
    }
}

/// Bytes of a whole cached set: version stamp, then the entries.
pub open spec fn enc_set(version: u32, es: Seq<IndexEntryView>) -> Seq<u8> {
    u32_le(version) + enc_entries(es)
}

pub open spec fn wf_entries(es: Seq<IndexEntryView>) -> bool {
    forall|i: int| 0 <= i < es.len() ==> wf_entry(#[trigger] es[i])
}

pub open spec fn entry_views(es: Seq<IndexEntry>) -> Seq<IndexEntryView> {
    es.map_values(|e: IndexEntry| e@)
}

/// A decoded cache payload: the schema version the record was written
/// at, and the entries it held.
pub struct CachedIndexSet {
    pub version: u32,
    pub entries: Vec<IndexEntry>,
}

pub proof fn lemma_enc_header_len(e: IndexEntryView)
    ensures
        enc_header(e).len() == 52,
{
}

pub proof fn lemma_enc_entry_len(e: IndexEntryView)
    ensures
        enc_entry(e).len() == 52 + e.path.len() + e.content_id.len(),
{
    lemma_enc_header_len(e);
}

/// Two splits of one byte sequence at the same point are equal part
/// for part.
pub proof fn lemma_concat_peel<T>(s1: Seq<T>, t1: Seq<T>, s2: Seq<T>, t2: Seq<T>)
    requires
        s1 + t1 == s2 + t2,
        s1.len() == s2.len(),
    ensures
        s1 == s2,
        t1 == t2,
{
    assert forall|i: int| 0 <= i < s1.len() implies s1[i] == s2[i] by {
        assert((s1 + t1)[i] == s1[i]);
        assert((s2 + t2)[i] == s2[i]);
    }
    assert((s1 + t1).len() == s1.len() + t1.len());
    assert((s2 + t2).len() == s2.len() + t2.len());
    assert(t1.len() == t2.len());
    assert forall|i: int| 0 <= i < t1.len() implies t1[i] == t2[i] by {
        assert((s1 + t1)[s1.len() + i] == t1[i]);
        assert((s2 + t2)[s2.len() + i] == t2[i]);
    }
    assert(s1 =~= s2);
    assert(t1 =~= t2);
}

/// No encoded entry is a proper prefix of another: if two entry
/// encodings agree up to trailing bytes, the entries and the trailers
/// agree.
pub proof fn lemma_enc_entry_prefix_inj(
    a: IndexEntryView,
    b: IndexEntryView,
    ra: Seq<u8>,
    rb: Seq<u8>,
)
    requires
        wf_entry(a),
        wf_entry(b),
        enc_entry(a) + ra == enc_entry(b) + rb,
    ensures
        a == b,
        ra == rb,
{
    lemma_enc_header_len(a);
    lemma_enc_header_len(b);
    let ta = a.path + (a.content_id + ra);
    let tb = b.path + (b.content_id + rb);
    assert(enc_entry(a) + ra =~= enc_header(a) + ta);
    assert(enc_entry(b) + rb =~= enc_header(b) + tb);
    lemma_concat_peel(enc_header(a), ta, enc_header(b), tb);

    // Field by field through the right-nested header.
    let a3 = u32_le(a.file_size) + (i32_le(a.ctime_secs) + (u32_le(a.ctime_nanos)
        + (i32_le(a.mtime_secs) + (u32_le(a.mtime_nanos) + (u32_le(a.dev) + (u32_le(a.ino)
        + (u32_le(a.mode) + (u32_le(a.uid) + (u32_le(a.gid) + (u16_le(a.flags)
        + u16_le(a.flags_extended)))))))))));
    let b3 = u32_le(b.file_size) + (i32_le(b.ctime_secs) + (u32_le(b.ctime_nanos)
        + (i32_le(b.mtime_secs) + (u32_le(b.mtime_nanos) + (u32_le(b.dev) + (u32_le(b.ino)
        + (u32_le(b.mode) + (u32_le(b.uid) + (u32_le(b.gid) + (u16_le(b.flags)
        + u16_le(b.flags_extended)))))))))));
    lemma_concat_peel(
        u32_le(a.path.len() as u32),
        u32_le(a.content_id.len() as u32) + a3,
        u32_le(b.path.len() as u32),
        u32_le(b.content_id.len() as u32) + b3,
    );
    lemma_u32_le_injective(a.path.len() as u32, b.path.len() as u32);
    lemma_concat_peel(u32_le(a.content_id.len() as u32), a3, u32_le(b.content_id.len() as u32), b3);
    lemma_u32_le_injective(a.content_id.len() as u32, b.content_id.len() as u32);

    let a5 = i32_le(a.ctime_secs) + (u32_le(a.ctime_nanos) + (i32_le(a.mtime_secs)
        + (u32_le(a.mtime_nanos) + (u32_le(a.dev) + (u32_le(a.ino) + (u32_le(a.mode)
        + (u32_le(a.uid) + (u32_le(a.gid) + (u16_le(a.flags) + u16_le(a.flags_extended))))))))));
    let b5 = i32_le(b.ctime_secs) + (u32_le(b.ctime_nanos) + (i32_le(b.mtime_secs)
        + (u32_le(b.mtime_nanos) + (u32_le(b.dev) + (u32_le(b.ino) + (u32_le(b.mode)
        + (u32_le(b.uid) + (u32_le(b.gid) + (u16_le(b.flags) + u16_le(b.flags_extended))))))))));
    lemma_concat_peel(u32_le(a.file_size), a5, u32_le(b.file_size), b5);
    lemma_u32_le_injective(a.file_size, b.file_size);

    let a6 = u32_le(a.ctime_nanos) + (i32_le(a.mtime_secs) + (u32_le(a.mtime_nanos)
        + (u32_le(a.dev) + (u32_le(a.ino) + (u32_le(a.mode) + (u32_le(a.uid) + (u32_le(a.gid)
        + (u16_le(a.flags) + u16_le(a.flags_extended)))))))));
    let b6 = u32_le(b.ctime_nanos) + (i32_le(b.mtime_secs) + (u32_le(b.mtime_nanos)
        + (u32_le(b.dev) + (u32_le(b.ino) + (u32_le(b.mode) + (u32_le(b.uid) + (u32_le(b.gid)
        + (u16_le(b.flags) + u16_le(b.flags_extended)))))))));
    lemma_concat_peel(i32_le(a.ctime_secs), a6, i32_le(b.ctime_secs), b6);
    lemma_i32_le_injective(a.ctime_secs, b.ctime_secs);

    let a7 = i32_le(a.mtime_secs) + (u32_le(a.mtime_nanos) + (u32_le(a.dev) + (u32_le(a.ino)
        + (u32_le(a.mode) + (u32_le(a.uid) + (u32_le(a.gid) + (u16_le(a.flags)
        + u16_le(a.flags_extended))))))));
    let b7 = i32_le(b.mtime_secs) + (u32_le(b.mtime_nanos) + (u32_le(b.dev) + (u32_le(b.ino)
        + (u32_le(b.mode) + (u32_le(b.uid) + (u32_le(b.gid) + (u16_le(b.flags)
        + u16_le(b.flags_extended))))))));
    lemma_concat_peel(u32_le(a.ctime_nanos), a7, u32_le(b.ctime_nanos), b7);
    lemma_u32_le_injective(a.ctime_nanos, b.ctime_nanos);

    let a8 = u32_le(a.mtime_nanos) + (u32_le(a.dev) + (u32_le(a.ino) + (u32_le(a.mode)
        + (u32_le(a.uid) + (u32_le(a.gid) + (u16_le(a.flags) + u16_le(a.flags_extended)))))));
    let b8 = u32_le(b.mtime_nanos) + (u32_le(b.dev) + (u32_le(b.ino) + (u32_le(b.mode)
        + (u32_le(b.uid) + (u32_le(b.gid) + (u16_le(b.flags) + u16_le(b.flags_extended)))))));
    lemma_concat_peel(i32_le(a.mtime_secs), a8, i32_le(b.mtime_secs), b8);
    lemma_i32_le_injective(a.mtime_secs, b.mtime_secs);

    let a9 = u32_le(a.dev) + (u32_le(a.ino) + (u32_le(a.mode) + (u32_le(a.uid) + (u32_le(a.gid)
        + (u16_le(a.flags) + u16_le(a.flags_extended))))));
    let b9 = u32_le(b.dev) + (u32_le(b.ino) + (u32_le(b.mode) + (u32_le(b.uid) + (u32_le(b.gid)
        + (u16_le(b.flags) + u16_le(b.flags_extended))))));
    lemma_concat_peel(u32_le(a.mtime_nanos), a9, u32_le(b.mtime_nanos), b9);
    lemma_u32_le_injective(a.mtime_nanos, b.mtime_nanos);

    let a10 = u32_le(a.ino) + (u32_le(a.mode) + (u32_le(a.uid) + (u32_le(a.gid) + (u16_le(a.flags)
        + u16_le(a.flags_extended)))));
    let b10 = u32_le(b.ino) + (u32_le(b.mode) + (u32_le(b.uid) + (u32_le(b.gid) + (u16_le(b.flags)
        + u16_le(b.flags_extended)))));
    lemma_concat_peel(u32_le(a.dev), a10, u32_le(b.dev), b10);
    lemma_u32_le_injective(a.dev, b.dev);

    let a11 = u32_le(a.mode) + (u32_le(a.uid) + (u32_le(a.gid) + (u16_le(a.flags)
        + u16_le(a.flags_extended))));
    let b11 = u32_le(b.mode) + (u32_le(b.uid) + (u32_le(b.gid) + (u16_le(b.flags)
        + u16_le(b.flags_extended))));
    lemma_concat_peel(u32_le(a.ino), a11, u32_le(b.ino), b11);
    lemma_u32_le_injective(a.ino, b.ino);

    let a12 = u32_le(a.uid) + (u32_le(a.gid) + (u16_le(a.flags) + u16_le(a.flags_extended)));
    let b12 = u32_le(b.uid) + (u32_le(b.gid) + (u16_le(b.flags) + u16_le(b.flags_extended)));
    lemma_concat_peel(u32_le(a.mode), a12, u32_le(b.mode), b12);
    lemma_u32_le_injective(a.mode, b.mode);

    let a13 = u32_le(a.gid) + (u16_le(a.flags) + u16_le(a.flags_extended));
    let b13 = u32_le(b.gid) + (u16_le(b.flags) + u16_le(b.flags_extended));
    lemma_concat_peel(u32_le(a.uid), a13, u32_le(b.uid), b13);
    lemma_u32_le_injective(a.uid, b.uid);

    let a14 = u16_le(a.flags) + u16_le(a.flags_extended);
    let b14 = u16_le(b.flags) + u16_le(b.flags_extended);
    lemma_concat_peel(u32_le(a.gid), a14, u32_le(b.gid), b14);
    lemma_u32_le_injective(a.gid, b.gid);

    lemma_concat_peel(u16_le(a.flags), u16_le(a.flags_extended), u16_le(b.flags),
        u16_le(b.flags_extended));
    lemma_u16_le_injective(a.flags, b.flags);
    lemma_u16_le_injective(a.flags_extended, b.flags_extended);

    // The variable-length tail.
    lemma_concat_peel(a.path, a.content_id + ra, b.path, b.content_id + rb);
    lemma_concat_peel(a.content_id, ra, b.content_id, rb);
    assert(a =~= b);
}

/// A parsed prefix of an entry stream is forced: any entry sequence
/// whose encoding extends it starts with exactly those entries.
#[verifier::rlimit(60)]
pub proof fn lemma_enc_entries_extend(p: Seq<IndexEntryView>, rest: Seq<u8>, es: Seq<IndexEntryView>)
    requires
        wf_entries(p),
        wf_entries(es),
        enc_entries(p) + rest == enc_entries(es),
    ensures
        es.len() >= p.len(),
        es.take(p.len() as int) == p,
        enc_entries(es.skip(p.len() as int)) == rest,
    decreases p.len(),
{
    if p.len() == 0 {
        assert(enc_entries(p) + rest =~= rest);
        assert(es.take(0) =~= p);
        assert(es.skip(0) =~= es);
    } else {
        lemma_enc_entry_len(p[0]);
        if es.len() == 0 {
            assert(enc_entries(es).len() == 0);
            assert((enc_entries(p) + rest).len() >= enc_entry(p[0]).len());
            assert(false);
        }
        lemma_enc_entry_len(es[0]);
        let pr = enc_entries(p.skip(1)) + rest;
        assert(enc_entries(p) + rest =~= enc_entry(p[0]) + pr);
        assert(enc_entries(es) =~= enc_entry(es[0]) + enc_entries(es.skip(1)));
        lemma_enc_entry_prefix_inj(p[0], es[0], pr, enc_entries(es.skip(1)));
        assert(wf_entries(p.skip(1))) by {
            assert(forall|i: int| 0 <= i < p.skip(1).len() ==> #[trigger] p.skip(1)[i] == p[i + 1]);
        }
        assert(wf_entries(es.skip(1))) by {
            assert(forall|i: int|
                0 <= i < es.skip(1).len() ==> #[trigger] es.skip(1)[i] == es[i + 1]);
        }
        lemma_enc_entries_extend(p.skip(1), rest, es.skip(1));
        assert(es.take(p.len() as int) =~= p) by {
            assert(es.skip(1).take(p.len() - 1) == p.skip(1));
            assert forall|i: int| 0 <= i < p.len() implies es.take(p.len() as int)[i] == p[i] by {
                if i > 0 {
                    assert(es.skip(1).take(p.len() - 1)[i - 1] == p.skip(1)[i - 1]);
                    assert(es.skip(1)[i - 1] == es[i]);
                    assert(p.skip(1)[i - 1] == p[i]);
                }
            }
        }
        assert(es.skip(p.len() as int) =~= es.skip(1).skip(p.len() - 1));
    }
}

/// The encoding is injective: byte-identical payloads decode to the
/// same version and the same entries. Together with the decoder's
/// postcondition this is the encode/decode round trip: decoding the
/// encoding of a set yields that set, and encoding what a payload
/// decoded to reproduces the payload.
pub proof fn lemma_enc_set_injective(
    v1: u32,
    es1: Seq<IndexEntryView>,
    v2: u32,
    es2: Seq<IndexEntryView>,
)
    requires
        wf_entries(es1),
        wf_entries(es2),
        enc_set(v1, es1) == enc_set(v2, es2),
    ensures
        v1 == v2,
        es1 == es2,
{
    lemma_concat_peel(u32_le(v1), enc_entries(es1), u32_le(v2), enc_entries(es2));
    lemma_u32_le_injective(v1, v2);
    lemma_enc_entries_extend(es1, Seq::<u8>::empty(), es2);
    assert(enc_entries(es1) + Seq::<u8>::empty() =~= enc_entries(es1));
    assert(es1.len() <= es2.len());
    if es2.len() > es1.len() {
        lemma_enc_entry_len(es2.skip(es1.len() as int)[0]);
        assert(enc_entries(es2.skip(es1.len() as int)).len() > 0);
        assert(false);
    }
    assert(es2.take(es1.len() as int) =~= es2);
}

#[verifier::rlimit(60)]
pub proof fn lemma_enc_entries_snoc(es: Seq<IndexEntryView>, e: IndexEntryView)
    ensures
        enc_entries(es.push(e)) == enc_entries(es) + enc_entry(e),
    decreases es.len(),
{
    if es.len() == 0 {
        assert(es.push(e)[0] == e);
        assert(es.push(e).skip(1) =~= Seq::<IndexEntryView>::empty());
        assert(enc_entries(es.push(e)) == enc_entry(e) + enc_entries(
            Seq::<IndexEntryView>::empty()));
        assert(enc_entries(Seq::<IndexEntryView>::empty()) == Seq::<u8>::empty());
        assert(enc_entries(es) == Seq::<u8>::empty());
        assert(enc_entries(es.push(e)) =~= enc_entries(es) + enc_entry(e));
    } else {
        assert(es.push(e)[0] == es[0]);
        assert(es.push(e).skip(1) =~= es.skip(1).push(e));
        lemma_enc_entries_snoc(es.skip(1), e);
        assert(enc_entries(es.push(e)) == enc_entry(es[0]) + enc_entries(es.skip(1).push(e)));
        assert(enc_entries(es) == enc_entry(es[0]) + enc_entries(es.skip(1)));
        assert(enc_entries(es.push(e)) =~= enc_entries(es) + enc_entry(e));
    }
}

/// Appends the encoding of one entry to `buf`.
fn encode_entry_into(buf: &mut Vec<u8>, e: &IndexEntry)
    requires
        wf_entry(e@),
    ensures
        final(buf)@ == old(buf)@ + enc_entry(e@),
{
    push_u32_le(buf, e.path.len() as u32);
    push_u32_le(buf, e.content_id.len() as u32);
    push_u32_le(buf, e.file_size);
    push_i32_le(buf, e.ctime_secs);
    push_u32_le(buf, e.ctime_nanos);
    push_i32_le(buf, e.mtime_secs);
    push_u32_le(buf, e.mtime_nanos);
    push_u32_le(buf, e.dev);
    push_u32_le(buf, e.ino);
    push_u32_le(buf, e.mode);
    push_u32_le(buf, e.uid);
    push_u32_le(buf, e.gid);
    push_u16_le(buf, e.flags);
    push_u16_le(buf, e.flags_extended);
    let mut path_copy = crate::clone_bytes(&e.path);
    buf.append(&mut path_copy);
    let mut cid_copy = crate::clone_bytes(&e.content_id);
    buf.append(&mut cid_copy);
    proof {
        assert(buf@ =~= old(buf)@ + enc_entry(e@));
    }
}

/// Encodes a cached set. Deterministic by construction: the result is
/// a function of the set's value, so the same index state always
/// yields byte-identical output.
pub fn encode_index_set(s: &CachedIndexSet) -> (r: Vec<u8>)
    requires
        wf_entries(entry_views(s.entries@)),
    ensures
        r@ == enc_set(s.version, entry_views(s.entries@)),
{
    let mut buf: Vec<u8> = Vec::new();
    push_u32_le(&mut buf, s.version);
    let n = s.entries.len();
    let mut i: usize = 0;
    while i < n
        invariant
            i <= n == s.entries@.len(),
            wf_entries(entry_views(s.entries@)),
            buf@ == u32_le(s.version) + enc_entries(entry_views(s.entries@).take(i as int)),
        decreases n - i,
    {
        proof {
            assert(entry_views(s.entries@)[i as int] == s.entries@[i as int]@);
        }
        encode_entry_into(&mut buf, &s.entries[i]);
        proof {
            lemma_enc_entries_snoc(entry_views(s.entries@).take(i as int),
                s.entries@[i as int]@);
            assert(entry_views(s.entries@).take(i + 1) =~= entry_views(s.entries@).take(
                i as int).push(s.entries@[i as int]@));
            assert(buf@ =~= u32_le(s.version) + enc_entries(entry_views(s.entries@).take(i + 1)));
        }
        i = i + 1;
    }
    proof {
        assert(entry_views(s.entries@).take(n as int) =~= entry_views(s.entries@));
    }
    buf
}

/// When the two length prefixes found at `off` promise more bytes
/// than the input holds, no entry encoding starts at `off`.
#[verifier::rlimit(60)]
proof fn lemma_entry_never_fits(bytes: Seq<u8>, off: int, pl32: u32, cl32: u32)
    requires
        0 <= off,
        off + 52 <= bytes.len(),
        u32_le(pl32) == bytes.subrange(off, off + 4),
        u32_le(cl32) == bytes.subrange(off + 4, off + 8),
        off + 52 + pl32 + cl32 > bytes.len(),
    ensures
        forall|ev: IndexEntryView, end: int|
            wf_entry(ev) && off <= end <= bytes.len() ==> enc_entry(ev) != bytes.subrange(
                off, end),
{
    assert forall|ev: IndexEntryView, end: int|
        wf_entry(ev) && off <= end <= bytes.len() implies enc_entry(ev) != bytes.subrange(
        off, end) by {
        lemma_enc_entry_len(ev);
        if enc_entry(ev) == bytes.subrange(off, end) {
            let s = bytes.subrange(off, end);
            assert(s.len() == 52 + ev.path.len() + ev.content_id.len());
            assert(enc_entry(ev).subrange(0, 4) =~= u32_le(ev.path.len() as u32));
            assert(s.subrange(0, 4) =~= bytes.subrange(off, off + 4));
            assert(u32_le(ev.path.len() as u32) == u32_le(pl32));
            lemma_u32_le_injective(ev.path.len() as u32, pl32);
            assert(ev.path.len() == pl32);
            assert(enc_entry(ev).subrange(4, 8) =~= u32_le(ev.content_id.len() as u32));
            assert(s.subrange(4, 8) =~= bytes.subrange(off + 4, off + 8));
            assert(u32_le(ev.content_id.len() as u32) == u32_le(cl32));
            lemma_u32_le_injective(ev.content_id.len() as u32, cl32);
            assert(ev.content_id.len() == cl32);
            assert(end - off == 52 + pl32 + cl32);
            assert(false);
        }
    }
}

/// Reads one encoded entry starting at `off`. Returns the entry and
/// the offset just past it, or `None` when no entry encoding starts
/// there.
#[verifier::rlimit(60)]
fn decode_entry(buf: &Vec<u8>, off: usize) -> (r: Option<(IndexEntry, usize)>)
    requires
        off <= buf@.len(),
    ensures
        match r {
            Some(p) => {
                &&& off + 52 <= p.1 <= buf@.len()
                &&& wf_entry(p.0@)
                &&& enc_entry(p.0@) == buf@.subrange(off as int, p.1 as int)
            },
            None => forall|ev: IndexEntryView, end: int|
                wf_entry(ev) && off <= end <= buf@.len() ==> enc_entry(ev) != buf@.subrange(
                    off as int, end),
        },
{
    let n: usize = buf.len();
    if n - off < 52 {
        proof {
            assert forall|ev: IndexEntryView, end: int|
                wf_entry(ev) && off <= end <= buf@.len() implies enc_entry(ev) != buf@.subrange(
                off as int, end) by {
                lemma_enc_entry_len(ev);
            }
        }
        return None;
    }
    let pl32 = read_u32_le(buf, off);
    let cl32 = read_u32_le(buf, off + 4);
    let pl = pl32 as usize;
    let cl = cl32 as usize;
    let avail = n - off - 52;
    if avail < pl || avail - pl < cl {
        proof {
            lemma_entry_never_fits(buf@, off as int, pl32, cl32);
        }
        return None;
    }
    let file_size = read_u32_le(buf, off + 8);
    let ctime_secs = read_i32_le(buf, off + 12);
    let ctime_nanos = read_u32_le(buf, off + 16);
    let mtime_secs = read_i32_le(buf, off + 20);
    let mtime_nanos = read_u32_le(buf, off + 24);
    let dev = read_u32_le(buf, off + 28);
    let ino = read_u32_le(buf, off + 32);
    let mode = read_u32_le(buf, off + 36);
    let uid = read_u32_le(buf, off + 40);
    let gid = read_u32_le(buf, off + 44);
    let flags = read_u16_le(buf, off + 48);
    let flags_extended = read_u16_le(buf, off + 50);
    let path = vstd::slice::slice_to_vec(vstd::slice::slice_subrange(buf.as_slice(), off + 52,
        off + 52 + pl));
    let content_id = vstd::slice::slice_to_vec(vstd::slice::slice_subrange(buf.as_slice(),
        off + 52 + pl, off + 52 + pl + cl));
    let end = off + 52 + pl + cl;
    let e = IndexEntry {
        path,
        content_id,
        file_size,
        ctime_secs,
        ctime_nanos,
        mtime_secs,
        mtime_nanos,
        dev,
        ino,
        mode,
        uid,
        gid,
        flags,
        flags_extended,
    };
    proof {
        lemma_enc_header_len(e@);
        assert(enc_header(e@) =~= buf@.subrange(off as int, off + 52));
        assert(enc_entry(e@) =~= buf@.subrange(off as int, end as int));
    }
    Some((e, end))
}

/// When a parsed prefix fills `bytes` up to `off` and no entry
/// encoding starts at `off`, no whole set encodes to `bytes`.
#[verifier::rlimit(60)]
proof fn lemma_decode_stuck(bytes: Seq<u8>, off: int, p: Seq<IndexEntryView>)
    requires
        4 <= off < bytes.len(),
        wf_entries(p),
        enc_entries(p) == bytes.subrange(4, off),
        forall|ev: IndexEntryView, end: int|
            wf_entry(ev) && off <= end <= bytes.len() ==> enc_entry(ev) != bytes.subrange(
                off, end),
    ensures
        forall|v: u32, es: Seq<IndexEntryView>| wf_entries(es) ==> enc_set(v, es) != bytes,
{
    let n = bytes.len() as int;
    assert forall|v: u32, es: Seq<IndexEntryView>| wf_entries(es) implies enc_set(v, es)
        != bytes by {
        if enc_set(v, es) == bytes {
            assert(bytes =~= bytes.subrange(0, 4) + bytes.subrange(4, n));
            lemma_concat_peel(u32_le(v), enc_entries(es), bytes.subrange(0, 4),
                bytes.subrange(4, n));
            let rest = bytes.subrange(off, n);
            assert(bytes.subrange(4, n) =~= bytes.subrange(4, off) + rest);
            lemma_enc_entries_extend(p, rest, es);
            let k = p.len() as int;
            if es.len() == k {
                assert(enc_entries(es.skip(k)).len() == 0);
                assert(rest.len() > 0);
                assert(false);
            } else {
                let tail = es.skip(k);
                assert(wf_entry(tail[0]));
                lemma_enc_entry_len(tail[0]);
                let elen = enc_entry(tail[0]).len() as int;
                assert(enc_entries(tail) == enc_entry(tail[0]) + enc_entries(tail.skip(1)));
                assert(rest.len() == enc_entry(tail[0]).len() + enc_entries(tail.skip(1)).len());
                let end = off + elen;
                assert(end <= n);
                assert forall|i: int| 0 <= i < elen implies enc_entry(tail[0])[i]
                    == bytes.subrange(off, end)[i] by {
                    assert(enc_entries(tail)[i] == enc_entry(tail[0])[i]);
                    assert(rest[i] == bytes[off + i]);
                }
                assert(enc_entry(tail[0]) =~= bytes.subrange(off, end));
                assert(false);
            }
        }
    }
}

/// Decodes a payload. `Some` exactly when the input is byte for byte
/// the encoding of a set; the decoded set then re-encodes to the
/// input, so corrupt or truncated payloads are never accepted.
#[verifier::rlimit(60)]
pub fn decode_index_set(bytes: &Vec<u8>) -> (r: Option<CachedIndexSet>)
    ensures
        match r {
            Some(s) => {
                &&& wf_entries(entry_views(s.entries@))
                &&& enc_set(s.version, entry_views(s.entries@)) == bytes@
            },
            None => forall|v: u32, es: Seq<IndexEntryView>|
                wf_entries(es) ==> enc_set(v, es) != bytes@,
        },
{
    let n: usize = bytes.len();
    if n < 4 {
        return None;
    }
    let version = read_u32_le(bytes, 0);
    let mut entries: Vec<IndexEntry> = Vec::new();
    let mut off: usize = 4;
    while off < n
        invariant
            4 <= off <= n == bytes@.len(),
            u32_le(version) =~= bytes@.subrange(0, 4),
            wf_entries(entry_views(entries@)),
            enc_entries(entry_views(entries@)) == bytes@.subrange(4, off as int),
        decreases n - off,
    {
        match decode_entry(bytes, off) {
            None => {
                proof {
                    lemma_decode_stuck(bytes@, off as int, entry_views(entries@));
                }
                return None;
            },
            Some((e, next)) => {
                proof {
                    lemma_enc_entries_snoc(entry_views(entries@), e@);
                    assert(entry_views(entries@.push(e)) =~= entry_views(entries@).push(e@));
                    assert(enc_entries(entry_views(entries@).push(e@)) =~= bytes@.subrange(4,
                        next as int));
                }
                entries.push(e);
                off = next;
            },
        }
    }
    proof {
        assert(bytes@ =~= bytes@.subrange(0, 4) + bytes@.subrange(4, n as int));
        assert(enc_set(version, entry_views(entries@)) =~= bytes@);
    }
    Some(CachedIndexSet { version, entries })
}

} // verus!
