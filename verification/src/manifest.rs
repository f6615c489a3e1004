//! The manifest: a text file listing the current tables, one per line,
//! oldest first. A line holds six space-separated fields — storage path,
//! index path, smallest key, largest key, entry count, storage size — and
//! ends with a line feed. Keys and paths holding spaces or control bytes
//! cannot be carried by this format, which is why the store refuses them.

use vstd::prelude::*;

use crate::keys::valid_key;
use crate::numbers::{dec_str, lemma_dec_str_shape, parse_decimal, to_decimal};
use crate::record::append_bytes;
use crate::sstable::table::SSTableV;
use crate::sstable::SSTable;

verus! {

/// Views of a descriptor list.
pub open spec fn descs_view(s: Seq<SSTable>) -> Seq<SSTableV> {
    s.map_values(|d: SSTable| d@)
}

/// Whether a descriptor's fields can be carried by the line format.
pub open spec fn desc_ok(d: SSTableV) -> bool {
    &&& valid_key(d.storage_path)
    &&& valid_key(d.index_path)
    &&& valid_key(d.min)
    &&& valid_key(d.max)
    &&& 0 <= d.count <= usize::MAX
    &&& 0 <= d.size <= usize::MAX
}

pub open spec fn descs_ok(ds: Seq<SSTableV>) -> bool {
    forall|i: int| 0 <= i < ds.len() ==> desc_ok(#[trigger] ds[i])
}

/// One descriptor as a manifest line, without the terminating line feed.
pub open spec fn desc_line(d: SSTableV) -> Seq<u8> {
    d.storage_path + seq![32u8] + d.index_path + seq![32u8] + d.min + seq![32u8] + d.max
        + seq![32u8] + dec_str(d.count) + seq![32u8] + dec_str(d.size)
}

/// The manifest text of a descriptor list.
pub open spec fn manifest_rep(ds: Seq<SSTableV>) -> Seq<u8>
    decreases ds.len(),
{
    if ds.len() == 0 {
        Seq::empty()
    } else {
        desc_line(ds[0]) + seq![10u8] + manifest_rep(ds.skip(1))
    }
}

/// Appending one descriptor appends its line.
pub proof fn lemma_manifest_rep_snoc(ds: Seq<SSTableV>, d: SSTableV)
    ensures
        manifest_rep(ds.push(d)) == manifest_rep(ds) + desc_line(d) + seq![10u8],
    decreases ds.len(),
{
    let ext = ds.push(d);
    if ds.len() == 0 {
        assert(ext[0] == d);
        assert(ext.skip(1) =~= Seq::<SSTableV>::empty());
        assert(manifest_rep(ext.skip(1)) =~= Seq::<u8>::empty());
        assert(manifest_rep(ext) =~= manifest_rep(ds) + desc_line(d) + seq![10u8]);
    } else {
        assert(ext[0] == ds[0]);
        assert(ext.skip(1) =~= ds.skip(1).push(d));
        lemma_manifest_rep_snoc(ds.skip(1), d);
        assert(manifest_rep(ext) =~= manifest_rep(ds) + desc_line(d) + seq![10u8]);
    }
}

/// Writes the manifest text for a descriptor list.
pub fn format_manifest(descs: &Vec<SSTable>) -> (r: Vec<u8>)
    requires
        descs_ok(descs_view(descs@)),
    ensures
        r@ == manifest_rep(descs_view(descs@)),
{
    let ghost dv = descs_view(descs@);
    let mut out: Vec<u8> = Vec::new();
    let mut i: usize = 0;
    proof {
        assert(dv.take(0) =~= Seq::<SSTableV>::empty());
    }
    while i < descs.len()
        invariant
            i <= descs@.len(),
            dv == descs_view(descs@),
            descs_ok(dv),
            out@ == manifest_rep(dv.take(i as int)),
        decreases descs@.len() - i,
    {
        let d = &descs[i];
        proof {
            assert(dv[i as int] == d@);
            assert(desc_ok(dv[i as int]));
        }
        let ghost prior = out@;
        append_bytes(&mut out, &d.storage_path);
        out.push(32);
        append_bytes(&mut out, &d.index_path);
        out.push(32);
        append_bytes(&mut out, &d.min);
        out.push(32);
        append_bytes(&mut out, &d.max);
        out.push(32);
        let cd = to_decimal(d.count as u64);
        append_bytes(&mut out, &cd);
        out.push(32);
        let sd = to_decimal(d.size as u64);
        append_bytes(&mut out, &sd);
        out.push(10);
        proof {
            assert(out@ =~= prior + desc_line(d@) + seq![10u8]);
            lemma_manifest_rep_snoc(dv.take(i as int), dv[i as int]);
            assert(dv.take(i + 1 as int) =~= dv.take(i as int).push(dv[i as int]));
        }
        i = i + 1;
    }
    proof {
        assert(dv.take(descs@.len() as int) =~= dv);
    }
    out
}

/// Reads the maximal run of field bytes — everything above the ASCII
/// space — starting at `pos`.
fn read_token(text: &Vec<u8>, pos: usize) -> (r: (Vec<u8>, usize))
    requires
        pos <= text@.len(),
    ensures
        pos <= r.1 <= text@.len(),
        r.0@ == text@.subrange(pos as int, r.1 as int),
        forall|t: int| pos <= t < r.1 ==> text@[t] > 32,
        r.1 < text@.len() ==> text@[r.1 as int] <= 32,
{
    let mut j: usize = pos;
    let mut tok: Vec<u8> = Vec::new();
    while j < text.len() && text[j] > 32
        invariant
            pos <= j <= text@.len(),
            tok@ == text@.subrange(pos as int, j as int),
            forall|t: int| pos <= t < j ==> text@[t] > 32,
        decreases text@.len() - j,
    {
        tok.push(text[j]);
        proof {
            assert(text@.subrange(pos as int, j + 1 as int) =~= text@.subrange(
                pos as int,
                j as int,
            ).push(text@[j as int]));
        }
        j = j + 1;
    }
    (tok, j)
}

/// Where each field of a line starts and stops, when the text from `pos`
/// on is the line of `d` followed by the rest of the manifest.
pub proof fn lemma_line_head(text: Seq<u8>, pos: int, d: SSTableV, rest: Seq<u8>)
    requires
        desc_ok(d),
        0 <= pos <= text.len(),
        text.skip(pos) == desc_line(d) + seq![10u8] + rest,
    ensures
        ({
            let q1 = pos + d.storage_path.len();
            let q2 = q1 + 1 + d.index_path.len();
            let q3 = q2 + 1 + d.min.len();
            let q4 = q3 + 1 + d.max.len();
            let q5 = q4 + 1 + dec_str(d.count).len();
            let q6 = q5 + 1 + dec_str(d.size).len();
            &&& q6 + 1 <= text.len()
            &&& text.subrange(pos, q1) == d.storage_path
            &&& text.subrange(q1 + 1, q2) == d.index_path
            &&& text.subrange(q2 + 1, q3) == d.min
            &&& text.subrange(q3 + 1, q4) == d.max
            &&& text.subrange(q4 + 1, q5) == dec_str(d.count)
            &&& text.subrange(q5 + 1, q6) == dec_str(d.size)
            &&& text[q1] == 32 && text[q2] == 32 && text[q3] == 32 && text[q4] == 32 && text[q5]
                == 32
            &&& text[q6] == 10
            &&& text.skip(q6 + 1) == rest
        }),
{
    let sp = d.storage_path;
    let ip = d.index_path;
    let mn = d.min;
    let mx = d.max;
    let c5 = dec_str(d.count);
    let c6 = dec_str(d.size);
    let s32 = seq![32u8];
    let p1 = sp + s32;
    let p2 = p1 + ip;
    let p3 = p2 + s32;
    let p4 = p3 + mn;
    let p5 = p4 + s32;
    let p6 = p5 + mx;
    let p7 = p6 + s32;
    let p8 = p7 + c5;
    let p9 = p8 + s32;
    let line = p9 + c6;
    assert(line == desc_line(d));
    let suf = text.skip(pos);
    assert(suf.len() == line.len() + 1 + rest.len());
    assert forall|t: int| 0 <= t < suf.len() implies suf[t] == text[pos + t] by {}
    assert forall|t: int| 0 <= t < line.len() implies text[pos + t] == line[t] by {
        assert(suf[t] == (line + seq![10u8] + rest)[t]);
    }
    assert(text[pos + line.len()] == 10) by {
        assert(suf[line.len() as int] == (line + seq![10u8] + rest)[line.len() as int]);
        assert((line + seq![10u8])[line.len() as int] == 10u8);
    }
    assert forall|t: int| 0 <= t < rest.len() implies text[pos + line.len() + 1 + t] == rest[t]
        by {
        assert(suf[line.len() + 1 + t] == (line + seq![10u8] + rest)[line.len() + 1 + t]);
    }
    // peel the concatenation, left to right
    assert forall|t: int| 0 <= t < p9.len() implies line[t] == p9[t] by {}
    assert forall|t: int| 0 <= t < p8.len() implies p9[t] == p8[t] by {}
    assert forall|t: int| 0 <= t < p7.len() implies p8[t] == p7[t] by {}
    assert forall|t: int| 0 <= t < p6.len() implies p7[t] == p6[t] by {}
    assert forall|t: int| 0 <= t < p5.len() implies p6[t] == p5[t] by {}
    assert forall|t: int| 0 <= t < p4.len() implies p5[t] == p4[t] by {}
    assert forall|t: int| 0 <= t < p3.len() implies p4[t] == p3[t] by {}
    assert forall|t: int| 0 <= t < p2.len() implies p3[t] == p2[t] by {}
    assert forall|t: int| 0 <= t < p1.len() implies p2[t] == p1[t] by {}
    let q1 = pos + sp.len();
    let q2 = q1 + 1 + ip.len();
    let q3 = q2 + 1 + mn.len();
    let q4 = q3 + 1 + mx.len();
    let q5 = q4 + 1 + c5.len();
    let q6 = q5 + 1 + c6.len();
    assert forall|t: int| 0 <= t < sp.len() implies text[pos + t] == sp[t] by {
        assert(line[t] == p9[t] && p9[t] == p8[t] && p8[t] == p7[t] && p7[t] == p6[t] && p6[t]
            == p5[t] && p5[t] == p4[t] && p4[t] == p3[t] && p3[t] == p2[t] && p2[t] == p1[t]);
        assert(p1[t] == sp[t]);
    }
    assert(text.subrange(pos, q1) =~= sp);
    assert(text[q1] == 32) by {
        let t = sp.len() as int;
        assert(line[t] == p9[t] && p9[t] == p8[t] && p8[t] == p7[t] && p7[t] == p6[t] && p6[t]
            == p5[t] && p5[t] == p4[t] && p4[t] == p3[t] && p3[t] == p2[t] && p2[t] == p1[t]);
        assert(p1[t] == 32);
    }
    assert forall|t: int| 0 <= t < ip.len() implies text[q1 + 1 + t] == ip[t] by {
        let u = p1.len() + t;
        assert(line[u] == p9[u] && p9[u] == p8[u] && p8[u] == p7[u] && p7[u] == p6[u] && p6[u]
            == p5[u] && p5[u] == p4[u] && p4[u] == p3[u] && p3[u] == p2[u]);
        assert(p2[u] == ip[t]);
    }
    assert(text.subrange(q1 + 1, q2) =~= ip);
    assert(text[q2] == 32) by {
        let u = p2.len() as int;
        assert(line[u] == p9[u] && p9[u] == p8[u] && p8[u] == p7[u] && p7[u] == p6[u] && p6[u]
            == p5[u] && p5[u] == p4[u] && p4[u] == p3[u]);
        assert(p3[u] == 32);
    }
    assert forall|t: int| 0 <= t < mn.len() implies text[q2 + 1 + t] == mn[t] by {
        let u = p3.len() + t;
        assert(line[u] == p9[u] && p9[u] == p8[u] && p8[u] == p7[u] && p7[u] == p6[u] && p6[u]
            == p5[u] && p5[u] == p4[u]);
        assert(p4[u] == mn[t]);
    }
    assert(text.subrange(q2 + 1, q3) =~= mn);
    assert(text[q3] == 32) by {
        let u = p4.len() as int;
        assert(line[u] == p9[u] && p9[u] == p8[u] && p8[u] == p7[u] && p7[u] == p6[u] && p6[u]
            == p5[u]);
        assert(p5[u] == 32);
    }
    assert forall|t: int| 0 <= t < mx.len() implies text[q3 + 1 + t] == mx[t] by {
        let u = p5.len() + t;
        assert(line[u] == p9[u] && p9[u] == p8[u] && p8[u] == p7[u] && p7[u] == p6[u]);
        assert(p6[u] == mx[t]);
    }
    assert(text.subrange(q3 + 1, q4) =~= mx);
    assert(text[q4] == 32) by {
        let u = p6.len() as int;
        assert(line[u] == p9[u] && p9[u] == p8[u] && p8[u] == p7[u]);
        assert(p7[u] == 32);
    }
    assert forall|t: int| 0 <= t < c5.len() implies text[q4 + 1 + t] == c5[t] by {
        let u = p7.len() + t;
        assert(line[u] == p9[u] && p9[u] == p8[u]);
        assert(p8[u] == c5[t]);
    }
    assert(text.subrange(q4 + 1, q5) =~= c5);
    assert(text[q5] == 32) by {
        let u = p8.len() as int;
        assert(line[u] == p9[u]);
        assert(p9[u] == 32);
    }
    assert forall|t: int| 0 <= t < c6.len() implies text[q5 + 1 + t] == c6[t] by {
        let u = p9.len() + t;
        assert(line[u] == c6[t]);
    }
    assert(text.subrange(q5 + 1, q6) =~= c6);
    assert(q6 == pos + line.len());
    assert(text[q6] == 10);
    assert(text.skip(q6 + 1) =~= rest);
}

/// A maximal field run stops exactly at the separator that follows it.
proof fn lemma_token_pin(text: Seq<u8>, pos: int, tok: Seq<u8>, r1: int)
    requires
        0 <= pos,
        pos + tok.len() < text.len(),
        text.subrange(pos, pos + tok.len()) == tok,
        forall|t: int| 0 <= t < tok.len() ==> tok[t] > 32,
        text[pos + tok.len()] <= 32,
        pos <= r1 <= text.len(),
        forall|t: int| pos <= t < r1 ==> text[t] > 32,
        r1 < text.len() ==> text[r1] <= 32,
    ensures
        r1 == pos + tok.len(),
{
    if r1 < pos + tok.len() {
        assert(tok[r1 - pos] == text.subrange(pos, pos + tok.len())[r1 - pos]);
        assert(text[r1] > 32);
    }
    if r1 > pos + tok.len() {
        assert(text[pos + tok.len()] > 32);
    }
}

/// Six fields at their places assemble back into a line: the converse of
/// `lemma_line_head`.
proof fn lemma_line_assemble(text: Seq<u8>, pos: int, d: SSTableV)
    requires
        0 <= pos,
        ({
            let q1 = pos + d.storage_path.len();
            let q2 = q1 + 1 + d.index_path.len();
            let q3 = q2 + 1 + d.min.len();
            let q4 = q3 + 1 + d.max.len();
            let q5 = q4 + 1 + dec_str(d.count).len();
            let q6 = q5 + 1 + dec_str(d.size).len();
            &&& q6 + 1 <= text.len()
            &&& text.subrange(pos, q1) == d.storage_path
            &&& text.subrange(q1 + 1, q2) == d.index_path
            &&& text.subrange(q2 + 1, q3) == d.min
            &&& text.subrange(q3 + 1, q4) == d.max
            &&& text.subrange(q4 + 1, q5) == dec_str(d.count)
            &&& text.subrange(q5 + 1, q6) == dec_str(d.size)
            &&& text[q1] == 32 && text[q2] == 32 && text[q3] == 32 && text[q4] == 32 && text[q5]
                == 32
            &&& text[q6] == 10
        }),
    ensures
        ({
            let q6 = pos + desc_line(d).len();
            text.subrange(pos, q6 + 1) == desc_line(d) + seq![10u8]
        }),
{
    let sp = d.storage_path;
    let ip = d.index_path;
    let mn = d.min;
    let mx = d.max;
    let c5 = dec_str(d.count);
    let c6 = dec_str(d.size);
    let s32 = seq![32u8];
    let p1 = sp + s32;
    let p2 = p1 + ip;
    let p3 = p2 + s32;
    let p4 = p3 + mn;
    let p5 = p4 + s32;
    let p6 = p5 + mx;
    let p7 = p6 + s32;
    let p8 = p7 + c5;
    let p9 = p8 + s32;
    let line = p9 + c6;
    assert(line == desc_line(d));
    let q1 = pos + sp.len();
    let q2 = q1 + 1 + ip.len();
    let q3 = q2 + 1 + mn.len();
    let q4 = q3 + 1 + mx.len();
    let q5 = q4 + 1 + c5.len();
    let q6 = q5 + 1 + c6.len();
    assert(q6 == pos + line.len());
    assert forall|t: int| 0 <= t < line.len() + 1 implies text.subrange(pos, q6 + 1)[t] == (line
        + seq![10u8])[t] by {
        assert(text.subrange(pos, q6 + 1)[t] == text[pos + t]);
        if t < sp.len() {
            assert(text[pos + t] == text.subrange(pos, q1)[t]);
            assert(line[t] == p9[t] && p9[t] == p8[t] && p8[t] == p7[t] && p7[t] == p6[t] && p6[t]
                == p5[t] && p5[t] == p4[t] && p4[t] == p3[t] && p3[t] == p2[t] && p2[t] == p1[t]);
            assert(p1[t] == sp[t]);
        } else if t == sp.len() {
            assert(line[t] == p9[t] && p9[t] == p8[t] && p8[t] == p7[t] && p7[t] == p6[t] && p6[t]
                == p5[t] && p5[t] == p4[t] && p4[t] == p3[t] && p3[t] == p2[t] && p2[t] == p1[t]);
            assert(p1[t] == 32);
        } else if t < p2.len() {
            assert(text[pos + t] == text.subrange(q1 + 1, q2)[t - p1.len()]);
            assert(line[t] == p9[t] && p9[t] == p8[t] && p8[t] == p7[t] && p7[t] == p6[t] && p6[t]
                == p5[t] && p5[t] == p4[t] && p4[t] == p3[t] && p3[t] == p2[t]);
            assert(p2[t] == ip[t - p1.len()]);
        } else if t == p2.len() {
            assert(line[t] == p9[t] && p9[t] == p8[t] && p8[t] == p7[t] && p7[t] == p6[t] && p6[t]
                == p5[t] && p5[t] == p4[t] && p4[t] == p3[t]);
            assert(p3[t] == 32);
        } else if t < p4.len() {
            assert(text[pos + t] == text.subrange(q2 + 1, q3)[t - p3.len()]);
            assert(line[t] == p9[t] && p9[t] == p8[t] && p8[t] == p7[t] && p7[t] == p6[t] && p6[t]
                == p5[t] && p5[t] == p4[t]);
            assert(p4[t] == mn[t - p3.len()]);
        } else if t == p4.len() {
            assert(line[t] == p9[t] && p9[t] == p8[t] && p8[t] == p7[t] && p7[t] == p6[t] && p6[t]
                == p5[t]);
            assert(p5[t] == 32);
        } else if t < p6.len() {
            assert(text[pos + t] == text.subrange(q3 + 1, q4)[t - p5.len()]);
            assert(line[t] == p9[t] && p9[t] == p8[t] && p8[t] == p7[t] && p7[t] == p6[t]);
            assert(p6[t] == mx[t - p5.len()]);
        } else if t == p6.len() {
            assert(line[t] == p9[t] && p9[t] == p8[t] && p8[t] == p7[t]);
            assert(p7[t] == 32);
        } else if t < p8.len() {
            assert(text[pos + t] == text.subrange(q4 + 1, q5)[t - p7.len()]);
            assert(line[t] == p9[t] && p9[t] == p8[t]);
            assert(p8[t] == c5[t - p7.len()]);
        } else if t == p8.len() {
            assert(line[t] == p9[t]);
            assert(p9[t] == 32);
        } else if t < line.len() {
            assert(text[pos + t] == text.subrange(q5 + 1, q6)[t - p9.len()]);
            assert(line[t] == c6[t - p9.len()]);
        } else {
            assert(t == line.len());
            assert((line + seq![10u8])[t] == 10u8);
        }
    }
    assert(text.subrange(pos, q6 + 1) =~= line + seq![10u8]);
}


/// When the remainder of the text renders the descriptors from `m` on,
/// the next line is the line of the `m`-th descriptor, laid out at the
/// positions `lemma_line_head` gives.
proof fn line_head_for(text: Seq<u8>, pos: int, ds: Seq<SSTableV>, m: int) -> (d0: SSTableV)
    requires
        0 <= m <= ds.len(),
        descs_ok(ds),
        0 <= pos < text.len(),
        manifest_rep(ds.skip(m)) == text.skip(pos),
    ensures
        m < ds.len(),
        d0 == ds[m],
        desc_ok(d0),
        text.skip(pos) == desc_line(d0) + seq![10u8] + manifest_rep(ds.skip(m + 1)),
        ({
            let q1 = pos + d0.storage_path.len();
            let q2 = q1 + 1 + d0.index_path.len();
            let q3 = q2 + 1 + d0.min.len();
            let q4 = q3 + 1 + d0.max.len();
            let q5 = q4 + 1 + dec_str(d0.count).len();
            let q6 = q5 + 1 + dec_str(d0.size).len();
            &&& q6 + 1 <= text.len()
            &&& text.subrange(pos, q1) == d0.storage_path
            &&& text.subrange(q1 + 1, q2) == d0.index_path
            &&& text.subrange(q2 + 1, q3) == d0.min
            &&& text.subrange(q3 + 1, q4) == d0.max
            &&& text.subrange(q4 + 1, q5) == dec_str(d0.count)
            &&& text.subrange(q5 + 1, q6) == dec_str(d0.size)
            &&& text[q1] == 32 && text[q2] == 32 && text[q3] == 32 && text[q4] == 32 && text[q5]
                == 32
            &&& text[q6] == 10
            &&& text.skip(q6 + 1) == manifest_rep(ds.skip(m + 1))
        }),
{
    if ds.skip(m).len() == 0 {
        assert(manifest_rep(ds.skip(m)).len() == 0);
        assert(text.skip(pos).len() > 0);
    }
    let d0 = ds.skip(m)[0];
    assert(d0 == ds[m]);
    assert(desc_ok(ds[m]));
    assert(ds.skip(m).skip(1) =~= ds.skip(m + 1));
    assert(manifest_rep(ds.skip(m)) == desc_line(d0) + seq![10u8] + manifest_rep(ds.skip(m + 1)));
    lemma_line_head(text, pos, d0, manifest_rep(ds.skip(m + 1)));
    d0
}


/// No rendering matches a text whose next line breaks off at field 1.
proof fn lemma_bad_line_1(
    text: Seq<u8>,
    pos: int,
    m: int,
    prev: Seq<SSTableV>,
    t1: Seq<u8>,
    p1: int,
)
    requires
        0 <= m <= prev.len(),
        0 <= pos < text.len(),
        prev.len() == m,
        forall|ds: Seq<SSTableV>|
            #[trigger] manifest_rep(ds) == text && descs_ok(ds) ==> {
                &&& m <= ds.len()
                &&& prev == ds.take(m)
                &&& manifest_rep(ds.skip(m)) == text.skip(pos)
            },
        pos <= p1 <= text.len(),
        t1 == text.subrange(pos, p1),
        forall|t: int| pos <= t < p1 ==> text[t] > 32,
        p1 < text.len() ==> text[p1] <= 32,
        !(t1.len() > 0 && p1 < text.len() && text[p1] == 32),
    ensures
        forall|ds: Seq<SSTableV>| !(#[trigger] manifest_rep(ds) == text && descs_ok(ds)),
{
    assert forall|ds: Seq<SSTableV>|
        !(#[trigger] manifest_rep(ds) == text && descs_ok(ds)) by {
        if manifest_rep(ds) == text && descs_ok(ds) {
            let d0 = line_head_for(text, pos, ds, m);
            assert forall|t: int| 0 <= t < d0.storage_path.len() implies d0.storage_path[t] > 32 by {}
            lemma_token_pin(text, pos, d0.storage_path, p1);
            assert(t1 == d0.storage_path);
        }
    }
}

/// No rendering matches a text whose next line breaks off at field 2.
proof fn lemma_bad_line_2(
    text: Seq<u8>,
    pos: int,
    m: int,
    prev: Seq<SSTableV>,
    t1: Seq<u8>,
    p1: int,
    t2: Seq<u8>,
    p2: int,
)
    requires
        0 <= m <= prev.len(),
        0 <= pos < text.len(),
        prev.len() == m,
        forall|ds: Seq<SSTableV>|
            #[trigger] manifest_rep(ds) == text && descs_ok(ds) ==> {
                &&& m <= ds.len()
                &&& prev == ds.take(m)
                &&& manifest_rep(ds.skip(m)) == text.skip(pos)
            },
        pos <= p1 <= text.len(),
        t1 == text.subrange(pos, p1),
        forall|t: int| pos <= t < p1 ==> text[t] > 32,
        p1 < text.len() ==> text[p1] <= 32,
        t1.len() > 0,
        p1 < text.len(),
        text[p1] == 32,
        p1 + 1 <= p2 <= text.len(),
        t2 == text.subrange(p1 + 1, p2),
        forall|t: int| p1 + 1 <= t < p2 ==> text[t] > 32,
        p2 < text.len() ==> text[p2] <= 32,
        !(t2.len() > 0 && p2 < text.len() && text[p2] == 32),
    ensures
        forall|ds: Seq<SSTableV>| !(#[trigger] manifest_rep(ds) == text && descs_ok(ds)),
{
    assert forall|ds: Seq<SSTableV>|
        !(#[trigger] manifest_rep(ds) == text && descs_ok(ds)) by {
        if manifest_rep(ds) == text && descs_ok(ds) {
            let d0 = line_head_for(text, pos, ds, m);
            assert forall|t: int| 0 <= t < d0.storage_path.len() implies d0.storage_path[t] > 32 by {}
            lemma_token_pin(text, pos, d0.storage_path, p1);
            assert(t1 == d0.storage_path);
            assert forall|t: int| 0 <= t < d0.index_path.len() implies d0.index_path[t] > 32 by {}
            lemma_token_pin(text, p1 + 1, d0.index_path, p2);
            assert(t2 == d0.index_path);
        }
    }
}

/// No rendering matches a text whose next line breaks off at field 3.
proof fn lemma_bad_line_3(
    text: Seq<u8>,
    pos: int,
    m: int,
    prev: Seq<SSTableV>,
    t1: Seq<u8>,
    p1: int,
    t2: Seq<u8>,
    p2: int,
    t3: Seq<u8>,
    p3: int,
)
    requires
        0 <= m <= prev.len(),
        0 <= pos < text.len(),
        prev.len() == m,
        forall|ds: Seq<SSTableV>|
            #[trigger] manifest_rep(ds) == text && descs_ok(ds) ==> {
                &&& m <= ds.len()
                &&& prev == ds.take(m)
                &&& manifest_rep(ds.skip(m)) == text.skip(pos)
            },
        pos <= p1 <= text.len(),
        t1 == text.subrange(pos, p1),
        forall|t: int| pos <= t < p1 ==> text[t] > 32,
        p1 < text.len() ==> text[p1] <= 32,
        t1.len() > 0,
        p1 < text.len(),
        text[p1] == 32,
        p1 + 1 <= p2 <= text.len(),
        t2 == text.subrange(p1 + 1, p2),
        forall|t: int| p1 + 1 <= t < p2 ==> text[t] > 32,
        p2 < text.len() ==> text[p2] <= 32,
        t2.len() > 0,
        p2 < text.len(),
        text[p2] == 32,
        p2 + 1 <= p3 <= text.len(),
        t3 == text.subrange(p2 + 1, p3),
        forall|t: int| p2 + 1 <= t < p3 ==> text[t] > 32,
        p3 < text.len() ==> text[p3] <= 32,
        !(t3.len() > 0 && p3 < text.len() && text[p3] == 32),
    ensures
        forall|ds: Seq<SSTableV>| !(#[trigger] manifest_rep(ds) == text && descs_ok(ds)),
{
    assert forall|ds: Seq<SSTableV>|
        !(#[trigger] manifest_rep(ds) == text && descs_ok(ds)) by {
        if manifest_rep(ds) == text && descs_ok(ds) {
            let d0 = line_head_for(text, pos, ds, m);
            assert forall|t: int| 0 <= t < d0.storage_path.len() implies d0.storage_path[t] > 32 by {}
            lemma_token_pin(text, pos, d0.storage_path, p1);
            assert(t1 == d0.storage_path);
            assert forall|t: int| 0 <= t < d0.index_path.len() implies d0.index_path[t] > 32 by {}
            lemma_token_pin(text, p1 + 1, d0.index_path, p2);
            assert(t2 == d0.index_path);
            assert forall|t: int| 0 <= t < d0.min.len() implies d0.min[t] > 32 by {}
            lemma_token_pin(text, p2 + 1, d0.min, p3);
            assert(t3 == d0.min);
        }
    }
}

/// No rendering matches a text whose next line breaks off at field 4.
proof fn lemma_bad_line_4(
    text: Seq<u8>,
    pos: int,
    m: int,
    prev: Seq<SSTableV>,
    t1: Seq<u8>,
    p1: int,
    t2: Seq<u8>,
    p2: int,
    t3: Seq<u8>,
    p3: int,
    t4: Seq<u8>,
    p4: int,
)
    requires
        0 <= m <= prev.len(),
        0 <= pos < text.len(),
        prev.len() == m,
        forall|ds: Seq<SSTableV>|
            #[trigger] manifest_rep(ds) == text && descs_ok(ds) ==> {
                &&& m <= ds.len()
                &&& prev == ds.take(m)
                &&& manifest_rep(ds.skip(m)) == text.skip(pos)
            },
        pos <= p1 <= text.len(),
        t1 == text.subrange(pos, p1),
        forall|t: int| pos <= t < p1 ==> text[t] > 32,
        p1 < text.len() ==> text[p1] <= 32,
        t1.len() > 0,
        p1 < text.len(),
        text[p1] == 32,
        p1 + 1 <= p2 <= text.len(),
        t2 == text.subrange(p1 + 1, p2),
        forall|t: int| p1 + 1 <= t < p2 ==> text[t] > 32,
        p2 < text.len() ==> text[p2] <= 32,
        t2.len() > 0,
        p2 < text.len(),
        text[p2] == 32,
        p2 + 1 <= p3 <= text.len(),
        t3 == text.subrange(p2 + 1, p3),
        forall|t: int| p2 + 1 <= t < p3 ==> text[t] > 32,
        p3 < text.len() ==> text[p3] <= 32,
        t3.len() > 0,
        p3 < text.len(),
        text[p3] == 32,
        p3 + 1 <= p4 <= text.len(),
        t4 == text.subrange(p3 + 1, p4),
        forall|t: int| p3 + 1 <= t < p4 ==> text[t] > 32,
        p4 < text.len() ==> text[p4] <= 32,
        !(t4.len() > 0 && p4 < text.len() && text[p4] == 32),
    ensures
        forall|ds: Seq<SSTableV>| !(#[trigger] manifest_rep(ds) == text && descs_ok(ds)),
{
    assert forall|ds: Seq<SSTableV>|
        !(#[trigger] manifest_rep(ds) == text && descs_ok(ds)) by {
        if manifest_rep(ds) == text && descs_ok(ds) {
            let d0 = line_head_for(text, pos, ds, m);
            assert forall|t: int| 0 <= t < d0.storage_path.len() implies d0.storage_path[t] > 32 by {}
            lemma_token_pin(text, pos, d0.storage_path, p1);
            assert(t1 == d0.storage_path);
            assert forall|t: int| 0 <= t < d0.index_path.len() implies d0.index_path[t] > 32 by {}
            lemma_token_pin(text, p1 + 1, d0.index_path, p2);
            assert(t2 == d0.index_path);
            assert forall|t: int| 0 <= t < d0.min.len() implies d0.min[t] > 32 by {}
            lemma_token_pin(text, p2 + 1, d0.min, p3);
            assert(t3 == d0.min);
            assert forall|t: int| 0 <= t < d0.max.len() implies d0.max[t] > 32 by {}
            lemma_token_pin(text, p3 + 1, d0.max, p4);
            assert(t4 == d0.max);
        }
    }
}

/// No rendering matches a text whose next line breaks off at field 5.
proof fn lemma_bad_line_5(
    text: Seq<u8>,
    pos: int,
    m: int,
    prev: Seq<SSTableV>,
    t1: Seq<u8>,
    p1: int,
    t2: Seq<u8>,
    p2: int,
    t3: Seq<u8>,
    p3: int,
    t4: Seq<u8>,
    p4: int,
    t5: Seq<u8>,
    p5: int,
)
    requires
        0 <= m <= prev.len(),
        0 <= pos < text.len(),
        prev.len() == m,
        forall|ds: Seq<SSTableV>|
            #[trigger] manifest_rep(ds) == text && descs_ok(ds) ==> {
                &&& m <= ds.len()
                &&& prev == ds.take(m)
                &&& manifest_rep(ds.skip(m)) == text.skip(pos)
            },
        pos <= p1 <= text.len(),
        t1 == text.subrange(pos, p1),
        forall|t: int| pos <= t < p1 ==> text[t] > 32,
        p1 < text.len() ==> text[p1] <= 32,
        t1.len() > 0,
        p1 < text.len(),
        text[p1] == 32,
        p1 + 1 <= p2 <= text.len(),
        t2 == text.subrange(p1 + 1, p2),
        forall|t: int| p1 + 1 <= t < p2 ==> text[t] > 32,
        p2 < text.len() ==> text[p2] <= 32,
        t2.len() > 0,
        p2 < text.len(),
        text[p2] == 32,
        p2 + 1 <= p3 <= text.len(),
        t3 == text.subrange(p2 + 1, p3),
        forall|t: int| p2 + 1 <= t < p3 ==> text[t] > 32,
        p3 < text.len() ==> text[p3] <= 32,
        t3.len() > 0,
        p3 < text.len(),
        text[p3] == 32,
        p3 + 1 <= p4 <= text.len(),
        t4 == text.subrange(p3 + 1, p4),
        forall|t: int| p3 + 1 <= t < p4 ==> text[t] > 32,
        p4 < text.len() ==> text[p4] <= 32,
        t4.len() > 0,
        p4 < text.len(),
        text[p4] == 32,
        p4 + 1 <= p5 <= text.len(),
        t5 == text.subrange(p4 + 1, p5),
        forall|t: int| p4 + 1 <= t < p5 ==> text[t] > 32,
        p5 < text.len() ==> text[p5] <= 32,
        !(t5.len() > 0 && p5 < text.len() && text[p5] == 32),
    ensures
        forall|ds: Seq<SSTableV>| !(#[trigger] manifest_rep(ds) == text && descs_ok(ds)),
{
    assert forall|ds: Seq<SSTableV>|
        !(#[trigger] manifest_rep(ds) == text && descs_ok(ds)) by {
        if manifest_rep(ds) == text && descs_ok(ds) {
            let d0 = line_head_for(text, pos, ds, m);
            assert forall|t: int| 0 <= t < d0.storage_path.len() implies d0.storage_path[t] > 32 by {}
            lemma_token_pin(text, pos, d0.storage_path, p1);
            assert(t1 == d0.storage_path);
            assert forall|t: int| 0 <= t < d0.index_path.len() implies d0.index_path[t] > 32 by {}
            lemma_token_pin(text, p1 + 1, d0.index_path, p2);
            assert(t2 == d0.index_path);
            assert forall|t: int| 0 <= t < d0.min.len() implies d0.min[t] > 32 by {}
            lemma_token_pin(text, p2 + 1, d0.min, p3);
            assert(t3 == d0.min);
            assert forall|t: int| 0 <= t < d0.max.len() implies d0.max[t] > 32 by {}
            lemma_token_pin(text, p3 + 1, d0.max, p4);
            assert(t4 == d0.max);
            lemma_dec_str_shape(d0.count);
            assert forall|t: int| 0 <= t < dec_str(d0.count).len() implies dec_str(d0.count)[t] > 32 by {}
            lemma_token_pin(text, p4 + 1, dec_str(d0.count), p5);
            assert(t5 == dec_str(d0.count));
        }
    }
}

/// No rendering matches a text whose next line breaks off at field 6.
proof fn lemma_bad_line_6(
    text: Seq<u8>,
    pos: int,
    m: int,
    prev: Seq<SSTableV>,
    t1: Seq<u8>,
    p1: int,
    t2: Seq<u8>,
    p2: int,
    t3: Seq<u8>,
    p3: int,
    t4: Seq<u8>,
    p4: int,
    t5: Seq<u8>,
    p5: int,
    t6: Seq<u8>,
    p6: int,
)
    requires
        0 <= m <= prev.len(),
        0 <= pos < text.len(),
        prev.len() == m,
        forall|ds: Seq<SSTableV>|
            #[trigger] manifest_rep(ds) == text && descs_ok(ds) ==> {
                &&& m <= ds.len()
                &&& prev == ds.take(m)
                &&& manifest_rep(ds.skip(m)) == text.skip(pos)
            },
        pos <= p1 <= text.len(),
        t1 == text.subrange(pos, p1),
        forall|t: int| pos <= t < p1 ==> text[t] > 32,
        p1 < text.len() ==> text[p1] <= 32,
        t1.len() > 0,
        p1 < text.len(),
        text[p1] == 32,
        p1 + 1 <= p2 <= text.len(),
        t2 == text.subrange(p1 + 1, p2),
        forall|t: int| p1 + 1 <= t < p2 ==> text[t] > 32,
        p2 < text.len() ==> text[p2] <= 32,
        t2.len() > 0,
        p2 < text.len(),
        text[p2] == 32,
        p2 + 1 <= p3 <= text.len(),
        t3 == text.subrange(p2 + 1, p3),
        forall|t: int| p2 + 1 <= t < p3 ==> text[t] > 32,
        p3 < text.len() ==> text[p3] <= 32,
        t3.len() > 0,
        p3 < text.len(),
        text[p3] == 32,
        p3 + 1 <= p4 <= text.len(),
        t4 == text.subrange(p3 + 1, p4),
        forall|t: int| p3 + 1 <= t < p4 ==> text[t] > 32,
        p4 < text.len() ==> text[p4] <= 32,
        t4.len() > 0,
        p4 < text.len(),
        text[p4] == 32,
        p4 + 1 <= p5 <= text.len(),
        t5 == text.subrange(p4 + 1, p5),
        forall|t: int| p4 + 1 <= t < p5 ==> text[t] > 32,
        p5 < text.len() ==> text[p5] <= 32,
        t5.len() > 0,
        p5 < text.len(),
        text[p5] == 32,
        p5 + 1 <= p6 <= text.len(),
        t6 == text.subrange(p5 + 1, p6),
        forall|t: int| p5 + 1 <= t < p6 ==> text[t] > 32,
        p6 < text.len() ==> text[p6] <= 32,
        !(t6.len() > 0 && p6 < text.len() && text[p6] == 10),
    ensures
        forall|ds: Seq<SSTableV>| !(#[trigger] manifest_rep(ds) == text && descs_ok(ds)),
{
    assert forall|ds: Seq<SSTableV>|
        !(#[trigger] manifest_rep(ds) == text && descs_ok(ds)) by {
        if manifest_rep(ds) == text && descs_ok(ds) {
            let d0 = line_head_for(text, pos, ds, m);
            assert forall|t: int| 0 <= t < d0.storage_path.len() implies d0.storage_path[t] > 32 by {}
            lemma_token_pin(text, pos, d0.storage_path, p1);
            assert(t1 == d0.storage_path);
            assert forall|t: int| 0 <= t < d0.index_path.len() implies d0.index_path[t] > 32 by {}
            lemma_token_pin(text, p1 + 1, d0.index_path, p2);
            assert(t2 == d0.index_path);
            assert forall|t: int| 0 <= t < d0.min.len() implies d0.min[t] > 32 by {}
            lemma_token_pin(text, p2 + 1, d0.min, p3);
            assert(t3 == d0.min);
            assert forall|t: int| 0 <= t < d0.max.len() implies d0.max[t] > 32 by {}
            lemma_token_pin(text, p3 + 1, d0.max, p4);
            assert(t4 == d0.max);
            lemma_dec_str_shape(d0.count);
            assert forall|t: int| 0 <= t < dec_str(d0.count).len() implies dec_str(d0.count)[t] > 32 by {}
            lemma_token_pin(text, p4 + 1, dec_str(d0.count), p5);
            assert(t5 == dec_str(d0.count));
            lemma_dec_str_shape(d0.size);
            assert forall|t: int| 0 <= t < dec_str(d0.size).len() implies dec_str(d0.size)[t] > 32 by {}
            lemma_token_pin(text, p5 + 1, dec_str(d0.size), p6);
            assert(t6 == dec_str(d0.size));
        }
    }
}

/// No rendering matches a text whose field 5 is not a canonical number.
proof fn lemma_bad_number_5(
    text: Seq<u8>,
    pos: int,
    m: int,
    prev: Seq<SSTableV>,
    t1: Seq<u8>,
    p1: int,
    t2: Seq<u8>,
    p2: int,
    t3: Seq<u8>,
    p3: int,
    t4: Seq<u8>,
    p4: int,
    t5: Seq<u8>,
    p5: int,
)
    requires
        0 <= m <= prev.len(),
        0 <= pos < text.len(),
        prev.len() == m,
        forall|ds: Seq<SSTableV>|
            #[trigger] manifest_rep(ds) == text && descs_ok(ds) ==> {
                &&& m <= ds.len()
                &&& prev == ds.take(m)
                &&& manifest_rep(ds.skip(m)) == text.skip(pos)
            },
        pos <= p1 <= text.len(),
        t1 == text.subrange(pos, p1),
        forall|t: int| pos <= t < p1 ==> text[t] > 32,
        p1 < text.len() ==> text[p1] <= 32,
        t1.len() > 0,
        p1 < text.len(),
        text[p1] == 32,
        p1 + 1 <= p2 <= text.len(),
        t2 == text.subrange(p1 + 1, p2),
        forall|t: int| p1 + 1 <= t < p2 ==> text[t] > 32,
        p2 < text.len() ==> text[p2] <= 32,
        t2.len() > 0,
        p2 < text.len(),
        text[p2] == 32,
        p2 + 1 <= p3 <= text.len(),
        t3 == text.subrange(p2 + 1, p3),
        forall|t: int| p2 + 1 <= t < p3 ==> text[t] > 32,
        p3 < text.len() ==> text[p3] <= 32,
        t3.len() > 0,
        p3 < text.len(),
        text[p3] == 32,
        p3 + 1 <= p4 <= text.len(),
        t4 == text.subrange(p3 + 1, p4),
        forall|t: int| p3 + 1 <= t < p4 ==> text[t] > 32,
        p4 < text.len() ==> text[p4] <= 32,
        t4.len() > 0,
        p4 < text.len(),
        text[p4] == 32,
        p4 + 1 <= p5 <= text.len(),
        t5 == text.subrange(p4 + 1, p5),
        forall|t: int| p4 + 1 <= t < p5 ==> text[t] > 32,
        p5 < text.len() ==> text[p5] <= 32,
        t5.len() > 0,
        p5 < text.len(),
        text[p5] == 32,
        forall|x: u64| t5 != dec_str(x as int),
    ensures
        forall|ds: Seq<SSTableV>| !(#[trigger] manifest_rep(ds) == text && descs_ok(ds)),
{
    assert forall|ds: Seq<SSTableV>|
        !(#[trigger] manifest_rep(ds) == text && descs_ok(ds)) by {
        if manifest_rep(ds) == text && descs_ok(ds) {
            let d0 = line_head_for(text, pos, ds, m);
            assert forall|t: int| 0 <= t < d0.storage_path.len() implies d0.storage_path[t] > 32 by {}
            lemma_token_pin(text, pos, d0.storage_path, p1);
            assert(t1 == d0.storage_path);
            assert forall|t: int| 0 <= t < d0.index_path.len() implies d0.index_path[t] > 32 by {}
            lemma_token_pin(text, p1 + 1, d0.index_path, p2);
            assert(t2 == d0.index_path);
            assert forall|t: int| 0 <= t < d0.min.len() implies d0.min[t] > 32 by {}
            lemma_token_pin(text, p2 + 1, d0.min, p3);
            assert(t3 == d0.min);
            assert forall|t: int| 0 <= t < d0.max.len() implies d0.max[t] > 32 by {}
            lemma_token_pin(text, p3 + 1, d0.max, p4);
            assert(t4 == d0.max);
            lemma_dec_str_shape(d0.count);
            assert forall|t: int| 0 <= t < dec_str(d0.count).len() implies dec_str(d0.count)[t] > 32 by {}
            lemma_token_pin(text, p4 + 1, dec_str(d0.count), p5);
            assert(t5 == dec_str(d0.count));
            assert(t5 == dec_str((d0.count as u64) as int));
        }
    }
}

/// No rendering matches a text whose field 6 is not a canonical number.
proof fn lemma_bad_number_6(
    text: Seq<u8>,
    pos: int,
    m: int,
    prev: Seq<SSTableV>,
    t1: Seq<u8>,
    p1: int,
    t2: Seq<u8>,
    p2: int,
    t3: Seq<u8>,
    p3: int,
    t4: Seq<u8>,
    p4: int,
    t5: Seq<u8>,
    p5: int,
    t6: Seq<u8>,
    p6: int,
)
    requires
        0 <= m <= prev.len(),
        0 <= pos < text.len(),
        prev.len() == m,
        forall|ds: Seq<SSTableV>|
            #[trigger] manifest_rep(ds) == text && descs_ok(ds) ==> {
                &&& m <= ds.len()
                &&& prev == ds.take(m)
                &&& manifest_rep(ds.skip(m)) == text.skip(pos)
            },
        pos <= p1 <= text.len(),
        t1 == text.subrange(pos, p1),
        forall|t: int| pos <= t < p1 ==> text[t] > 32,
        p1 < text.len() ==> text[p1] <= 32,
        t1.len() > 0,
        p1 < text.len(),
        text[p1] == 32,
        p1 + 1 <= p2 <= text.len(),
        t2 == text.subrange(p1 + 1, p2),
        forall|t: int| p1 + 1 <= t < p2 ==> text[t] > 32,
        p2 < text.len() ==> text[p2] <= 32,
        t2.len() > 0,
        p2 < text.len(),
        text[p2] == 32,
        p2 + 1 <= p3 <= text.len(),
        t3 == text.subrange(p2 + 1, p3),
        forall|t: int| p2 + 1 <= t < p3 ==> text[t] > 32,
        p3 < text.len() ==> text[p3] <= 32,
        t3.len() > 0,
        p3 < text.len(),
        text[p3] == 32,
        p3 + 1 <= p4 <= text.len(),
        t4 == text.subrange(p3 + 1, p4),
        forall|t: int| p3 + 1 <= t < p4 ==> text[t] > 32,
        p4 < text.len() ==> text[p4] <= 32,
        t4.len() > 0,
        p4 < text.len(),
        text[p4] == 32,
        p4 + 1 <= p5 <= text.len(),
        t5 == text.subrange(p4 + 1, p5),
        forall|t: int| p4 + 1 <= t < p5 ==> text[t] > 32,
        p5 < text.len() ==> text[p5] <= 32,
        t5.len() > 0,
        p5 < text.len(),
        text[p5] == 32,
        p5 + 1 <= p6 <= text.len(),
        t6 == text.subrange(p5 + 1, p6),
        forall|t: int| p5 + 1 <= t < p6 ==> text[t] > 32,
        p6 < text.len() ==> text[p6] <= 32,
        t6.len() > 0,
        p6 < text.len(),
        text[p6] == 10,
        forall|x: u64| t6 != dec_str(x as int),
    ensures
        forall|ds: Seq<SSTableV>| !(#[trigger] manifest_rep(ds) == text && descs_ok(ds)),
{
    assert forall|ds: Seq<SSTableV>|
        !(#[trigger] manifest_rep(ds) == text && descs_ok(ds)) by {
        if manifest_rep(ds) == text && descs_ok(ds) {
            let d0 = line_head_for(text, pos, ds, m);
            assert forall|t: int| 0 <= t < d0.storage_path.len() implies d0.storage_path[t] > 32 by {}
            lemma_token_pin(text, pos, d0.storage_path, p1);
            assert(t1 == d0.storage_path);
            assert forall|t: int| 0 <= t < d0.index_path.len() implies d0.index_path[t] > 32 by {}
            lemma_token_pin(text, p1 + 1, d0.index_path, p2);
            assert(t2 == d0.index_path);
            assert forall|t: int| 0 <= t < d0.min.len() implies d0.min[t] > 32 by {}
            lemma_token_pin(text, p2 + 1, d0.min, p3);
            assert(t3 == d0.min);
            assert forall|t: int| 0 <= t < d0.max.len() implies d0.max[t] > 32 by {}
            lemma_token_pin(text, p3 + 1, d0.max, p4);
            assert(t4 == d0.max);
            lemma_dec_str_shape(d0.count);
            assert forall|t: int| 0 <= t < dec_str(d0.count).len() implies dec_str(d0.count)[t] > 32 by {}
            lemma_token_pin(text, p4 + 1, dec_str(d0.count), p5);
            assert(t5 == dec_str(d0.count));
            lemma_dec_str_shape(d0.size);
            assert forall|t: int| 0 <= t < dec_str(d0.size).len() implies dec_str(d0.size)[t] > 32 by {}
            lemma_token_pin(text, p5 + 1, dec_str(d0.size), p6);
            assert(t6 == dec_str(d0.size));
            assert(t6 == dec_str((d0.size as u64) as int));
        }
    }
}

/// One full line read back steps any matching rendering forward.
proof fn lemma_line_step(
    text: Seq<u8>,
    pos: int,
    m: int,
    prev: Seq<SSTableV>,
    t1: Seq<u8>,
    p1: int,
    t2: Seq<u8>,
    p2: int,
    t3: Seq<u8>,
    p3: int,
    t4: Seq<u8>,
    p4: int,
    t5: Seq<u8>,
    p5: int,
    t6: Seq<u8>,
    p6: int,
    c64: u64,
    s64: u64,
    dv: SSTableV,
)
    requires
        0 <= m <= prev.len(),
        0 <= pos < text.len(),
        prev.len() == m,
        forall|ds: Seq<SSTableV>|
            #[trigger] manifest_rep(ds) == text && descs_ok(ds) ==> {
                &&& m <= ds.len()
                &&& prev == ds.take(m)
                &&& manifest_rep(ds.skip(m)) == text.skip(pos)
            },
        pos <= p1 <= text.len(),
        t1 == text.subrange(pos, p1),
        forall|t: int| pos <= t < p1 ==> text[t] > 32,
        p1 < text.len() ==> text[p1] <= 32,
        t1.len() > 0,
        p1 < text.len(),
        text[p1] == 32,
        p1 + 1 <= p2 <= text.len(),
        t2 == text.subrange(p1 + 1, p2),
        forall|t: int| p1 + 1 <= t < p2 ==> text[t] > 32,
        p2 < text.len() ==> text[p2] <= 32,
        t2.len() > 0,
        p2 < text.len(),
        text[p2] == 32,
        p2 + 1 <= p3 <= text.len(),
        t3 == text.subrange(p2 + 1, p3),
        forall|t: int| p2 + 1 <= t < p3 ==> text[t] > 32,
        p3 < text.len() ==> text[p3] <= 32,
        t3.len() > 0,
        p3 < text.len(),
        text[p3] == 32,
        p3 + 1 <= p4 <= text.len(),
        t4 == text.subrange(p3 + 1, p4),
        forall|t: int| p3 + 1 <= t < p4 ==> text[t] > 32,
        p4 < text.len() ==> text[p4] <= 32,
        t4.len() > 0,
        p4 < text.len(),
        text[p4] == 32,
        p4 + 1 <= p5 <= text.len(),
        t5 == text.subrange(p4 + 1, p5),
        forall|t: int| p4 + 1 <= t < p5 ==> text[t] > 32,
        p5 < text.len() ==> text[p5] <= 32,
        t5.len() > 0,
        p5 < text.len(),
        text[p5] == 32,
        p5 + 1 <= p6 <= text.len(),
        t6 == text.subrange(p5 + 1, p6),
        forall|t: int| p5 + 1 <= t < p6 ==> text[t] > 32,
        p6 < text.len() ==> text[p6] <= 32,
        t6.len() > 0,
        p6 < text.len(),
        text[p6] == 10,
        t5 == dec_str(c64 as int),
        t6 == dec_str(s64 as int),
        dv.storage_path == t1,
        dv.index_path == t2,
        dv.min == t3,
        dv.max == t4,
        dv.count == c64 as int,
        dv.size == s64 as int,
    ensures
        forall|ds: Seq<SSTableV>|
            #[trigger] manifest_rep(ds) == text && descs_ok(ds) ==> {
                &&& m + 1 <= ds.len()
                &&& prev.push(dv) == ds.take(m + 1)
                &&& manifest_rep(ds.skip(m + 1)) == text.skip(p6 + 1)
            },
{
    assert forall|ds: Seq<SSTableV>|
        #[trigger] manifest_rep(ds) == text && descs_ok(ds) implies {
        &&& m + 1 <= ds.len()
        &&& prev.push(dv) == ds.take(m + 1)
        &&& manifest_rep(ds.skip(m + 1)) == text.skip(p6 + 1)
    } by {
        let d0 = line_head_for(text, pos, ds, m);
            assert forall|t: int| 0 <= t < d0.storage_path.len() implies d0.storage_path[t] > 32 by {}
            lemma_token_pin(text, pos, d0.storage_path, p1);
            assert(t1 == d0.storage_path);
            assert forall|t: int| 0 <= t < d0.index_path.len() implies d0.index_path[t] > 32 by {}
            lemma_token_pin(text, p1 + 1, d0.index_path, p2);
            assert(t2 == d0.index_path);
            assert forall|t: int| 0 <= t < d0.min.len() implies d0.min[t] > 32 by {}
            lemma_token_pin(text, p2 + 1, d0.min, p3);
            assert(t3 == d0.min);
            assert forall|t: int| 0 <= t < d0.max.len() implies d0.max[t] > 32 by {}
            lemma_token_pin(text, p3 + 1, d0.max, p4);
            assert(t4 == d0.max);
            lemma_dec_str_shape(d0.count);
            assert forall|t: int| 0 <= t < dec_str(d0.count).len() implies dec_str(d0.count)[t] > 32 by {}
            lemma_token_pin(text, p4 + 1, dec_str(d0.count), p5);
            assert(t5 == dec_str(d0.count));
            lemma_dec_str_shape(d0.size);
            assert forall|t: int| 0 <= t < dec_str(d0.size).len() implies dec_str(d0.size)[t] > 32 by {}
            lemma_token_pin(text, p5 + 1, dec_str(d0.size), p6);
            assert(t6 == dec_str(d0.size));
        assert(t5 == dec_str((d0.count as u64) as int));
        assert(t6 == dec_str((d0.size as u64) as int));
        crate::numbers::lemma_dec_str_injective(c64 as int, d0.count);
        crate::numbers::lemma_dec_str_injective(s64 as int, d0.size);
        assert(dv == d0);
        assert(ds.take(m + 1) =~= ds.take(m).push(ds[m]));
        assert(prev.push(dv) =~= ds.take(m + 1));
    }
}

/// A parsed line extends the decoded prefix by its descriptor.
proof fn lemma_take_extends(text: Seq<u8>, pos: int, prev: Seq<SSTableV>, dv: SSTableV)
    requires
        0 <= pos,
        text.take(pos) == manifest_rep(prev),
        ({
            let q1 = pos + dv.storage_path.len();
            let q2 = q1 + 1 + dv.index_path.len();
            let q3 = q2 + 1 + dv.min.len();
            let q4 = q3 + 1 + dv.max.len();
            let q5 = q4 + 1 + dec_str(dv.count).len();
            let q6 = q5 + 1 + dec_str(dv.size).len();
            &&& q6 + 1 <= text.len()
            &&& text.subrange(pos, q1) == dv.storage_path
            &&& text.subrange(q1 + 1, q2) == dv.index_path
            &&& text.subrange(q2 + 1, q3) == dv.min
            &&& text.subrange(q3 + 1, q4) == dv.max
            &&& text.subrange(q4 + 1, q5) == dec_str(dv.count)
            &&& text.subrange(q5 + 1, q6) == dec_str(dv.size)
            &&& text[q1] == 32 && text[q2] == 32 && text[q3] == 32 && text[q4] == 32 && text[q5]
                == 32
            &&& text[q6] == 10
        }),
    ensures
        text.take(pos + desc_line(dv).len() + 1) == manifest_rep(prev.push(dv)),
{
    lemma_line_assemble(text, pos, dv);
    let newpos = pos + desc_line(dv).len() + 1;
    assert(text.take(newpos) =~= text.take(pos) + text.subrange(pos, newpos));
    lemma_manifest_rep_snoc(prev, dv);
}

/// Reads a manifest text back as the descriptor list it renders, oldest
/// first. Accepts exactly the canonical texts this store writes; a line
/// with a wrong field count, an impossible token or an unparseable number
/// is rejected.
pub fn parse_manifest(text: &Vec<u8>) -> (r: Option<Vec<SSTable>>)
    ensures
        match r {
            Some(v) => text@ == manifest_rep(descs_view(v@)) && descs_ok(descs_view(v@)),
            None => true,
        },
        forall|ds: Seq<SSTableV>|
            #[trigger] manifest_rep(ds) == text@ && descs_ok(ds) ==> (r matches Some(v)
                && descs_view(v@) == ds),
{
    let mut out: Vec<SSTable> = Vec::new();
    let mut pos: usize = 0;
    proof {
        assert(descs_view(out@) =~= Seq::<SSTableV>::empty());
        assert(text@.take(0) =~= Seq::<u8>::empty());
        assert forall|ds: Seq<SSTableV>|
            #[trigger] manifest_rep(ds) == text@ && descs_ok(ds) implies {
            &&& out@.len() <= ds.len()
            &&& descs_view(out@) == ds.take(out@.len() as int)
            &&& manifest_rep(ds.skip(out@.len() as int)) == text@.skip(0)
        } by {
            assert(descs_view(out@) =~= ds.take(0));
            assert(ds.skip(0) =~= ds);
            assert(text@.skip(0) =~= text@);
        }
    }
    loop
        invariant
            pos <= text@.len(),
            descs_view(out@).len() == out@.len(),
            descs_ok(descs_view(out@)),
            text@.take(pos as int) == manifest_rep(descs_view(out@)),
            forall|ds: Seq<SSTableV>|
                #[trigger] manifest_rep(ds) == text@ && descs_ok(ds) ==> {
                    &&& out@.len() <= ds.len()
                    &&& descs_view(out@) == ds.take(out@.len() as int)
                    &&& manifest_rep(ds.skip(out@.len() as int)) == text@.skip(pos as int)
                },
        decreases text@.len() - pos,
    {
        if pos == text.len() {
            proof {
                assert(text@.take(pos as int) =~= text@);
                assert forall|ds: Seq<SSTableV>|
                    #[trigger] manifest_rep(ds) == text@ && descs_ok(ds) implies descs_view(out@)
                    == ds by {
                    let m = out@.len() as int;
                    assert(manifest_rep(ds.skip(m)) == text@.skip(pos as int));
                    assert(text@.skip(pos as int).len() == 0);
                    if ds.skip(m).len() > 0 {
                        let d0 = ds.skip(m)[0];
                        assert(manifest_rep(ds.skip(m)) == desc_line(d0) + seq![10u8]
                            + manifest_rep(ds.skip(m).skip(1)));
                    }
                    assert(ds.take(m) =~= ds);
                }
            }
            return Some(out);
        }
        let ghost m = out@.len() as int;
        let ghost prev = descs_view(out@);
        let (t1, p1) = read_token(text, pos);
        if t1.len() == 0 || p1 == text.len() || text[p1] != 32 {
            proof {
                lemma_bad_line_1(text@, pos as int, m, prev, t1@, p1 as int);
            }
            return None;
        }
        let (t2, p2) = read_token(text, p1 + 1);
        if t2.len() == 0 || p2 == text.len() || text[p2] != 32 {
            proof {
                lemma_bad_line_2(text@, pos as int, m, prev, t1@, p1 as int, t2@, p2 as int);
            }
            return None;
        }
        let (t3, p3) = read_token(text, p2 + 1);
        if t3.len() == 0 || p3 == text.len() || text[p3] != 32 {
            proof {
                lemma_bad_line_3(
                    text@,
                    pos as int,
                    m,
                    prev,
                    t1@,
                    p1 as int,
                    t2@,
                    p2 as int,
                    t3@,
                    p3 as int,
                );
            }
            return None;
        }
        let (t4, p4) = read_token(text, p3 + 1);
        if t4.len() == 0 || p4 == text.len() || text[p4] != 32 {
            proof {
                lemma_bad_line_4(
                    text@,
                    pos as int,
                    m,
                    prev,
                    t1@,
                    p1 as int,
                    t2@,
                    p2 as int,
                    t3@,
                    p3 as int,
                    t4@,
                    p4 as int,
                );
            }
            return None;
        }
        let (t5, p5) = read_token(text, p4 + 1);
        if t5.len() == 0 || p5 == text.len() || text[p5] != 32 {
            proof {
                lemma_bad_line_5(
                    text@,
                    pos as int,
                    m,
                    prev,
                    t1@,
                    p1 as int,
                    t2@,
                    p2 as int,
                    t3@,
                    p3 as int,
                    t4@,
                    p4 as int,
                    t5@,
                    p5 as int,
                );
            }
            return None;
        }
        let c64 = match parse_decimal(t5.as_slice()) {
            Some(c) => c,
            None => {
                proof {
                    lemma_bad_number_5(
                        text@,
                        pos as int,
                        m,
                        prev,
                        t1@,
                        p1 as int,
                        t2@,
                        p2 as int,
                        t3@,
                        p3 as int,
                        t4@,
                        p4 as int,
                        t5@,
                        p5 as int,
                    );
                }
                return None;
            },
        };
        let (t6, p6) = read_token(text, p5 + 1);
        if t6.len() == 0 || p6 == text.len() || text[p6] != 10 {
            proof {
                lemma_bad_line_6(
                    text@,
                    pos as int,
                    m,
                    prev,
                    t1@,
                    p1 as int,
                    t2@,
                    p2 as int,
                    t3@,
                    p3 as int,
                    t4@,
                    p4 as int,
                    t5@,
                    p5 as int,
                    t6@,
                    p6 as int,
                );
            }
            return None;
        }
        let s64 = match parse_decimal(t6.as_slice()) {
            Some(c) => c,
            None => {
                proof {
                    lemma_bad_number_6(
                        text@,
                        pos as int,
                        m,
                        prev,
                        t1@,
                        p1 as int,
                        t2@,
                        p2 as int,
                        t3@,
                        p3 as int,
                        t4@,
                        p4 as int,
                        t5@,
                        p5 as int,
                        t6@,
                        p6 as int,
                    );
                }
                return None;
            },
        };
        let cap: u64 = usize::MAX as u64;
        if c64 > cap || s64 > cap {
            proof {
                assert forall|ds: Seq<SSTableV>|
                    !(#[trigger] manifest_rep(ds) == text@ && descs_ok(ds)) by {
                    if manifest_rep(ds) == text@ && descs_ok(ds) {
                        lemma_line_step(
                            text@,
                            pos as int,
                            m,
                            prev,
                            t1@,
                            p1 as int,
                            t2@,
                            p2 as int,
                            t3@,
                            p3 as int,
                            t4@,
                            p4 as int,
                            t5@,
                            p5 as int,
                            t6@,
                            p6 as int,
                            c64,
                            s64,
                            SSTableV {
                                storage_path: t1@,
                                index_path: t2@,
                                min: t3@,
                                max: t4@,
                                count: c64 as int,
                                size: s64 as int,
                            },
                        );
                        assert(prev.push(
                            SSTableV {
                                storage_path: t1@,
                                index_path: t2@,
                                min: t3@,
                                max: t4@,
                                count: c64 as int,
                                size: s64 as int,
                            },
                        ) == ds.take(m + 1));
                        assert(desc_ok(ds[m]));
                        assert(ds.take(m + 1)[m] == ds[m]);
                    }
                }
            }
            return None;
        }
        let desc = SSTable {
            storage_path: t1,
            index_path: t2,
            min: t3,
            max: t4,
            count: c64 as usize,
            size: s64 as usize,
        };
        let ghost dv = desc@;
        out.push(desc);
        let newpos = p6 + 1;
        proof {
            assert(desc_ok(dv)) by {
                lemma_dec_str_shape(dv.count);
                lemma_dec_str_shape(dv.size);
            }
            lemma_take_extends(text@, pos as int, prev, dv);
            assert(descs_view(out@) =~= prev.push(dv));
            lemma_line_step(
                text@,
                pos as int,
                m,
                prev,
                t1@,
                p1 as int,
                t2@,
                p2 as int,
                t3@,
                p3 as int,
                t4@,
                p4 as int,
                t5@,
                p5 as int,
                t6@,
                p6 as int,
                c64,
                s64,
                dv,
            );
        }
        pos = newpos;
    }
}

/// Two field runs ending at the same separator are the same run.
proof fn lemma_same_token(text: Seq<u8>, pos: int, t1: Seq<u8>, t2: Seq<u8>)
    requires
        0 <= pos,
        pos + t1.len() < text.len(),
        pos + t2.len() < text.len(),
        text.subrange(pos, pos + t1.len()) == t1,
        text.subrange(pos, pos + t2.len()) == t2,
        forall|i: int| 0 <= i < t1.len() ==> t1[i] > 32,
        forall|i: int| 0 <= i < t2.len() ==> t2[i] > 32,
        text[pos + t1.len()] <= 32,
        text[pos + t2.len()] <= 32,
    ensures
        t1 == t2,
{
    if t1.len() < t2.len() {
        assert(t2[t1.len() as int] == text.subrange(pos, pos + t2.len())[t1.len() as int]);
        assert(t2[t1.len() as int] > 32);
    } else if t2.len() < t1.len() {
        assert(t1[t2.len() as int] == text.subrange(pos, pos + t1.len())[t2.len() as int]);
        assert(t1[t2.len() as int] > 32);
    }
    assert(t1 =~= t2);
}

/// A manifest text renders at most one list of carryable descriptors:
/// what the store writes is read back as exactly the same list.
pub proof fn lemma_manifest_rep_injective(a: Seq<SSTableV>, b: Seq<SSTableV>)
    requires
        descs_ok(a),
        descs_ok(b),
        manifest_rep(a) == manifest_rep(b),
    ensures
        a == b,
    decreases a.len(),
{
    let text = manifest_rep(a);
    if a.len() == 0 && b.len() == 0 {
        assert(a =~= b);
    } else if a.len() == 0 {
        assert(desc_ok(b[0]));
        assert(manifest_rep(b).len() >= 1);
    } else if b.len() == 0 {
        assert(desc_ok(a[0]));
        assert(manifest_rep(a).len() >= 1);
    } else {
        let d1 = a[0];
        let d2 = b[0];
        assert(desc_ok(d1) && desc_ok(d2));
        assert(text.skip(0) =~= text);
        lemma_line_head(text, 0, d1, manifest_rep(a.skip(1)));
        lemma_line_head(text, 0, d2, manifest_rep(b.skip(1)));
        lemma_dec_str_shape(d1.count);
        lemma_dec_str_shape(d1.size);
        lemma_dec_str_shape(d2.count);
        lemma_dec_str_shape(d2.size);
        lemma_same_token(text, 0, d1.storage_path, d2.storage_path);
        let q1 = d1.storage_path.len() as int;
        lemma_same_token(text, q1 + 1, d1.index_path, d2.index_path);
        let q2 = q1 + 1 + d1.index_path.len();
        lemma_same_token(text, q2 + 1, d1.min, d2.min);
        let q3 = q2 + 1 + d1.min.len();
        lemma_same_token(text, q3 + 1, d1.max, d2.max);
        let q4 = q3 + 1 + d1.max.len();
        lemma_same_token(text, q4 + 1, dec_str(d1.count), dec_str(d2.count));
        let q5 = q4 + 1 + dec_str(d1.count).len();
        lemma_same_token(text, q5 + 1, dec_str(d1.size), dec_str(d2.size));
        let q6 = q5 + 1 + dec_str(d1.size).len();
        crate::numbers::lemma_dec_str_injective(d1.count, d2.count);
        crate::numbers::lemma_dec_str_injective(d1.size, d2.size);
        assert(d1 == d2);
        assert(text.skip(q6 + 1) == manifest_rep(a.skip(1)));
        assert(text.skip(q6 + 1) == manifest_rep(b.skip(1)));
        lemma_manifest_rep_injective(a.skip(1), b.skip(1));
        assert forall|j: int| 0 <= j < a.len() implies a[j] == b[j] by {
            if j > 0 {
                assert(a[j] == a.skip(1)[j - 1]);
                assert(b[j] == b.skip(1)[j - 1]);
            }
        }
        assert(a =~= b);
    }
}

} // verus!
