//! Merging a set of tables into one: a k-way merge over their entries,
//! oldest input first, where for a key carried by several inputs the
//! newest input wins, and a winning tombstone is dropped only when the
//! merge includes the oldest table of the store — otherwise an older table
//! below could still hold a live value the tombstone must keep shadowing.

use vstd::prelude::*;

use crate::config::Config;
use crate::keys::{
    bytes_eq, key_compare, lemma_lex_lt_trans, lemma_lex_total, lex_lt, valid_key, KeyOrder,
};
use crate::record::{copy_bytes, entries_view, view_val, Record, RecordV};
use crate::serialization::BinarySerializationEngine;
use crate::sstable::table::{table_entries, table_wf, trunc_entries, TableImage};
use crate::sstable::{SSTable, SSTableError};

verus! {

/// One input's current head during the merge: the key and value at the
/// input's cursor, with the input's position in the age order.
pub struct Entry {
    pub key: Vec<u8>,
    pub reader: usize,
    pub value: Option<Record>,
}

impl Entry {
    pub fn new(key: Vec<u8>, reader: usize, value: Option<Record>) -> (r: Entry)
        ensures
            r.key@ == key@,
            r.reader == reader,
            view_val(r.value) == view_val(value),
    {
        Entry { key, reader, value }
    }
}

/// Whether some entry of `s` carries `key`.
pub open spec fn seq_has(s: Seq<(Seq<u8>, Option<RecordV>)>, key: Seq<u8>) -> bool {
    exists|i: int| 0 <= i < s.len() && s[i].0 == key
}

/// The first entry of `s` carrying `key`; `s.len()` if there is none.
pub open spec fn seq_find(s: Seq<(Seq<u8>, Option<RecordV>)>, key: Seq<u8>, i: int) -> int
    decreases s.len() - i,
{
    if i < 0 || i >= s.len() {
        s.len() as int
    } else if s[i].0 == key {
        i
    } else {
        seq_find(s, key, i + 1)
    }
}

/// The value `s` binds to `key`.
pub open spec fn seq_val(s: Seq<(Seq<u8>, Option<RecordV>)>, key: Seq<u8>) -> Option<RecordV> {
    s[seq_find(s, key, 0)].1
}

/// A carried key is found at a hit within bounds.
pub proof fn lemma_seq_find_some(s: Seq<(Seq<u8>, Option<RecordV>)>, key: Seq<u8>)
    requires
        seq_has(s, key),
    ensures
        0 <= seq_find(s, key, 0) < s.len(),
        s[seq_find(s, key, 0)].0 == key,
{
    let j = choose|j: int| 0 <= j < s.len() && s[j].0 == key;
    lemma_seq_find_le(s, key, 0, j);
}

/// The scan stops at or before any hit, on a hit.
proof fn lemma_seq_find_le(s: Seq<(Seq<u8>, Option<RecordV>)>, key: Seq<u8>, i: int, j: int)
    requires
        0 <= i <= j < s.len(),
        s[j].0 == key,
    ensures
        i <= seq_find(s, key, i) <= j,
        s[seq_find(s, key, i)].0 == key,
    decreases j - i,
{
    if s[i].0 != key {
        lemma_seq_find_le(s, key, i + 1, j);
    }
}

/// The newest input carrying `key`; `-1` if none does.
pub open spec fn newest_with(inputs: Seq<Seq<(Seq<u8>, Option<RecordV>)>>, key: Seq<u8>) -> int
    decreases inputs.len(),
{
    if inputs.len() == 0 {
        -1
    } else if seq_has(inputs.last(), key) {
        inputs.len() - 1
    } else {
        newest_with(inputs.drop_last(), key)
    }
}

/// Whether any input carries `key`.
pub open spec fn stack_has(inputs: Seq<Seq<(Seq<u8>, Option<RecordV>)>>, key: Seq<u8>) -> bool {
    0 <= newest_with(inputs, key)
}

/// The value the stack resolves `key` to: the newest input's binding.
pub open spec fn stack_val(inputs: Seq<Seq<(Seq<u8>, Option<RecordV>)>>, key: Seq<u8>) -> Option<
    RecordV,
> {
    seq_val(inputs[newest_with(inputs, key)], key)
}

/// A snapshot in strictly ascending key order with keys the formats carry.
pub open spec fn entries_ok(s: Seq<(Seq<u8>, Option<RecordV>)>) -> bool {
    &&& forall|i: int, j: int| 0 <= i < j < s.len() ==> lex_lt(#[trigger] s[i].0, #[trigger] s[j].0)
    &&& forall|i: int| 0 <= i < s.len() ==> valid_key(#[trigger] s[i].0)
}

/// The views of the inputs' entry snapshots.
pub open spec fn input_views(inputs: Seq<Vec<(Vec<u8>, Option<Record>)>>) -> Seq<
    Seq<(Seq<u8>, Option<RecordV>)>,
> {
    inputs.map_values(|v: Vec<(Vec<u8>, Option<Record>)>| entries_view(v@))
}

/// In a strictly sorted snapshot the first hit is the only one.
pub proof fn lemma_seq_find_at(s: Seq<(Seq<u8>, Option<RecordV>)>, key: Seq<u8>, j: int, i: int)
    requires
        0 <= i <= j < s.len(),
        s[j].0 == key,
        forall|t: int| i <= t < j ==> s[t].0 != key,
    ensures
        seq_find(s, key, i) == j,
    decreases j - i,
{
    if i < j {
        lemma_seq_find_at(s, key, j, i + 1);
    }
}

/// The newest input carrying `key` is the largest index that has it.
proof fn lemma_newest_with(inputs: Seq<Seq<(Seq<u8>, Option<RecordV>)>>, key: Seq<u8>, w: int)
    requires
        0 <= w < inputs.len(),
        seq_has(inputs[w], key),
        forall|i: int| w < i < inputs.len() ==> !seq_has(#[trigger] inputs[i], key),
    ensures
        newest_with(inputs, key) == w,
    decreases inputs.len(),
{
    if inputs.len() > 0 {
        if w == inputs.len() - 1 {
            assert(seq_has(inputs.last(), key));
        } else {
            assert(!seq_has(inputs.last(), key));
            lemma_newest_with(inputs.drop_last(), key, w);
            assert(inputs.drop_last()[w] == inputs[w]);
        }
    }
}

/// If no input carries `key`, none is newest.
pub proof fn lemma_newest_none(inputs: Seq<Seq<(Seq<u8>, Option<RecordV>)>>, key: Seq<u8>)
    requires
        forall|i: int| 0 <= i < inputs.len() ==> !seq_has(#[trigger] inputs[i], key),
    ensures
        newest_with(inputs, key) == -1,
    decreases inputs.len(),
{
    if inputs.len() > 0 {
        lemma_newest_none(inputs.drop_last(), key);
    }
}

/// Copies an optional record.
fn dup_val(v: &Option<Record>) -> (r: Option<Record>)
    ensures
        view_val(r) == view_val(*v),
{
    match v {
        Some(rec) => Some(rec.dup()),
        None => None,
    }
}

/// Entries of `ins` not yet consumed, counted from input `i` on.
pub open spec fn rem_sum(ins: Seq<Seq<(Seq<u8>, Option<RecordV>)>>, hs: Seq<usize>, i: int) -> int
    decreases ins.len() - i,
{
    if i < 0 || i >= ins.len() {
        0
    } else {
        (ins[i].len() - hs[i]) + rem_sum(ins, hs, i + 1)
    }
}

/// Advancing cursors never grows the remainder; advancing one strictly
/// shrinks it.
proof fn lemma_rem_sum(
    ins: Seq<Seq<(Seq<u8>, Option<RecordV>)>>,
    h1: Seq<usize>,
    h2: Seq<usize>,
    i: int,
)
    requires
        h1.len() == ins.len(),
        h2.len() == ins.len(),
        forall|j: int| 0 <= j < ins.len() ==> #[trigger] h1[j] <= h2[j] <= ins[j].len(),
    ensures
        rem_sum(ins, h2, i) <= rem_sum(ins, h1, i),
    decreases ins.len() - i,
{
    if 0 <= i < ins.len() {
        lemma_rem_sum(ins, h1, h2, i + 1);
    }
}

/// What remains is never negative.
proof fn lemma_rem_sum_nonneg(ins: Seq<Seq<(Seq<u8>, Option<RecordV>)>>, hs: Seq<usize>, i: int)
    requires
        hs.len() == ins.len(),
        forall|j: int| 0 <= j < ins.len() ==> #[trigger] hs[j] <= ins[j].len(),
    ensures
        rem_sum(ins, hs, i) >= 0,
    decreases ins.len() - i,
{
    if 0 <= i < ins.len() {
        lemma_rem_sum_nonneg(ins, hs, i + 1);
    }
}

/// Advancing one cursor strictly shrinks the remainder.
proof fn lemma_rem_sum_dec(
    ins: Seq<Seq<(Seq<u8>, Option<RecordV>)>>,
    h1: Seq<usize>,
    h2: Seq<usize>,
    i: int,
    w: int,
)
    requires
        h1.len() == ins.len(),
        h2.len() == ins.len(),
        forall|j: int| 0 <= j < ins.len() ==> #[trigger] h1[j] <= h2[j] <= ins[j].len(),
        i <= w < ins.len(),
        0 <= i,
        h2[w] > h1[w],
    ensures
        rem_sum(ins, h2, i) < rem_sum(ins, h1, i),
    decreases ins.len() - i,
{
    if i < w {
        lemma_rem_sum_dec(ins, h1, h2, i + 1, w);
    } else {
        lemma_rem_sum(ins, h1, h2, i + 1);
    }
}

/// Whether some already-consumed entry carries `key`.
pub open spec fn consumed(
    ins: Seq<Seq<(Seq<u8>, Option<RecordV>)>>,
    hs: Seq<usize>,
    key: Seq<u8>,
) -> bool {
    exists|i: int, j: int| 0 <= i < ins.len() && 0 <= j < hs[i] && ins[i][j].0 == key
}

/// Every produced key sorts strictly before everything still pending.
pub open spec fn merge_frontier(
    ins: Seq<Seq<(Seq<u8>, Option<RecordV>)>>,
    hs: Seq<usize>,
    outv: Seq<(Seq<u8>, Option<RecordV>)>,
) -> bool {
    forall|t: int, i: int, j: int|
        0 <= t < outv.len() && 0 <= i < ins.len() && hs[i] <= j < ins[i].len() ==> lex_lt(
            #[trigger] outv[t].0,
            #[trigger] ins[i][j].0,
        )
}

/// Every consumed key sorts strictly before everything still pending.
pub open spec fn merge_cut(ins: Seq<Seq<(Seq<u8>, Option<RecordV>)>>, hs: Seq<usize>) -> bool {
    forall|a: int, b: int, c: int, d: int|
        0 <= a < ins.len() && 0 <= b < hs[a] && 0 <= c < ins.len() && hs[c] <= d < ins[c].len()
            ==> lex_lt(#[trigger] ins[a][b].0, #[trigger] ins[c][d].0)
}

/// What was produced carries the stack's resolution and was not dropped.
pub open spec fn merge_fwd(
    ins: Seq<Seq<(Seq<u8>, Option<RecordV>)>>,
    outv: Seq<(Seq<u8>, Option<RecordV>)>,
    includes_oldest: bool,
) -> bool {
    forall|t: int|
        0 <= t < outv.len() ==> {
            let e = #[trigger] outv[t];
            &&& stack_has(ins, e.0)
            &&& e.1 == stack_val(ins, e.0)
            &&& !(includes_oldest && stack_val(ins, e.0) is None)
        }
}

/// Every consumed key was produced, unless the drop rule fired on it.
pub open spec fn merge_bwd(
    ins: Seq<Seq<(Seq<u8>, Option<RecordV>)>>,
    hs: Seq<usize>,
    outv: Seq<(Seq<u8>, Option<RecordV>)>,
    includes_oldest: bool,
) -> bool {
    forall|key: Seq<u8>|
        #[trigger] consumed(ins, hs, key) && !(includes_oldest && stack_val(ins, key) is None)
            ==> seq_has(outv, key)
}

/// The newest carrier of a key, when the stack has the key at all, is an
/// input that carries it.
pub proof fn lemma_newest_some(inputs: Seq<Seq<(Seq<u8>, Option<RecordV>)>>, key: Seq<u8>)
    ensures
        stack_has(inputs, key) ==> newest_with(inputs, key) < inputs.len() && seq_has(
            inputs[newest_with(inputs, key)],
            key,
        ),
        (exists|i: int| 0 <= i < inputs.len() && seq_has(#[trigger] inputs[i], key)) ==> stack_has(
            inputs,
            key,
        ),
    decreases inputs.len(),
{
    if inputs.len() > 0 {
        lemma_newest_some(inputs.drop_last(), key);
        if !seq_has(inputs.last(), key) {
            assert forall|i: int|
                0 <= i < inputs.len() - 1 && seq_has(#[trigger] inputs[i], key) implies seq_has(
                inputs.drop_last()[i],
                key,
            ) by {
                assert(inputs.drop_last()[i] == inputs[i]);
            }
            if stack_has(inputs, key) {
                assert(inputs.drop_last()[newest_with(inputs, key)] == inputs[newest_with(
                    inputs,
                    key,
                )]);
            }
        }
    }
}

/// One merge round keeps the loop's books straight: after the smallest
/// pending key is consumed from every input whose head carries it, and
/// written out or dropped by the tombstone rule, the frontier, the cut and
/// both content ledgers hold again.
proof fn restore_invariants(
    ins: Seq<Seq<(Seq<u8>, Option<RecordV>)>>,
    h0: Seq<usize>,
    h1: Seq<usize>,
    out0: Seq<(Seq<u8>, Option<RecordV>)>,
    out1: Seq<(Seq<u8>, Option<RecordV>)>,
    kappa: Seq<u8>,
    includes_oldest: bool,
)
    requires
        h0.len() == ins.len(),
        h1.len() == ins.len(),
        forall|i: int| 0 <= i < ins.len() ==> h0[i] <= ins[i].len(),
        forall|i: int| 0 <= i < ins.len() ==> entries_ok(#[trigger] ins[i]),
        forall|i: int|
            0 <= i < ins.len() ==> #[trigger] h1[i] as int == (if h0[i] < ins[i].len()
                && ins[i][h0[i] as int].0 == kappa {
                h0[i] + 1
            } else {
                h0[i] as int
            }),
        exists|ii: int|
            0 <= ii < ins.len() && h0[ii] < ins[ii].len() && (#[trigger] ins[ii])[h0[ii] as int].0
                == kappa,
        forall|ii: int|
            0 <= ii < ins.len() && h0[ii] < ins[ii].len() ==> !lex_lt(
                (#[trigger] ins[ii])[h0[ii] as int].0,
                kappa,
            ),
        forall|j: int, t: int|
            0 <= j < ins.len() && 0 <= t < ins[j].len() && #[trigger] ins[j][t].0 == kappa ==> t
                == h0[j],
        valid_key(kappa),
        stack_has(ins, kappa),
        entries_ok(out0),
        merge_frontier(ins, h0, out0),
        merge_cut(ins, h0),
        merge_fwd(ins, out0, includes_oldest),
        merge_bwd(ins, h0, out0, includes_oldest),
        if includes_oldest && stack_val(ins, kappa) is None {
            out1 == out0
        } else {
            out1 == out0.push((kappa, stack_val(ins, kappa)))
        },
    ensures
        entries_ok(out1),
        merge_frontier(ins, h1, out1),
        merge_cut(ins, h1),
        merge_fwd(ins, out1, includes_oldest),
        merge_bwd(ins, h1, out1, includes_oldest),
{
    let dropped = includes_oldest && stack_val(ins, kappa) is None;
    // pending entries after the round are pending entries other than kappa,
    // and kappa sorts strictly before each of them
    assert forall|c: int, d: int|
        0 <= c < ins.len() && h1[c] <= d < ins[c].len() implies h0[c] <= d && ins[c][d].0 != kappa
            && lex_lt(kappa, ins[c][d].0) by {
        assert(h0[c] <= d);
        if ins[c][d].0 == kappa {
            assert(d == h0[c]);
            assert(h1[c] == h0[c] + 1);
        }
        assert(!lex_lt(ins[c][h0[c] as int].0, kappa));
        if d > h0[c] {
            assert(lex_lt(ins[c][h0[c] as int].0, ins[c][d].0));
        }
        if !lex_lt(kappa, ins[c][d].0) {
            lemma_lex_total(kappa, ins[c][d].0);
            if d > h0[c] {
                if lex_lt(ins[c][d].0, kappa) {
                    lemma_lex_lt_trans(ins[c][h0[c] as int].0, ins[c][d].0, kappa);
                }
            }
        }
    }
    // the produced keys so far sort strictly before kappa
    assert forall|t: int| 0 <= t < out0.len() implies lex_lt(out0[t].0, kappa) by {
        let ii = choose|ii: int|
            0 <= ii < ins.len() && h0[ii] < ins[ii].len() && ins[ii][h0[ii] as int].0 == kappa;
        assert(lex_lt(out0[t].0, ins[ii][h0[ii] as int].0));
    }
    if !dropped {
        assert(out1.last() == (kappa, stack_val(ins, kappa)));
        assert forall|i: int, j: int|
            0 <= i < j < out1.len() implies lex_lt(out1[i].0, out1[j].0) by {
            if j < out0.len() {
                assert(out1[i] == out0[i] && out1[j] == out0[j]);
            } else {
                assert(out1[i] == out0[i] && out1[j].0 == kappa);
            }
        }
        assert forall|i: int| 0 <= i < out1.len() implies valid_key(out1[i].0) by {
            if i < out0.len() {
                assert(out1[i] == out0[i]);
            }
        }
    }
    // the frontier holds again
    assert forall|t: int, i: int, j: int|
        0 <= t < out1.len() && 0 <= i < ins.len() && h1[i] <= j < ins[i].len() implies lex_lt(
        out1[t].0,
        ins[i][j].0,
    ) by {
        if t < out0.len() {
            assert(out1[t] == out0[t]);
            assert(h0[i] <= j);
        } else {
            assert(out1[t].0 == kappa);
        }
    }
    // the cut holds again
    assert forall|a: int, b: int, c: int, d: int|
        0 <= a < ins.len() && 0 <= b < h1[a] && 0 <= c < ins.len() && h1[c] <= d < ins[c].len()
            implies lex_lt(ins[a][b].0, ins[c][d].0) by {
        if b < h0[a] {
            assert(h0[c] <= d);
        } else {
            assert(b == h0[a] && h1[a] == h0[a] + 1);
            assert(ins[a][b].0 == kappa);
        }
    }
    // the forward ledger holds again
    assert forall|t: int|
        0 <= t < out1.len() implies {
        let e = #[trigger] out1[t];
        &&& stack_has(ins, e.0)
        &&& e.1 == stack_val(ins, e.0)
        &&& !(includes_oldest && stack_val(ins, e.0) is None)
    } by {
        if t < out0.len() {
            assert(out1[t] == out0[t]);
            assert(merge_fwd(ins, out0, includes_oldest));
            assert(0 <= t < out0.len());
        }
    }
    // the backward ledger holds again
    assert forall|key: Seq<u8>|
        #[trigger] consumed(ins, h1, key) && !(includes_oldest && stack_val(ins, key) is None)
            implies seq_has(out1, key) by {
        let (a, b): (int, int) = choose|a: int, b: int|
            0 <= a < ins.len() && 0 <= b < h1[a] && ins[a][b].0 == key;
        if b < h0[a] {
            assert(consumed(ins, h0, key));
            assert(seq_has(out0, key));
            let t = choose|t: int| 0 <= t < out0.len() && out0[t].0 == key;
            assert(out1[t].0 == key);
        } else {
            assert(b == h0[a] && key == kappa);
            assert(!dropped);
            assert(out1[out1.len() - 1].0 == kappa);
        }
    }
}

/// The k-way merge at the heart of compaction. The inputs are the entry
/// snapshots of the tables to merge, oldest first, each strictly
/// ascending. The output is strictly ascending and carries each key of
/// the union exactly once, bound to the newest input's value; a winning
/// tombstone is kept, unless the merge includes the store's oldest table,
/// in which case it is dropped.
pub fn merge_entries(inputs: &Vec<Vec<(Vec<u8>, Option<Record>)>>, includes_oldest: bool) -> (out:
    Vec<(Vec<u8>, Option<Record>)>)
    requires
        forall|i: int|
            0 <= i < inputs@.len() ==> entries_ok(#[trigger] entries_view(inputs@[i]@)),
    ensures
        entries_ok(entries_view(out@)),
        merge_fwd(input_views(inputs@), entries_view(out@), includes_oldest),
        forall|key: Seq<u8>|
            #[trigger] stack_has(input_views(inputs@), key) && !(includes_oldest && stack_val(
                input_views(inputs@),
                key,
            ) is None) ==> seq_has(entries_view(out@), key),
{
    let ghost ins = input_views(inputs@);
    let n = inputs.len();
    let mut heads: Vec<usize> = Vec::new();
    let mut s: usize = 0;
    while s < n
        invariant
            s <= n,
            heads@.len() == s,
            forall|j: int| 0 <= j < s ==> heads@[j] == 0,
        decreases n - s,
    {
        heads.push(0);
        s = s + 1;
    }
    let mut out: Vec<(Vec<u8>, Option<Record>)> = Vec::new();
    proof {
        assert(ins.len() == n);
        assert forall|i: int| 0 <= i < n implies entries_ok(#[trigger] ins[i]) by {
            assert(ins[i] == entries_view(inputs@[i]@));
        }
    }
    loop
        invariant
            n == inputs@.len(),
            ins == input_views(inputs@),
            ins.len() == n,
            heads@.len() == n,
            forall|i: int| 0 <= i < n ==> heads@[i] <= ins[i].len(),
            forall|i: int| 0 <= i < n ==> entries_ok(#[trigger] ins[i]),
            entries_ok(entries_view(out@)),
            entries_view(out@).len() == out@.len(),
            merge_frontier(ins, heads@, entries_view(out@)),
            merge_cut(ins, heads@),
            merge_fwd(ins, entries_view(out@), includes_oldest),
            merge_bwd(ins, heads@, entries_view(out@), includes_oldest),
        decreases rem_sum(ins, heads@, 0),
    {
        // find the smallest pending head key
        let mut best: Option<Vec<u8>> = None;
        let mut i: usize = 0;
        while i < n
            invariant
                i <= n,
                n == inputs@.len(),
                ins == input_views(inputs@),
                ins.len() == n,
                heads@.len() == n,
                forall|j: int| 0 <= j < n ==> heads@[j] <= ins[j].len(),
                match best {
                    Some(b) => {
                        &&& (exists|ii: int|
                            0 <= ii < i && heads@[ii] < ins[ii].len() && (#[trigger] ins[ii])[heads@[ii] as int].0
                                == b@)
                        &&& forall|ii: int|
                            0 <= ii < i && heads@[ii] < ins[ii].len() ==> !lex_lt(
                                (#[trigger] ins[ii])[heads@[ii] as int].0,
                                b@,
                            )
                    },
                    None => forall|ii: int| 0 <= ii < i ==> heads@[ii] >= ins[ii].len(),
                },
            decreases n - i,
        {
            if heads[i] < inputs[i].len() {
                let hk = &inputs[i][heads[i]].0;
                proof {
                    assert(ins[i as int] == entries_view(inputs@[i as int]@));
                    assert(hk@ == ins[i as int][heads@[i as int] as int].0);
                }
                let replace = match &best {
                    None => true,
                    Some(b) => match key_compare(hk.as_slice(), b.as_slice()) {
                        KeyOrder::Less => true,
                        _ => false,
                    },
                };
                if replace {
                    proof {
                        lemma_lex_total(hk@, hk@);
                        if best is Some {
                            let b0 = best.unwrap()@;
                            assert forall|ii: int|
                                0 <= ii < i + 1 && heads@[ii] < ins[ii].len() implies !lex_lt(
                                (#[trigger] ins[ii])[heads@[ii] as int].0,
                                hk@,
                            ) by {
                                if ii < i {
                                    let hv = ins[ii][heads@[ii] as int].0;
                                    lemma_lex_total(hv, b0);
                                    lemma_lex_total(hv, hk@);
                                    if lex_lt(hv, hk@) {
                                        lemma_lex_lt_trans(hv, hk@, b0);
                                    }
                                } else {
                                    lemma_lex_total(hk@, hk@);
                                }
                            }
                        }
                    }
                    best = Some(copy_bytes(hk));
                } else {
                    proof {
                        let b0 = best.unwrap()@;
                        lemma_lex_total(hk@, b0);
                    }
                }
            }
            i = i + 1;
        }
        let kappa = match best {
            None => {
                // all inputs are drained: everything was consumed
                proof {
                    assert forall|key: Seq<u8>|
                        #[trigger] stack_has(ins, key) && !(includes_oldest && stack_val(ins, key)
                            is None) implies seq_has(entries_view(out@), key) by {
                        lemma_newest_some(ins, key);
                        let w = newest_with(ins, key);
                        let j = choose|j: int| 0 <= j < ins[w].len() && ins[w][j].0 == key;
                        assert(0 <= j < heads@[w]);
                        assert(consumed(ins, heads@, key));
                    }
                }
                return out;
            },
            Some(k) => k,
        };
        let ghost kk = kappa@;
        // gather every head carrying the key, newest last, and advance them
        let ghost h0 = heads@;
        let mut versions: Vec<Entry> = Vec::new();
        let mut wjx: Ghost<int> = Ghost(-1);
        let mut i: usize = 0;
        while i < n
            invariant
                i <= n,
                n == inputs@.len(),
                ins == input_views(inputs@),
                ins.len() == n,
                heads@.len() == n,
                h0.len() == n,
                kk == kappa@,
                forall|j: int| 0 <= j < n ==> h0[j] <= ins[j].len(),
                forall|j: int| i <= j < n ==> heads@[j] == h0[j],
                forall|j: int|
                    0 <= j < i ==> #[trigger] heads@[j] as int == (if h0[j] < ins[j].len()
                        && ins[j][h0[j] as int].0 == kk {
                        h0[j] + 1
                    } else {
                        h0[j] as int
                    }),
                ({
                    let w = wjx@;
                    if versions@.len() > 0 {
                        &&& 0 <= w < i
                        &&& h0[w] < ins[w].len()
                        &&& ins[w][h0[w] as int].0 == kk
                        &&& forall|j: int|
                            w < j < i ==> !(h0[j] < ins[j].len() && (#[trigger] ins[j])[h0[j] as int].0
                                == kk)
                        &&& view_val(versions@.last().value) == ins[w][h0[w] as int].1
                    } else {
                        forall|j: int|
                            0 <= j < i ==> !(h0[j] < ins[j].len() && (#[trigger] ins[j])[h0[j] as int].0
                                == kk)
                    }
                }),
            decreases n - i,
        {
            if heads[i] < inputs[i].len() {
                let e = &inputs[i][heads[i]];
                proof {
                    assert(ins[i as int] == entries_view(inputs@[i as int]@));
                    assert(e.0@ == ins[i as int][heads@[i as int] as int].0);
                    assert(view_val(e.1) == ins[i as int][heads@[i as int] as int].1);
                }
                if bytes_eq(e.0.as_slice(), kappa.as_slice()) {
                    versions.push(Entry::new(copy_bytes(&e.0), i, dup_val(&e.1)));
                    let h = heads[i];
                    heads[i] = h + 1;
                    proof {
                        wjx@ = i as int;
                    }
                }
            }
            i = i + 1;
        }
        let winner = match versions.pop() {
            Some(w) => w,
            None => {
                proof {
                    assert(false);
                }
                return out;
            },
        };
        proof {
            let w = wjx@;
            // the key's occurrences sit exactly at the matching heads
            assert forall|j: int, t: int|
                0 <= j < n && 0 <= t < ins[j].len() && #[trigger] ins[j][t].0
                    == kk implies t == h0[j] by {
                let ii = choose|ii: int|
                    0 <= ii < n && h0[ii] < ins[ii].len() && ins[ii][h0[ii] as int].0 == kk;
                if t < h0[j] {
                    assert(lex_lt(ins[j][t].0, ins[ii][h0[ii] as int].0));
                    lemma_lex_total(kk, kk);
                } else if t > h0[j] {
                    assert(h0[j] < ins[j].len());
                    assert(lex_lt(ins[j][h0[j] as int].0, ins[j][t].0));
                    assert(!lex_lt(ins[j][h0[j] as int].0, kk));
                }
            }
            // so the newest carrier is the last matching head
            assert(seq_has(ins[w], kk));
            assert forall|j: int| w < j < n implies !seq_has(#[trigger] ins[j], kk) by {
                if seq_has(ins[j], kk) {
                    let t = choose|t: int| 0 <= t < ins[j].len() && ins[j][t].0 == kk;
                }
            }
            lemma_newest_with(ins, kk, w);
            lemma_seq_find_at(ins[w], kk, h0[w] as int, 0);
            assert(stack_val(ins, kk) == ins[w][h0[w] as int].1);
            assert(view_val(winner.value) == stack_val(ins, kk));
            // the remainder shrinks
            assert forall|j: int| 0 <= j < n implies #[trigger] h0[j] <= heads@[j] <= ins[j].len() by {
                assert(heads@[j] as int == (if h0[j] < ins[j].len() && ins[j][h0[j] as int].0 == kk {
                    h0[j] + 1
                } else {
                    h0[j] as int
                }));
            }
            let ii0 = choose|ii: int|
                0 <= ii < n && h0[ii] < ins[ii].len() && ins[ii][h0[ii] as int].0 == kk;
            assert(heads@[ii0] > h0[ii0]);
            lemma_rem_sum_dec(ins, h0, heads@, 0, ii0);
            lemma_rem_sum_nonneg(ins, heads@, 0);
            lemma_rem_sum_nonneg(ins, h0, 0);
            assert(valid_key(kk));
        }
        let ghost prev_out = entries_view(out@);
        if includes_oldest && winner.value.is_none() {
            proof {
                restore_invariants(ins, h0, heads@, prev_out, prev_out, kk, includes_oldest);
            }
        } else {
            out.push((kappa, winner.value));
            proof {
                assert(entries_view(out@) =~= prev_out.push((kk, stack_val(ins, kk))));
                restore_invariants(
                    ins,
                    h0,
                    heads@,
                    prev_out,
                    entries_view(out@),
                    kk,
                    includes_oldest,
                );
            }
        }
    }
}

/// The entry snapshots of a set of tables, oldest first.
pub open spec fn tables_entries(tables: Seq<SSTable>, images: Seq<TableImage>, k: int) -> Seq<
    Seq<(Seq<u8>, Option<RecordV>)>,
> {
    Seq::new(
        tables.len(),
        |i: int| table_entries(images[i].index@, images[i].storage@, k, tables[i]@.count),
    )
}

/// Runs one compaction: reads the given tables back, oldest first, merges
/// them with the newest value winning per key — dropping tombstones only
/// when the set includes the store's oldest table — and builds one new
/// table at the given paths. An empty result means every surviving key
/// was a dropped tombstone, and no table is built.
pub fn compact(
    tables: &Vec<SSTable>,
    images: &Vec<TableImage>,
    includes_oldest: bool,
    serializer: &BinarySerializationEngine,
    config: &Config,
    new_storage_path: Vec<u8>,
    new_index_path: Vec<u8>,
) -> (r: Result<(SSTable, TableImage), SSTableError>)
    requires
        config.wf(),
        tables@.len() == images@.len(),
        forall|i: int|
            0 <= i < tables@.len() ==> table_wf(
                #[trigger] tables@[i]@,
                images@[i].index@,
                images@[i].storage@,
                config.index_key_string_size as int,
            ),
    ensures
        match r {
            Ok((desc, files)) => {
                &&& table_wf(
                    desc@,
                    files.index@,
                    files.storage@,
                    config.index_key_string_size as int,
                )
                &&& desc@.storage_path == new_storage_path@
                &&& desc@.index_path == new_index_path@
                &&& desc@.min.len() <= config.index_key_string_size as int
                &&& desc@.max.len() <= config.index_key_string_size as int
                &&& exists|merged: Seq<(Seq<u8>, Option<RecordV>)>|
                    {
                        &&& #[trigger] trunc_entries(merged, config.index_key_string_size as int)
                            == table_entries(
                            files.index@,
                            files.storage@,
                            config.index_key_string_size as int,
                            desc@.count,
                        )
                        &&& forall|i: int, j: int|
                            0 <= i < j < desc@.count ==> crate::sstable::table::table_off(
                                files.index@,
                                config.index_key_string_size as int,
                                i,
                            ) < crate::sstable::table::table_off(
                                files.index@,
                                config.index_key_string_size as int,
                                j,
                            )
                        &&& entries_ok(merged)
                        &&& merged.len() == desc@.count
                        &&& merge_fwd(
                            tables_entries(tables@, images@, config.index_key_string_size as int),
                            merged,
                            includes_oldest,
                        )
                        &&& forall|key: Seq<u8>|
                            #[trigger] stack_has(
                                tables_entries(
                                    tables@,
                                    images@,
                                    config.index_key_string_size as int,
                                ),
                                key,
                            ) && !(includes_oldest && stack_val(
                                tables_entries(
                                    tables@,
                                    images@,
                                    config.index_key_string_size as int,
                                ),
                                key,
                            ) is None) ==> seq_has(merged, key)
                    }
            },
            Err(e) => e == SSTableError::EmptyMemtableError && forall|key: Seq<u8>| #[trigger]
                stack_has(
                    tables_entries(tables@, images@, config.index_key_string_size as int),
                    key,
                ) ==> includes_oldest && stack_val(
                    tables_entries(tables@, images@, config.index_key_string_size as int),
                    key,
                ) is None,
        },
{
    let k = config.index_key_string_size;
    let ghost ki = k as int;
    let ghost ins = tables_entries(tables@, images@, ki);
    let n = tables.len();
    let mut snaps: Vec<Vec<(Vec<u8>, Option<Record>)>> = Vec::new();
    let mut i: usize = 0;
    while i < n
        invariant
            i <= n,
            n == tables@.len(),
            n == images@.len(),
            ki == k as int,
            k == config.index_key_string_size,
            config.wf(),
            ins == tables_entries(tables@, images@, ki),
            snaps@.len() == i,
            forall|j: int|
                0 <= j < n ==> table_wf(
                    #[trigger] tables@[j]@,
                    images@[j].index@,
                    images@[j].storage@,
                    ki,
                ),
            forall|j: int| 0 <= j < i ==> entries_view(#[trigger] snaps@[j]@) == ins[j],
        decreases n - i,
    {
        match crate::sstable::table::read_entries(&tables[i], &images[i], config, serializer) {
            Ok(v) => {
                proof {
                    assert(ins[i as int] == table_entries(
                        images@[i as int].index@,
                        images@[i as int].storage@,
                        ki,
                        tables@[i as int]@.count,
                    ));
                }
                snaps.push(v);
            },
            Err(_) => {
                proof {
                    assert(table_wf(
                        tables@[i as int]@,
                        images@[i as int].index@,
                        images@[i as int].storage@,
                        ki,
                    ));
                    assert(false);
                }
                return Err(SSTableError::EncodingError);
            },
        }
        i = i + 1;
    }
    proof {
        assert(input_views(snaps@) =~= ins);
        assert forall|j: int| 0 <= j < n implies entries_ok(#[trigger] entries_view(snaps@[j]@)) by {
            assert(entries_view(snaps@[j]@) == ins[j]);
            let e = ins[j];
            let img = images@[j];
            let d = tables@[j]@;
            assert forall|a: int, b: int| 0 <= a < b < e.len() implies lex_lt(
                #[trigger] e[a].0,
                #[trigger] e[b].0,
            ) by {
                assert(e[a].0 == crate::sstable::table::table_key(img.index@, ki, a));
                assert(e[b].0 == crate::sstable::table::table_key(img.index@, ki, b));
            }
            assert forall|a: int| 0 <= a < e.len() implies valid_key(#[trigger] e[a].0) by {
                assert(crate::sstable::table::entry_ok(img.index@, img.storage@, ki, a));
                assert(e[a].0 == crate::sstable::table::table_key(img.index@, ki, a));
            }
        }
    }
    let merged = merge_entries(&snaps, includes_oldest);
    let ghost mv = entries_view(merged@);
    proof {
        assert forall|a: int, b: int|
            0 <= a < b < merged@.len() implies lex_lt(
            #[trigger] merged@[a].0@,
            #[trigger] merged@[b].0@,
        ) by {
            assert(mv[a].0 == merged@[a].0@ && mv[b].0 == merged@[b].0@);
        }
        assert forall|a: int| 0 <= a < merged@.len() implies valid_key(
            #[trigger] merged@[a].0@,
        ) by {
            assert(mv[a].0 == merged@[a].0@);
        }
    }
    proof {
        // every merged key comes from some input entry, and table entries
        // fit their slot, so truncation changes nothing and the snapshot
        // stays strictly ascending after it
        assert forall|t: int| 0 <= t < mv.len() implies #[trigger] mv[t].0.len() <= ki by {
            assert(stack_has(ins, mv[t].0));
            lemma_newest_some(ins, mv[t].0);
            let w = newest_with(ins, mv[t].0);
            let j = choose|j: int| 0 <= j < ins[w].len() && ins[w][j].0 == mv[t].0;
            assert(crate::sstable::table::entry_ok(
                images@[w].index@,
                images@[w].storage@,
                ki,
                j,
            ));
            assert(ins[w][j].0 == crate::sstable::table::table_key(images@[w].index@, ki, j));
        }
        assert forall|t: int|
            0 <= t < mv.len() - 1 implies crate::sstable::table::trunc_key(
            #[trigger] mv[t].0,
            ki,
        ) != crate::sstable::table::trunc_key(mv[t + 1].0, ki) by {
            assert(lex_lt(mv[t].0, mv[t + 1].0));
            crate::keys::lemma_lex_total(mv[t].0, mv[t + 1].0);
        }
        assert forall|t: int|
            0 <= t < merged@.len() - 1 implies crate::sstable::table::trunc_key(
            #[trigger] merged@[t].0@,
            ki,
        ) != crate::sstable::table::trunc_key(merged@[t + 1].0@, ki) by {
            assert(mv[t].0 == merged@[t].0@ && mv[t + 1].0 == merged@[t + 1].0@);
        }
        // a winning live record is some input entry's stored value, whose
        // key resolves to that entry's slot key — the merged key itself
        assert forall|t: int|
            0 <= t < merged@.len() implies match view_val(#[trigger] merged@[t].1) {
            Some(rv) => crate::sstable::table::trunc_key(rv.key, ki)
                == crate::sstable::table::trunc_key(merged@[t].0@, ki),
            None => true,
        } by {
            assert(mv[t].0 == merged@[t].0@ && mv[t].1 == view_val(merged@[t].1));
            match view_val(merged@[t].1) {
                Some(rv) => {
                    assert(stack_has(ins, mv[t].0) && mv[t].1 == stack_val(ins, mv[t].0));
                    lemma_newest_some(ins, mv[t].0);
                    let w = newest_with(ins, mv[t].0);
                    lemma_seq_find_some(ins[w], mv[t].0);
                    let f = seq_find(ins[w], mv[t].0, 0);
                    assert(ins[w] == table_entries(
                        images@[w].index@,
                        images@[w].storage@,
                        ki,
                        tables@[w]@.count,
                    ));
                    assert(ins[w][f].1 == crate::sstable::table::table_val(
                        images@[w].index@,
                        images@[w].storage@,
                        ki,
                        f,
                    ));
                    assert(ins[w][f].0 == crate::sstable::table::table_key(
                        images@[w].index@,
                        ki,
                        f,
                    ));
                    assert(crate::sstable::table::entry_ok(
                        images@[w].index@,
                        images@[w].storage@,
                        ki,
                        f,
                    ));
                    assert(crate::sstable::table::trunc_key(rv.key, ki) == mv[t].0);
                    assert(crate::sstable::table::trunc_key(mv[t].0, ki) == mv[t].0);
                },
                None => {},
            }
        }
    }
    match SSTable::create(new_storage_path, new_index_path, &merged, serializer, config) {
        Ok((desc, files)) => {
            proof {
                assert(trunc_entries(mv, ki) == table_entries(
                    files.index@,
                    files.storage@,
                    ki,
                    desc@.count,
                ));
                assert(desc@.min == mv[0].0);
                assert(desc@.max == mv[mv.len() - 1].0);
                assert(1 <= mv.len());
                assert(desc@.min.len() <= ki && desc@.max.len() <= ki);
            }
            Ok((desc, files))
        },
        Err(e) => {
            match e {
                SSTableError::EmptyMemtableError => {
                    proof {
                        assert(merged@.len() == 0);
                        assert forall|key: Seq<u8>| #[trigger]
                            stack_has(ins, key) implies includes_oldest && stack_val(ins, key)
                            is None by {
                            if !(includes_oldest && stack_val(ins, key) is None) {
                                assert(seq_has(mv, key));
                                let t = choose|t: int| 0 <= t < mv.len() && mv[t].0 == key;
                            }
                        }
                    }
                    Err(SSTableError::EmptyMemtableError)
                },
                _ => {
                    proof {
                        assert(false);
                    }
                    Err(SSTableError::EmptyMemtableError)
                },
            }
        },
    }
}

/// Tombstone survival: a merge that does not include the store's oldest
/// table keeps every winning tombstone in its output.
pub proof fn lemma_tombstone_survival(
    ins: Seq<Seq<(Seq<u8>, Option<RecordV>)>>,
    outv: Seq<(Seq<u8>, Option<RecordV>)>,
    key: Seq<u8>,
)
    requires
        merge_fwd(ins, outv, false),
        forall|k2: Seq<u8>|
            #[trigger] stack_has(ins, k2) && !(false && stack_val(ins, k2) is None) ==> seq_has(
                outv,
                k2,
            ),
        stack_has(ins, key),
        stack_val(ins, key) is None,
    ensures
        exists|t: int| 0 <= t < outv.len() && outv[t].0 == key && outv[t].1 is None,
{
    assert(seq_has(outv, key));
    let t = choose|t: int| 0 <= t < outv.len() && outv[t].0 == key;
    assert(outv[t].1 == stack_val(ins, outv[t].0));
}

} // verus!
