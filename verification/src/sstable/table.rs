//! The sorted-string table: an immutable pair of byte images — a storage
//! file of encoded values in ascending key order, and an index file of
//! fixed-stride entries, each a zero-padded key slot of `K` bytes followed
//! by a little-endian 8-byte offset into the storage file — together with
//! the descriptor kept in the manifest.
//!
//! Keys longer than a slot are truncated on write, so a table resolves
//! such keys only up to their first `K` bytes; the point lookup reads the
//! stored value and, for a live record, lets the record's own key decide.

use vstd::prelude::*;

use crate::config::Config;
use crate::keys::{
    bytes_eq, check_valid_key, key_compare, lemma_lex_from_prefix, lemma_lex_lt_trans,
    lemma_lex_total, lex_le, lex_lt, valid_key, KeyOrder,
};
use crate::numbers::{le64, push_le64, read_le64};
use crate::record::{entries_view, view_val, Record, RecordV};
use crate::serialization::{BinarySerializationEngine, SerializationEngine, dec_val, enc_val, val_chunk_good};
use crate::sstable::error::SSTableError;

verus! {

/// Mathematical view of a table descriptor.
pub struct SSTableV {
    pub storage_path: Seq<u8>,
    pub index_path: Seq<u8>,
    pub min: Seq<u8>,
    pub max: Seq<u8>,
    pub size: int,
    pub count: int,
}

/// A table descriptor: where the two files live, the key extremes present
/// in the table, the storage file length, and the number of entries.
///
/// `min` and `max` are the raw first and last input keys the table was
/// built from. A key wider than a slot exists on disk only cut to the
/// slot width (a tombstone's raw key nowhere at all), so at open only
/// the extremes' slot-width prefixes can be re-checked against the index
/// file; the manifest carries the raw form across restarts.
pub struct SSTable {
    pub storage_path: Vec<u8>,
    pub index_path: Vec<u8>,
    pub min: Vec<u8>,
    pub max: Vec<u8>,
    pub size: usize,
    pub count: usize,
}

impl View for SSTable {
    type V = SSTableV;

    open spec fn view(&self) -> SSTableV {
        SSTableV {
            storage_path: self.storage_path@,
            index_path: self.index_path@,
            min: self.min@,
            max: self.max@,
            size: self.size as int,
            count: self.count as int,
        }
    }
}

/// The byte images of a table's two files.
pub struct TableImage {
    pub storage: Vec<u8>,
    pub index: Vec<u8>,
}

/// `n` zero bytes.
pub open spec fn zeros(n: int) -> Seq<u8> {
    Seq::new(if n < 0 { 0nat } else { n as nat }, |i: int| 0u8)
}

/// A key as an index slot of width `k`: truncated or right-padded with
/// zero bytes to exactly `k` bytes.
pub open spec fn pad_key(key: Seq<u8>, k: int) -> Seq<u8> {
    if key.len() >= k {
        key.take(k)
    } else {
        key + zeros(k - key.len())
    }
}

/// A key as a table resolves it: unchanged if it fits a slot, else its
/// first `k` bytes.
pub open spec fn trunc_key(key: Seq<u8>, k: int) -> Seq<u8> {
    if key.len() <= k {
        key
    } else {
        key.take(k)
    }
}

/// A slot read back: the trailing zero padding removed.
pub open spec fn strip_nul(s: Seq<u8>) -> Seq<u8>
    decreases s.len(),
{
    if s.len() == 0 {
        s
    } else if s[s.len() - 1] == 0 {
        strip_nul(s.drop_last())
    } else {
        s
    }
}

/// The little-endian value of an 8-byte sequence.
pub open spec fn le64_val(b: Seq<u8>) -> u64 {
    (b[0] as u64) | ((b[1] as u64) << 8) | ((b[2] as u64) << 16) | ((b[3] as u64) << 24) | ((
    b[4] as u64) << 32) | ((b[5] as u64) << 40) | ((b[6] as u64) << 48) | ((b[7] as u64) << 56)
}

/// Reading back the eight bytes of `x` gives `x`.
pub proof fn lemma_le64_val(x: u64)
    ensures
        le64_val(le64(x)) == x,
{
    let b = le64(x);
    assert(((x & 0xff) as u8 as u64) | (((x >> 8) & 0xff) as u8 as u64) << 8 | (((x >> 16)
        & 0xff) as u8 as u64) << 16 | (((x >> 24) & 0xff) as u8 as u64) << 24 | (((x >> 32)
        & 0xff) as u8 as u64) << 32 | (((x >> 40) & 0xff) as u8 as u64) << 40 | (((x >> 48)
        & 0xff) as u8 as u64) << 48 | (((x >> 56) & 0xff) as u8 as u64) << 56 == x) by (bit_vector);
}

/// Stripping ignores appended zero padding.
pub proof fn lemma_strip_zeros(s: Seq<u8>, n: int)
    requires
        0 <= n,
    ensures
        strip_nul(s + zeros(n)) == strip_nul(s),
    decreases n,
{
    if n == 0 {
        assert(s + zeros(0) =~= s);
    } else {
        let w = s + zeros(n);
        assert(w[w.len() - 1] == 0);
        assert(w.drop_last() =~= s + zeros(n - 1));
        lemma_strip_zeros(s, n - 1);
    }
}

/// A sequence whose last byte is not zero strips to itself.
pub proof fn lemma_strip_keeps(s: Seq<u8>)
    requires
        s.len() == 0 || s[s.len() - 1] != 0,
    ensures
        strip_nul(s) == s,
{
}

/// Reading a valid key's slot back gives the key as the table resolves
/// it, which is again a valid key.
pub proof fn lemma_strip_pad(key: Seq<u8>, k: int)
    requires
        valid_key(key),
        1 <= k,
    ensures
        strip_nul(pad_key(key, k)) == trunc_key(key, k),
        valid_key(trunc_key(key, k)),
        trunc_key(key, k).len() <= k,
        pad_key(key, k).len() == k,
{
    if key.len() >= k {
        assert(key.take(k)[k - 1] == key[k - 1]);
        assert(key[k - 1] > 32);
        lemma_strip_keeps(key.take(k));
    } else {
        lemma_strip_zeros(key, k - key.len());
        assert(key[key.len() - 1] > 32);
        lemma_strip_keeps(key);
    }
}

/// Truncation keeps the key order, weakly.
pub proof fn lemma_trunc_mono(a: Seq<u8>, b: Seq<u8>, k: int)
    requires
        lex_le(a, b),
        0 <= k,
    ensures
        lex_le(trunc_key(a, k), trunc_key(b, k)),
    decreases k,
{
    if a == b {
        return ;
    }
    let ta = trunc_key(a, k);
    let tb = trunc_key(b, k);
    if k == 0 {
        assert(ta =~= tb);
        return ;
    }
    if a.len() == 0 {
        if tb.len() > 0 {
            assert(lex_lt(ta, tb));
        } else {
            assert(ta =~= tb);
        }
        return ;
    }
    assert(b.len() > 0);
    assert(ta.len() > 0 && tb.len() > 0);
    assert(ta[0] == a[0] && tb[0] == b[0]);
    if a[0] < b[0] {
        assert(lex_lt(ta, tb));
    } else {
        assert(a[0] == b[0]);
        lemma_trunc_mono(a.skip(1), b.skip(1), k - 1);
        assert(ta.skip(1) =~= trunc_key(a.skip(1), k - 1));
        assert(tb.skip(1) =~= trunc_key(b.skip(1), k - 1));
        if ta.skip(1) == tb.skip(1) {
            assert forall|j: int| 0 <= j < ta.len() implies ta[j] == tb[j] by {
                if j > 0 {
                    assert(ta[j] == ta.skip(1)[j - 1]);
                    assert(tb[j] == tb.skip(1)[j - 1]);
                }
            }
            assert(ta =~= tb);
        } else {
            assert(lex_lt(ta.skip(1), tb.skip(1)));
            assert(lex_lt(ta, tb));
        }
    }
}

/// The key slot of entry `i` in an index image.
pub open spec fn slot_at(index: Seq<u8>, k: int, i: int) -> Seq<u8> {
    index.subrange(i * (k + 8), i * (k + 8) + k)
}

/// The key of entry `i`, as the table resolves it.
pub open spec fn table_key(index: Seq<u8>, k: int, i: int) -> Seq<u8> {
    strip_nul(slot_at(index, k, i))
}

/// The storage offset of entry `i`.
pub open spec fn table_off(index: Seq<u8>, k: int, i: int) -> int {
    le64_val(index.subrange(i * (k + 8) + k, (i + 1) * (k + 8))) as int
}

/// The stored value of entry `i`: a live record or a tombstone.
pub open spec fn table_val(index: Seq<u8>, storage: Seq<u8>, k: int, i: int) -> Option<RecordV> {
    match dec_val(storage.skip(table_off(index, k, i))) {
        Some((v, n)) => v,
        None => None,
    }
}

/// Whether entry `i` reads back: its key is valid, its offset decodes to
/// a stored value, and a live record sits under its own key — the
/// record's key resolves to exactly this entry's slot key.
pub open spec fn entry_ok(index: Seq<u8>, storage: Seq<u8>, k: int, i: int) -> bool {
    &&& valid_key(table_key(index, k, i))
    &&& table_key(index, k, i).len() <= k
    &&& 0 <= table_off(index, k, i) <= storage.len()
    &&& dec_val(storage.skip(table_off(index, k, i))) is Some
    &&& match table_val(index, storage, k, i) {
        Some(r) => trunc_key(r.key, k) == table_key(index, k, i),
        None => true,
    }
}

/// A well-formed table: the index is exactly `count` entries wide — the
/// index stride invariant — every entry reads back, keys ascend strictly,
/// the descriptor carries the storage length and the entry count, and the
/// descriptor's raw key extremes resolve to the first and last slot keys.
pub open spec fn table_wf(desc: SSTableV, index: Seq<u8>, storage: Seq<u8>, k: int) -> bool {
    &&& 1 <= k
    &&& 1 <= desc.count
    &&& index.len() == desc.count * (k + 8)
    &&& desc.size == storage.len()
    &&& forall|i: int| 0 <= i < desc.count ==> entry_ok(index, storage, k, i)
    &&& forall|i: int, j: int|
        0 <= i < j < desc.count ==> lex_lt(
            table_key(index, k, i),
            table_key(index, k, j),
        )
    &&& trunc_key(desc.min, k) == table_key(index, k, 0)
    &&& trunc_key(desc.max, k) == table_key(index, k, desc.count - 1)
}

/// The first entry at or after `i` whose key is exactly `key`; `n` if
/// there is none.
pub open spec fn find_eq(index: Seq<u8>, k: int, n: int, key: Seq<u8>, i: int) -> int
    decreases n - i,
{
    if i < 0 || i >= n {
        n
    } else if table_key(index, k, i) == key {
        i
    } else {
        find_eq(index, k, n, key, i + 1)
    }
}

/// What the point lookup returns on a well-formed table: nothing when the
/// key falls outside the table's range or no entry carries it; the entry's
/// tombstone; or the entry's live record, provided the record's own key
/// agrees — for a key that was truncated on write, the storage decides.
pub open spec fn table_lookup(
    desc: SSTableV,
    index: Seq<u8>,
    storage: Seq<u8>,
    k: int,
    key: Seq<u8>,
) -> Option<Option<RecordV>> {
    if lex_lt(key, desc.min) || lex_lt(desc.max, key) {
        None
    } else {
        let i = find_eq(index, k, desc.count, key, 0);
        if i < desc.count {
            match table_val(index, storage, k, i) {
                None => Some(None),
                Some(rv) => if rv.key == key {
                    Some(Some(rv))
                } else {
                    None
                },
            }
        } else {
            None
        }
    }
}

/// The entries of a well-formed table, oldest slot first.
pub open spec fn table_entries(index: Seq<u8>, storage: Seq<u8>, k: int, n: int) -> Seq<
    (Seq<u8>, Option<RecordV>),
> {
    Seq::new(
        if n < 0 {
            0nat
        } else {
            n as nat
        },
        |i: int| (table_key(index, k, i), table_val(index, storage, k, i)),
    )
}

/// A snapshot's entries with each key as the table will resolve it.
pub open spec fn trunc_entries(s: Seq<(Seq<u8>, Option<RecordV>)>, k: int) -> Seq<
    (Seq<u8>, Option<RecordV>),
> {
    s.map_values(|e: (Seq<u8>, Option<RecordV>)| (trunc_key(e.0, k), e.1))
}

/// Appends a key as a slot of exactly `k` bytes, zero-padded.
fn push_slot(out: &mut Vec<u8>, key: &Vec<u8>, k: usize)
    ensures
        final(out)@ == old(out)@ + pad_key(key@, k as int),
{
    let ghost prior = out@;
    let ghost slot = pad_key(key@, k as int);
    proof {
        assert(slot.len() == k);
        assert forall|j: int| 0 <= j < k implies slot[j] == (if j < key@.len() {
            key@[j]
        } else {
            0u8
        }) by {
            if key@.len() >= k as int {
                assert(slot[j] == key@[j]);
            } else {
                if j < key@.len() {
                    assert(slot[j] == key@[j]);
                } else {
                    assert(slot[j] == zeros(k - key@.len())[j - key@.len()]);
                }
            }
        }
    }
    let mut j: usize = 0;
    while j < k
        invariant
            j <= k,
            slot == pad_key(key@, k as int),
            slot.len() == k,
            forall|x: int|
                0 <= x < k ==> slot[x] == (if x < key@.len() {
                    key@[x]
                } else {
                    0u8
                }),
            out@ == prior + slot.take(j as int),
        decreases k - j,
    {
        if j < key.len() {
            out.push(key[j]);
        } else {
            out.push(0);
        }
        proof {
            assert(prior + slot.take(j + 1 as int) =~= (prior + slot.take(j as int)).push(
                slot[j as int],
            ));
        }
        j = j + 1;
    }
    proof {
        assert(prior + slot.take(k as int) =~= prior + slot);
    }
}

/// A key as the table will resolve it: a copy of at most its first `k`
/// bytes.
pub fn trunc_exec(key: &Vec<u8>, k: usize) -> (r: Vec<u8>)
    ensures
        r@ == trunc_key(key@, k as int),
{
    let n = if key.len() <= k {
        key.len()
    } else {
        k
    };
    let mut r: Vec<u8> = Vec::new();
    let mut i: usize = 0;
    while i < n
        invariant
            i <= n,
            n <= key@.len(),
            n == (if key@.len() <= k as int {
                key@.len() as int
            } else {
                k as int
            }),
            r@ == trunc_key(key@, k as int).take(i as int),
        decreases n - i,
    {
        r.push(key[i]);
        proof {
            let t = trunc_key(key@, k as int);
            assert(t[i as int] == key@[i as int]);
            assert(t.take(i + 1 as int) =~= t.take(i as int).push(t[i as int]));
        }
        i = i + 1;
    }
    proof {
        assert(trunc_key(key@, k as int).take(n as int) =~= trunc_key(key@, k as int));
    }
    r
}

impl SSTable {
    /// Builds a table from a non-empty snapshot of bindings in strictly
    /// ascending key order — each live record filed under a key that
    /// resolves to its own — by streaming the encoded values into the
    /// storage image while recording their offsets, then writing one
    /// fixed-stride index entry per binding. The images read back as the
    /// snapshot with each key resolved to its slot width, the index
    /// length is exactly `count` strides, and the descriptor's extremes
    /// are the raw first and last input keys.
    pub fn create(
        storage_path: Vec<u8>,
        index_path: Vec<u8>,
        entries: &Vec<(Vec<u8>, Option<Record>)>,
        serializer: &BinarySerializationEngine,
        config: &Config,
    ) -> (r: Result<(SSTable, TableImage), SSTableError>)
        requires
            config.wf(),
            forall|i: int, j: int|
                0 <= i < j < entries@.len() ==> lex_lt(entries@[i].0@, entries@[j].0@),
            forall|i: int| 0 <= i < entries@.len() ==> valid_key(#[trigger] entries@[i].0@),
            forall|i: int|
                0 <= i < entries@.len() ==> match view_val(#[trigger] entries@[i].1) {
                    Some(rv) => trunc_key(rv.key, config.index_key_string_size as int)
                        == trunc_key(entries@[i].0@, config.index_key_string_size as int),
                    None => true,
                },
        ensures
            match r {
                Ok((desc, files)) => {
                    &&& table_wf(
                        desc@,
                        files.index@,
                        files.storage@,
                        config.index_key_string_size as int,
                    )
                    &&& desc@.storage_path == storage_path@
                    &&& desc@.index_path == index_path@
                    &&& desc@.count == entries@.len()
                    &&& desc@.min == entries@[0].0@
                    &&& desc@.max == entries@[entries@.len() - 1].0@
                    &&& table_entries(files.index@, files.storage@,
                        config.index_key_string_size as int, desc@.count) == trunc_entries(
                        entries_view(entries@),
                        config.index_key_string_size as int,
                    )
                    &&& forall|i: int, j: int|
                        0 <= i < j < desc@.count ==> table_off(
                            files.index@,
                            config.index_key_string_size as int,
                            i,
                        ) < table_off(files.index@, config.index_key_string_size as int, j)
                },
                Err(e) => {
                    ||| (e == SSTableError::EmptyMemtableError && entries@.len() == 0)
                    ||| (e == SSTableError::EncodingError && exists|i: int|
                        0 <= i < entries@.len() - 1 && trunc_key(
                            #[trigger] entries@[i].0@,
                            config.index_key_string_size as int,
                        ) == trunc_key(entries@[i + 1].0@, config.index_key_string_size as int))
                },
            },
            (entries@.len() >= 1 && forall|i: int|
                0 <= i < entries@.len() - 1 ==> trunc_key(
                    #[trigger] entries@[i].0@,
                    config.index_key_string_size as int,
                ) != trunc_key(entries@[i + 1].0@, config.index_key_string_size as int)) ==> r
                is Ok,
    {
        let k = config.index_key_string_size;
        let ghost tkeys = Seq::new(
            entries@.len(),
            |t: int| trunc_key(entries@[t].0@, k as int),
        );
        if entries.len() == 0 {
            return Err(SSTableError::EmptyMemtableError);
        }
        // keys that collide once truncated to the slot width cannot be
        // told apart by the index, so such a snapshot is refused
        let mut c: usize = 1;
        while c < entries.len()
            invariant
                1 <= c <= entries@.len(),
                1 <= k,
                tkeys == Seq::new(
                    entries@.len(),
                    |t: int| trunc_key(entries@[t].0@, k as int),
                ),
                k == config.index_key_string_size,
                forall|i: int, j: int|
                    0 <= i < j < entries@.len() ==> lex_lt(entries@[i].0@, entries@[j].0@),
                forall|i: int| 0 <= i < entries@.len() ==> valid_key(#[trigger] entries@[i].0@),
                forall|t: int| 0 <= t < c - 1 ==> lex_lt(#[trigger] tkeys[t], tkeys[t + 1]),
            decreases entries@.len() - c,
        {
            let tp = trunc_exec(&entries[c - 1].0, k);
            let tc = trunc_exec(&entries[c].0, k);
            match key_compare(tp.as_slice(), tc.as_slice()) {
                KeyOrder::Less => {},
                KeyOrder::Equal => {
                    return Err(SSTableError::EncodingError);
                },
                KeyOrder::Greater => {
                    proof {
                        lemma_trunc_mono(entries@[c - 1].0@, entries@[c as int].0@, k as int);
                        lemma_lex_total(tp@, tc@);
                        assert(false);
                    }
                    return Err(SSTableError::EncodingError);
                },
            }
            c = c + 1;
        }
        let mut storage: Vec<u8> = Vec::new();
        let mut offsets: Vec<u64> = Vec::new();
        let mut i: usize = 0;
        while i < entries.len()
            invariant
                i <= entries@.len(),
                offsets@.len() == i,
                forall|j: int|
                    0 <= j < i ==> {
                        let off = #[trigger] offsets@[j] as int;
                        let c = enc_val(view_val(entries@[j].1));
                        &&& off + c.len() <= storage@.len()
                        &&& 0 <= off
                        &&& storage@.subrange(off, off + c.len()) == c
                        &&& val_chunk_good(view_val(entries@[j].1))
                    },
                forall|a: int, b: int|
                    #![trigger offsets@[a], offsets@[b]]
                    0 <= a < b < i ==> offsets@[a] < offsets@[b],
            decreases entries@.len() - i,
        {
            let e = &entries[i];
            let off: u64 = storage.len() as u64;
            let chunk = serializer.serialize_val(&e.1);
            let ghost prior = storage@;
            crate::record::append_bytes(&mut storage, &chunk);
            offsets.push(off);
            proof {
                assert forall|j: int|
                    0 <= j < i + 1 implies {
                    let o = #[trigger] offsets@[j] as int;
                    let c = enc_val(view_val(entries@[j].1));
                    &&& o + c.len() <= storage@.len()
                    &&& 0 <= o
                    &&& storage@.subrange(o, o + c.len()) == c
                    &&& val_chunk_good(view_val(entries@[j].1))
                } by {
                    let o = offsets@[j] as int;
                    let c = enc_val(view_val(entries@[j].1));
                    if j < i {
                        assert(storage@.subrange(o, o + c.len()) =~= prior.subrange(
                            o,
                            o + c.len(),
                        ));
                    } else {
                        assert(storage@.subrange(o, o + c.len()) =~= chunk@);
                    }
                }
                assert forall|a: int, b: int|
                    #![trigger offsets@[a], offsets@[b]]
                    0 <= a < b < i + 1 implies offsets@[a] < offsets@[b] by {
                    if b == i as int {
                        let c = enc_val(view_val(entries@[a].1));
                        assert(offsets@[a] + c.len() <= prior.len());
                        assert(1 <= c.len());
                    }
                }
            }
            i = i + 1;
        }
        let ghost final_storage = storage@;
        let mut index: Vec<u8> = Vec::new();
        let mut w: usize = 0;
        while w < entries.len()
            invariant
                w <= entries@.len(),
                offsets@.len() == entries@.len(),
                1 <= k,
                forall|i: int| 0 <= i < entries@.len() ==> valid_key(#[trigger] entries@[i].0@),
                index@.len() == w * (k as int + 8),
                forall|j: int|
                    0 <= j < w ==> slot_at(index@, k as int, j) == pad_key(
                        #[trigger] entries@[j].0@,
                        k as int,
                    ),
                forall|j: int|
                    0 <= j < w ==> index@.subrange(
                        j * (k as int + 8) + k as int,
                        (j + 1) * (k as int + 8),
                    ) == le64(#[trigger] offsets@[j]),
            decreases entries@.len() - w,
        {
            let e = &entries[w];
            let ghost prior = index@;
            push_slot(&mut index, &e.0, k);
            push_le64(&mut index, offsets[w]);
            proof {
                let ki = k as int;
                assert(index@.len() == (w + 1) * (ki + 8)) by (nonlinear_arith)
                    requires
                        index@.len() == prior.len() + ki + 8,
                        prior.len() == w * (ki + 8),
                ;
                assert forall|j: int|
                    0 <= j < w + 1 implies slot_at(index@, ki, j) == pad_key(
                    #[trigger] entries@[j].0@,
                    ki,
                ) && index@.subrange(j * (ki + 8) + ki, (j + 1) * (ki + 8)) == le64(
                    offsets@[j],
                ) by {
                    assert(0 <= j * (ki + 8) && (j + 1) * (ki + 8) <= index@.len()) by (
                    nonlinear_arith)
                        requires
                            0 <= j < w + 1,
                            index@.len() == (w + 1) * (ki + 8),
                            1 <= ki,
                    ;
                    if j < w {
                        assert(0 <= j * (ki + 8) && j * (ki + 8) + ki <= (j + 1) * (ki + 8) && (j
                            + 1) * (ki + 8) <= prior.len()) by (nonlinear_arith)
                            requires
                                0 <= j < w,
                                prior.len() == w * (ki + 8),
                                1 <= ki,
                        ;
                        assert(slot_at(index@, ki, j) =~= slot_at(prior, ki, j));
                        assert(index@.subrange(j * (ki + 8) + ki, (j + 1) * (ki + 8))
                            =~= prior.subrange(j * (ki + 8) + ki, (j + 1) * (ki + 8)));
                    } else {
                        assert(j == w && j * (ki + 8) == prior.len()) by (nonlinear_arith)
                            requires
                                j == w,
                                prior.len() == w * (ki + 8),
                        ;
                        assert(pad_key(entries@[j].0@, ki).len() == ki) by {
                            lemma_strip_pad(entries@[j].0@, ki);
                        }
                        assert(slot_at(index@, ki, j) =~= pad_key(entries@[j].0@, ki));
                        assert(index@.subrange(j * (ki + 8) + ki, (j + 1) * (ki + 8)) =~= le64(
                            offsets@[j],
                        ));
                    }
                }
                assert forall|j: int|
                    0 <= j < w + 1 implies index@.subrange(
                    j * (ki + 8) + ki,
                    (j + 1) * (ki + 8),
                ) == le64(#[trigger] offsets@[j]) by {
                    assert(slot_at(index@, ki, j) == pad_key(entries@[j].0@, ki));
                }
            }
            w = w + 1;
        }
        let min = crate::record::copy_bytes(&entries[0].0);
        let max = crate::record::copy_bytes(&entries[entries.len() - 1].0);
        let desc = SSTable {
            storage_path,
            index_path,
            min,
            max,
            size: storage.len(),
            count: entries.len(),
        };
        proof {
            let ki = k as int;
            let n = entries@.len() as int;
            assert forall|j: int| 0 <= j < n implies entry_ok(index@, final_storage, ki, j) by {
                lemma_strip_pad(entries@[j].0@, ki);
                assert(table_key(index@, ki, j) == trunc_key(entries@[j].0@, ki));
                lemma_le64_val(offsets@[j]);
                assert(table_off(index@, ki, j) == offsets@[j] as int);
                let o = offsets@[j] as int;
                let c = enc_val(view_val(entries@[j].1));
                assert(final_storage.skip(o) =~= c + final_storage.skip(o + c.len()));
                assert(dec_val(c + final_storage.skip(o + c.len())) == Some(
                    (view_val(entries@[j].1), c.len() as nat),
                ));
                // a live record's key resolves to this entry's slot key
                assert(table_val(index@, final_storage, ki, j) == view_val(entries@[j].1));
                match view_val(entries@[j].1) {
                    Some(rv) => {
                        assert(trunc_key(rv.key, ki) == trunc_key(entries@[j].0@, ki));
                    },
                    None => {},
                }
            }
            assert forall|a: int, b: int|
                0 <= a < b < n implies lex_lt(
                table_key(index@, ki, a),
                table_key(index@, ki, b),
            ) by {
                lemma_strip_pad(entries@[a].0@, ki);
                lemma_strip_pad(entries@[b].0@, ki);
                crate::keys::lemma_lt_chain(tkeys, a, b);
            }
            assert forall|j: int|
                0 <= j < n implies #[trigger] table_val(index@, final_storage, ki, j) == view_val(
                entries@[j].1,
            ) by {
                lemma_le64_val(offsets@[j]);
                let o = offsets@[j] as int;
                let c = enc_val(view_val(entries@[j].1));
                assert(final_storage.skip(o) =~= c + final_storage.skip(o + c.len()));
                assert(dec_val(c + final_storage.skip(o + c.len())) == Some(
                    (view_val(entries@[j].1), c.len() as nat),
                ));
            }
            assert(table_entries(index@, final_storage, ki, n) =~= trunc_entries(
                entries_view(entries@),
                ki,
            )) by {
                assert forall|j: int|
                    0 <= j < n implies table_entries(index@, final_storage, ki, n)[j]
                    == trunc_entries(entries_view(entries@), ki)[j] by {
                    lemma_strip_pad(entries@[j].0@, ki);
                }
            }
            lemma_strip_pad(entries@[0].0@, ki);
            lemma_strip_pad(entries@[n - 1].0@, ki);
            assert(trunc_key(desc@.min, ki) == table_key(index@, ki, 0));
            assert(trunc_key(desc@.max, ki) == table_key(index@, ki, n - 1));
            // the storage file lists the entries in the same order
            assert forall|a: int, b: int|
                0 <= a < b < n implies table_off(index@, ki, a) < table_off(index@, ki, b) by {
                lemma_le64_val(offsets@[a]);
                lemma_le64_val(offsets@[b]);
            }
        }
        Ok((desc, TableImage { storage, index }))
    }
}

/// View of a lookup outcome.
pub open spec fn view_hit(r: Option<Option<Record>>) -> Option<Option<RecordV>> {
    match r {
        None => None,
        Some(v) => Some(view_val(v)),
    }
}

/// If no entry from `i` on carries `key`, the scan runs off the end.
pub proof fn lemma_find_eq_none(index: Seq<u8>, k: int, n: int, key: Seq<u8>, i: int)
    requires
        forall|j: int| i <= j < n ==> table_key(index, k, j) != key,
    ensures
        find_eq(index, k, n, key, i) == n,
    decreases n - i,
{
    if 0 <= i < n {
        lemma_find_eq_none(index, k, n, key, i + 1);
    }
}

/// The scan stops at the first entry that carries `key`.
pub proof fn lemma_find_eq_hit(index: Seq<u8>, k: int, n: int, key: Seq<u8>, i: int, t: int)
    requires
        0 <= i <= t < n,
        table_key(index, k, t) == key,
        forall|j: int| i <= j < t ==> table_key(index, k, j) != key,
    ensures
        find_eq(index, k, n, key, i) == t,
    decreases t - i,
{
    if i < t {
        lemma_find_eq_hit(index, k, n, key, i + 1, t);
    }
}

/// Reads the key of entry `i` back from the index image: the slot bytes
/// with the zero padding removed.
fn read_key_at(index: &Vec<u8>, k: usize, i: usize) -> (r: Vec<u8>)
    requires
        1 <= k,
        (i + 1) * (k as int + 8) <= index@.len(),
    ensures
        r@ == table_key(index@, k as int, i as int),
{
    let il = index.len();
    proof {
        assert(0 <= i * (k as int + 8) && i * (k as int + 8) + k as int <= (i + 1) * (k as int + 8)
            && k as int + 8 <= (i + 1) * (k as int + 8)) by (nonlinear_arith)
            requires
                1 <= k,
                0 <= i,
        ;
    }
    let base: usize = i * (k + 8);
    let ghost slot = slot_at(index@, k as int, i as int);
    let mut v: Vec<u8> = Vec::new();
    let mut j: usize = 0;
    while j < k
        invariant
            j <= k,
            base == i * (k as int + 8),
            base + k <= index@.len(),
            index@.len() <= usize::MAX,
            slot == slot_at(index@, k as int, i as int),
            slot.len() == k,
            v@ == slot.take(j as int),
        decreases k - j,
    {
        v.push(index[base + j]);
        proof {
            assert(slot[j as int] == index@[base + j]);
            assert(slot.take(j + 1 as int) =~= slot.take(j as int).push(slot[j as int]));
        }
        j = j + 1;
    }
    proof {
        assert(slot.take(k as int) =~= slot);
    }
    while v.len() > 0 && v[v.len() - 1] == 0
        invariant
            strip_nul(v@) == strip_nul(slot),
        decreases v@.len(),
    {
        proof {
            assert(strip_nul(v@) == strip_nul(v@.drop_last()));
        }
        v.pop();
    }
    proof {
        assert(strip_nul(v@) == v@);
    }
    v
}

impl SSTable {
    /// Point lookup on a well-formed table: a binary search over the
    /// fixed-stride index for the first slot at or past the key, then the
    /// stored value at the recorded offset. Returns nothing when the key
    /// falls outside the table's range or no slot carries it; the entry's
    /// tombstone; or the live record, whose own key must agree.
    pub fn get(
        &self,
        files: &TableImage,
        key: &Vec<u8>,
        config: &Config,
        serializer: &BinarySerializationEngine,
    ) -> (r: Result<Option<Option<Record>>, SSTableError>)
        requires
            config.wf(),
            table_wf(self@, files.index@, files.storage@, config.index_key_string_size as int),
        ensures
            r matches Ok(v) && view_hit(v) == table_lookup(
                self@,
                files.index@,
                files.storage@,
                config.index_key_string_size as int,
                key@,
            ),
    {
        let k = config.index_key_string_size;
        let ghost ki = k as int;
        let ghost index = files.index@;
        let ghost storage = files.storage@;
        match key_compare(key.as_slice(), self.min.as_slice()) {
            KeyOrder::Less => {
                return Ok(None);
            },
            _ => {},
        }
        match key_compare(self.max.as_slice(), key.as_slice()) {
            KeyOrder::Less => {
                return Ok(None);
            },
            _ => {},
        }
        let mut lo: usize = 0;
        let mut hi: usize = self.count;
        while lo < hi
            invariant
                lo <= hi <= self@.count,
                ki == k as int,
                index == files.index@,
                storage == files.storage@,
                table_wf(self@, index, storage, ki),
                forall|i: int| 0 <= i < lo ==> lex_lt(#[trigger] table_key(index, ki, i), key@),
                forall|i: int|
                    hi <= i < self@.count ==> !lex_lt(#[trigger] table_key(index, ki, i), key@),
            decreases hi - lo,
        {
            let mid = lo + (hi - lo) / 2;
            proof {
                assert((mid + 1) * (ki + 8) <= self@.count * (ki + 8)) by (nonlinear_arith)
                    requires
                        mid < self@.count,
                        1 <= ki,
                ;
            }
            let mk = read_key_at(&files.index, k, mid);
            match key_compare(mk.as_slice(), key.as_slice()) {
                KeyOrder::Less => {
                    proof {
                        assert forall|i: int|
                            0 <= i < mid + 1 implies lex_lt(
                            #[trigger] table_key(index, ki, i),
                            key@,
                        ) by {
                            if i >= lo && i < mid {
                                assert(lex_le(table_key(index, ki, i), table_key(index, ki, mid as int)));
                                if table_key(index, ki, i) != table_key(index, ki, mid as int) {
                                    lemma_lex_lt_trans(
                                        table_key(index, ki, i),
                                        table_key(index, ki, mid as int),
                                        key@,
                                    );
                                }
                            }
                        }
                    }
                    lo = mid + 1;
                },
                _ => {
                    proof {
                        lemma_lex_total(mk@, key@);
                        assert forall|i: int|
                            mid <= i < self@.count implies !lex_lt(
                            #[trigger] table_key(index, ki, i),
                            key@,
                        ) by {
                            if i > mid {
                                assert(lex_le(table_key(index, ki, mid as int), table_key(index, ki, i)));
                                if lex_lt(table_key(index, ki, i), key@) {
                                    if table_key(index, ki, mid as int) != table_key(index, ki, i) {
                                        lemma_lex_lt_trans(
                                            table_key(index, ki, mid as int),
                                            table_key(index, ki, i),
                                            key@,
                                        );
                                    }
                                    lemma_lex_total(table_key(index, ki, mid as int), key@);
                                }
                            }
                        }
                    }
                    hi = mid;
                },
            }
        }
        if lo == self.count {
            // every slot key sorts before the key, so none carries it
            proof {
                assert forall|i: int|
                    0 <= i < self@.count implies table_key(index, ki, i) != key@ by {
                    lemma_lex_total(table_key(index, ki, i), key@);
                }
                lemma_find_eq_none(index, ki, self@.count, key@, 0);
            }
            return Ok(None);
        }
        proof {
            assert((lo + 1) * (ki + 8) <= self@.count * (ki + 8)) by (nonlinear_arith)
                requires
                    lo < self@.count,
                    1 <= ki,
            ;
        }
        let fk = read_key_at(&files.index, k, lo);
        if !bytes_eq(fk.as_slice(), key.as_slice()) {
            proof {
                assert forall|i: int|
                    0 <= i < self@.count implies table_key(index, ki, i) != key@ by {
                    if i < lo {
                        lemma_lex_total(table_key(index, ki, i), key@);
                    } else if i > lo {
                        lemma_lex_total(table_key(index, ki, lo as int), key@);
                        assert(lex_lt(key@, table_key(index, ki, lo as int)));
                        assert(lex_le(table_key(index, ki, lo as int), table_key(index, ki, i)));
                        if table_key(index, ki, lo as int) == table_key(index, ki, i) {
                        } else {
                            lemma_lex_lt_trans(
                                key@,
                                table_key(index, ki, lo as int),
                                table_key(index, ki, i),
                            );
                        }
                        lemma_lex_total(table_key(index, ki, i), key@);
                    }
                }
                lemma_find_eq_none(index, ki, self@.count, key@, 0);
            }
            return Ok(None);
        }
        proof {
            assert forall|i: int| 0 <= i < lo implies table_key(index, ki, i) != key@ by {
                lemma_lex_total(table_key(index, ki, i), key@);
            }
            lemma_find_eq_hit(index, ki, self@.count, key@, 0, lo as int);
            assert(0 <= lo * (ki + 8) && lo * (ki + 8) + ki + 8 == (lo + 1) * (ki + 8)) by (
            nonlinear_arith)
                requires
                    0 <= lo,
                    1 <= ki,
            ;
        }
        let il = files.index.len();
        let sl = files.storage.len();
        let pos: usize = lo * (k + 8) + k;
        let off64 = read_le64(files.index.as_slice(), pos);
        proof {
            lemma_le64_val(off64);
            assert(pos as int + 8 == (lo + 1) * (ki + 8));
            assert(index.subrange(lo * (ki + 8) + ki, (lo + 1) * (ki + 8)) =~= index.subrange(
                pos as int,
                pos as int + 8,
            ));
            assert(table_off(index, ki, lo as int) == off64 as int);
            assert(entry_ok(index, storage, ki, lo as int));
        }
        let off: usize = off64 as usize;
        match serializer.deserialize_val(files.storage.as_slice(), off) {
            Ok((v, n)) => {
                match v {
                    None => Ok(Some(None)),
                    Some(rec) => {
                        if bytes_eq(rec.key.as_slice(), key.as_slice()) {
                            Ok(Some(Some(rec)))
                        } else {
                            Ok(None)
                        }
                    },
                }
            },
            Err(_) => {
                proof {
                    assert(false);
                }
                Ok(None)
            },
        }
    }
}

/// Stripping never lengthens a sequence.
proof fn lemma_strip_le(s: Seq<u8>)
    ensures
        strip_nul(s).len() <= s.len(),
    decreases s.len(),
{
    if s.len() > 0 && s[s.len() - 1] == 0 {
        lemma_strip_le(s.drop_last());
    }
}

/// Keys ordered between neighbours are ordered between any two entries.
proof fn lemma_le_pair(index: Seq<u8>, k: int, n: int, i: int, j: int)
    requires
        forall|t: int|
            0 <= t < n - 1 ==> lex_lt(
                #[trigger] table_key(index, k, t),
                table_key(index, k, t + 1),
            ),
        0 <= i < j < n,
    ensures
        lex_lt(table_key(index, k, i), table_key(index, k, j)),
{
    let keys = Seq::new(n as nat, |t: int| table_key(index, k, t));
    assert forall|t: int| 0 <= t < keys.len() - 1 implies lex_lt(
        #[trigger] keys[t],
        keys[t + 1],
    ) by {
        assert(lex_lt(table_key(index, k, t), table_key(index, k, t + 1)));
    }
    crate::keys::lemma_lt_chain(keys, i, j);
}

/// Reads a table image back as its bindings, in slot order, checking the
/// whole image on the way: the index must be exactly `count` strides, each
/// slot must carry a valid key, keys must ascend, every offset must decode
/// to a stored value, a live record's key must resolve to its slot key,
/// and the descriptor's size must match and its raw key extremes resolve
/// to the first and last slots. Succeeds exactly on well-formed tables;
/// anything else is reported as a corrupted index file.
pub fn read_entries(
    desc: &SSTable,
    files: &TableImage,
    config: &Config,
    serializer: &BinarySerializationEngine,
) -> (r: Result<Vec<(Vec<u8>, Option<Record>)>, SSTableError>)
    requires
        config.wf(),
    ensures
        match r {
            Ok(v) => {
                &&& table_wf(desc@, files.index@, files.storage@, config.index_key_string_size as int)
                &&& v@.len() == desc@.count
                &&& entries_view(v@) == table_entries(
                    files.index@,
                    files.storage@,
                    config.index_key_string_size as int,
                    desc@.count,
                )
            },
            Err(e) => e matches SSTableError::DBFileCorrupted { file } && file@ == desc@.index_path
                && !table_wf(
                desc@,
                files.index@,
                files.storage@,
                config.index_key_string_size as int,
            ),
        },
        table_wf(desc@, files.index@, files.storage@, config.index_key_string_size as int)
            ==> r is Ok,
{
    let k = config.index_key_string_size;
    let ghost ki = k as int;
    let ghost index = files.index@;
    let ghost storage = files.storage@;
    if desc.count == 0 {
        return Err(SSTableError::DBFileCorrupted { file: crate::record::copy_bytes(&desc.index_path) });
    }
    let il = files.index.len();
    let sl = files.storage.len();
    if il % (k + 8) != 0 || il / (k + 8) != desc.count {
        proof {
            if index.len() == desc@.count * (ki + 8) {
                assert(il as int % (ki + 8) == 0 && il as int / (ki + 8) == desc@.count) by (
                nonlinear_arith)
                    requires
                        il as int == desc@.count * (ki + 8),
                        1 <= ki,
                ;
            }
        }
        return Err(SSTableError::DBFileCorrupted { file: crate::record::copy_bytes(&desc.index_path) });
    }
    proof {
        assert(il as int == desc@.count * (ki + 8)) by (nonlinear_arith)
            requires
                il as int % (ki + 8) == 0,
                il as int / (ki + 8) == desc@.count,
                1 <= ki,
        ;
    }
    if desc.size != sl {
        return Err(SSTableError::DBFileCorrupted { file: crate::record::copy_bytes(&desc.index_path) });
    }
    let n = desc.count;
    let mut out: Vec<(Vec<u8>, Option<Record>)> = Vec::new();
    let mut i: usize = 0;
    while i < n
        invariant
            i <= n,
            n == desc@.count,
            1 <= n,
            1 <= k,
            k <= 0xffff,
            ki == k as int,
            k == config.index_key_string_size,
            index == files.index@,
            storage == files.storage@,
            index.len() == n * (ki + 8),
            index.len() <= usize::MAX,
            storage.len() == desc@.size,
            storage.len() <= usize::MAX,
            sl == storage.len(),
            out@.len() == i,
            forall|t: int| 0 <= t < i ==> entry_ok(index, storage, ki, t),
            forall|t: int|
                0 <= t < i - 1 ==> lex_lt(
                    #[trigger] table_key(index, ki, t),
                    table_key(index, ki, t + 1),
                ),
            forall|t: int|
                0 <= t < i ==> (#[trigger] out@[t]).0@ == table_key(index, ki, t) && view_val(
                    out@[t].1,
                ) == table_val(index, storage, ki, t),
        decreases n - i,
    {
        proof {
            assert((i + 1) * (ki + 8) <= n * (ki + 8) && 0 <= i * (ki + 8) && i * (ki + 8) + ki + 8
                == (i + 1) * (ki + 8)) by (nonlinear_arith)
                requires
                    0 <= i < n,
                    1 <= ki,
            ;
        }
        let key = read_key_at(&files.index, k, i);
        if !check_valid_key(key.as_slice()) {
            proof {
                assert(!entry_ok(index, storage, ki, i as int));
                assert(!table_wf(desc@, index, storage, ki)) by {
                    if table_wf(desc@, index, storage, ki) {
                        assert(entry_ok(index, storage, ki, i as int));
                    }
                }
            }
            return Err(SSTableError::DBFileCorrupted { file: crate::record::copy_bytes(&desc.index_path) });
        }
        if i > 0 {
            let prev = read_key_at(&files.index, k, i - 1);
            proof {
                assert((i) * (ki + 8) <= n * (ki + 8)) by (nonlinear_arith)
                    requires
                        0 <= i <= n,
                        1 <= ki,
                ;
            }
            match key_compare(prev.as_slice(), key.as_slice()) {
                KeyOrder::Less => {},
                _ => {
                    proof {
                        lemma_lex_total(prev@, key@);
                        assert(!table_wf(desc@, index, storage, ki)) by {
                            if table_wf(desc@, index, storage, ki) {
                                assert(lex_lt(
                                    table_key(index, ki, i - 1),
                                    table_key(index, ki, i as int),
                                ));
                            }
                        }
                    }
                    return Err(SSTableError::DBFileCorrupted { file: crate::record::copy_bytes(&desc.index_path) });
                },
            }
        }
        let pos: usize = i * (k + 8) + k;
        let off64 = read_le64(files.index.as_slice(), pos);
        proof {
            lemma_le64_val(off64);
            assert(pos as int + 8 == (i + 1) * (ki + 8));
            assert(index.subrange(i * (ki + 8) + ki, (i + 1) * (ki + 8)) =~= index.subrange(
                pos as int,
                pos as int + 8,
            ));
            assert(table_off(index, ki, i as int) == off64 as int);
        }
        if off64 > sl as u64 {
            proof {
                assert(!entry_ok(index, storage, ki, i as int));
                assert(!table_wf(desc@, index, storage, ki)) by {
                    if table_wf(desc@, index, storage, ki) {
                        assert(entry_ok(index, storage, ki, i as int));
                    }
                }
            }
            return Err(SSTableError::DBFileCorrupted { file: crate::record::copy_bytes(&desc.index_path) });
        }
        let off = off64 as usize;
        match serializer.deserialize_val(files.storage.as_slice(), off) {
            Ok((v, consumed)) => {
                proof {
                    assert(table_val(index, storage, ki, i as int) == view_val(v));
                }
                // a live record must sit under its own key: its key must
                // resolve to exactly this entry's slot key
                match &v {
                    Some(rec) => {
                        let tk = trunc_exec(&rec.key, k);
                        if !bytes_eq(tk.as_slice(), key.as_slice()) {
                            proof {
                                assert(!entry_ok(index, storage, ki, i as int));
                                assert(!table_wf(desc@, index, storage, ki)) by {
                                    if table_wf(desc@, index, storage, ki) {
                                        assert(entry_ok(index, storage, ki, i as int));
                                    }
                                }
                            }
                            return Err(SSTableError::DBFileCorrupted { file: crate::record::copy_bytes(&desc.index_path) });
                        }
                    },
                    None => {},
                }
                proof {
                    lemma_strip_le(slot_at(index, ki, i as int));
                    assert(entry_ok(index, storage, ki, i as int));
                }
                out.push((key, v));
            },
            Err(_) => {
                proof {
                    assert(!entry_ok(index, storage, ki, i as int));
                    assert(!table_wf(desc@, index, storage, ki)) by {
                        if table_wf(desc@, index, storage, ki) {
                            assert(entry_ok(index, storage, ki, i as int));
                        }
                    }
                }
                return Err(SSTableError::DBFileCorrupted { file: crate::record::copy_bytes(&desc.index_path) });
            },
        }
        i = i + 1;
    }
    // the key extremes
    proof {
        assert(1 * (ki + 8) <= n * (ki + 8) && (n - 1) * (ki + 8) + ki + 8 == n * (ki + 8) && 0 <= (
        n - 1) * (ki + 8)) by (nonlinear_arith)
            requires
                1 <= n,
                1 <= ki,
        ;
    }
    let first = read_key_at(&files.index, k, 0);
    let last = read_key_at(&files.index, k, n - 1);
    let tmin = trunc_exec(&desc.min, k);
    let tmax = trunc_exec(&desc.max, k);
    if !bytes_eq(tmin.as_slice(), first.as_slice()) || !bytes_eq(
        tmax.as_slice(),
        last.as_slice(),
    ) {
        proof {
            assert(!table_wf(desc@, index, storage, ki)) by {
                if table_wf(desc@, index, storage, ki) {
                    assert(trunc_key(desc@.min, ki) == table_key(index, ki, 0));
                    assert(trunc_key(desc@.max, ki) == table_key(index, ki, n - 1));
                }
            }
        }
        return Err(SSTableError::DBFileCorrupted { file: crate::record::copy_bytes(&desc.index_path) });
    }
    proof {
        assert forall|a: int, b: int|
            0 <= a < b < n implies lex_lt(table_key(index, ki, a), table_key(index, ki, b)) by {
            lemma_le_pair(index, ki, n as int, a, b);
        }
        assert(table_wf(desc@, index, storage, ki));
        assert(entries_view(out@) =~= table_entries(index, storage, ki, n as int));
    }
    Ok(out)
}

impl SSTable {
    /// Point lookup that validates the table images first: a malformed
    /// table — a wrong index stride, an unreadable record, a descriptor
    /// that does not match its files — is reported as a corrupted index
    /// file at the lookup itself; a well-formed table is answered exactly
    /// as `get` answers it.
    pub fn get_checked(
        &self,
        files: &TableImage,
        key: &Vec<u8>,
        config: &Config,
        serializer: &BinarySerializationEngine,
    ) -> (r: Result<Option<Option<Record>>, SSTableError>)
        requires
            config.wf(),
        ensures
            table_wf(self@, files.index@, files.storage@, config.index_key_string_size as int)
                ==> (r matches Ok(v) && view_hit(v) == table_lookup(
                self@,
                files.index@,
                files.storage@,
                config.index_key_string_size as int,
                key@,
            )),
            !table_wf(self@, files.index@, files.storage@, config.index_key_string_size as int)
                ==> (r matches Err(e) && e matches SSTableError::DBFileCorrupted { file }
                && file@ == self@.index_path),
    {
        match read_entries(self, files, config, serializer) {
            Ok(_) => self.get(files, key, config, serializer),
            Err(e) => Err(e),
        }
    }
}

/// Order preservation: in any well-formed table, of two keys the table
/// carries, the smaller stands first in the index.
pub proof fn lemma_order_preservation(desc: SSTableV, index: Seq<u8>, storage: Seq<u8>, k: int, i: int, j: int)
    requires
        table_wf(desc, index, storage, k),
        0 <= i < j < desc.count,
    ensures
        lex_lt(table_key(index, k, i), table_key(index, k, j)),
{
}

/// The index stride invariant: a well-formed index file is exactly
/// `count` entries of `K + O` bytes.
pub proof fn lemma_index_stride(desc: SSTableV, index: Seq<u8>, storage: Seq<u8>, k: int)
    requires
        table_wf(desc, index, storage, k),
    ensures
        index.len() == desc.count * (k + 8),
{
}

} // verus!
