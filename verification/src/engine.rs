//! The engine: the durable memtable, the stack of immutable tables, the
//! flush and compaction policies, and the point-read path across all of
//! them.
//!
//! The engine works on the byte images of its on-disk files. The host
//! program reads the images in at open and mirrors every change back to
//! the database directory, writing a new table's files and the manifest
//! before truncating the write-ahead log, so that a crash between the two
//! steps only re-inserts entries the new table already holds.

pub mod error;

pub use error::EngineError;

use vstd::prelude::*;
use vstd::relations::injective_on;
use vstd::set_lib::{lemma_int_range, lemma_len_subset, lemma_map_size, set_int_range};

use crate::compaction;
use crate::compaction::{
    newest_with, seq_find, seq_has, seq_val, stack_has, stack_val, tables_entries,
};
use crate::config::Config;
use crate::keys::{
    bytes_eq, key_compare, lemma_lex_total, lemma_lt_chain, lex_lt, valid_key, KeyOrder,
};
use crate::manifest::{desc_ok, descs_ok, descs_view, format_manifest, manifest_rep, parse_manifest};
use crate::memtable::log::wal_rep;
use crate::memtable::operation::{ops_wf, LogOperationV};
use crate::memtable::table::{apply_ops, empty_model, MemTable};
use crate::numbers::dec_str;
use crate::numbers::lemma_dec_str_shape;
use crate::numbers::to_decimal;
use crate::record::{append_bytes, copy_bytes, entries_view, view_val, Record, RecordV};
use crate::serialization::{enc_op, BinarySerializationEngine};
use crate::sstable::table::{
    read_entries, table_entries, table_lookup, table_wf, trunc_entries, trunc_key, SSTableV,
    TableImage,
};
use crate::sstable::{SSTable, SSTableError};

verus! {

/// The descriptors of a table stack.
pub open spec fn stack_descs(ts: Seq<SSTable>) -> Seq<SSTableV> {
    ts.map_values(|t: SSTable| t@)
}

/// What the table stack resolves a key to, consulting tables newest
/// first: the first table that answers decides; a tombstone answer stops
/// the walk.
pub open spec fn chain_get(
    ts: Seq<SSTable>,
    ims: Seq<TableImage>,
    k: int,
    key: Seq<u8>,
) -> Option<Option<RecordV>>
    decreases ts.len(),
{
    if ts.len() == 0 || ts.len() != ims.len() {
        None
    } else {
        match table_lookup(
            ts.last()@,
            ims.last().index@,
            ims.last().storage@,
            k,
            key,
        ) {
            Some(v) => Some(v),
            None => chain_get(ts.drop_last(), ims.drop_last(), k, key),
        }
    }
}

/// What the whole store resolves a key to: the buffer first, then the
/// table stack.
pub open spec fn store_get(
    mem: Map<Seq<u8>, Option<RecordV>>,
    ts: Seq<SSTable>,
    ims: Seq<TableImage>,
    k: int,
    key: Seq<u8>,
) -> Option<RecordV> {
    if mem.contains_key(key) {
        mem[key]
    } else {
        match chain_get(ts, ims, k, key) {
            Some(v) => v,
            None => None,
        }
    }
}

/// No two distinct keys of the map collide once truncated to the slot
/// width: the index file can tell every buffered key apart.
pub open spec fn trunc_distinct(m: Map<Seq<u8>, Option<RecordV>>, k: int) -> bool {
    forall|k1: Seq<u8>, k2: Seq<u8>|
        #![trigger m.contains_key(k1), m.contains_key(k2)]
        m.contains_key(k1) && m.contains_key(k2) && k1 != k2 ==> trunc_key(k1, k) != trunc_key(
            k2,
            k,
        )
}

/// The storage file path of table `id`.
pub open spec fn spath_of(name: Seq<u8>, id: int) -> Seq<u8> {
    seq![115u8, 116u8, 111u8, 114u8, 97u8, 103u8, 101u8, 47u8] + name + seq![45u8] + dec_str(id)
        + seq![46u8, 108u8, 111u8, 103u8]
}

/// The index file path of table `id`.
pub open spec fn ipath_of(name: Seq<u8>, id: int) -> Seq<u8> {
    seq![105u8, 110u8, 100u8, 105u8, 99u8, 101u8, 115u8, 47u8] + name + seq![45u8] + dec_str(id)
        + seq![46u8, 108u8, 111u8, 103u8]
}

/// Distinct numbers render distinct paths, and a storage path is never
/// an index path: the two families start with different bytes and the
/// number is recoverable from either.
pub proof fn lemma_paths_injective(name: Seq<u8>, a: int, b: int)
    requires
        0 <= a,
        0 <= b,
    ensures
        spath_of(name, a) == spath_of(name, b) ==> a == b,
        ipath_of(name, a) == ipath_of(name, b) ==> a == b,
        spath_of(name, a) != ipath_of(name, b),
{
    let spre = seq![115u8, 116u8, 111u8, 114u8, 97u8, 103u8, 101u8, 47u8];
    let ipre = seq![105u8, 110u8, 100u8, 105u8, 99u8, 101u8, 115u8, 47u8];
    let suf = seq![46u8, 108u8, 111u8, 103u8];
    let us = spre + name + seq![45u8];
    let ui = ipre + name + seq![45u8];
    assert(spath_of(name, a)[0] == 115u8) by {
        assert(spath_of(name, a) == us + dec_str(a) + suf);
        assert((us + dec_str(a) + suf)[0] == us[0]);
        assert(us[0] == spre[0]);
    }
    assert(ipath_of(name, b)[0] == 105u8) by {
        assert(ipath_of(name, b) == ui + dec_str(b) + suf);
        assert((ui + dec_str(b) + suf)[0] == ui[0]);
        assert(ui[0] == ipre[0]);
    }
    if spath_of(name, a) == spath_of(name, b) {
        lemma_path_tail(us, suf, a, b);
    }
    if ipath_of(name, a) == ipath_of(name, b) {
        lemma_path_tail(ui, suf, a, b);
    }
}

/// Equal renderings around the same fixed head and tail carry the same
/// number.
proof fn lemma_path_tail(u: Seq<u8>, suf: Seq<u8>, a: int, b: int)
    requires
        0 <= a,
        0 <= b,
        u + dec_str(a) + suf == u + dec_str(b) + suf,
    ensures
        a == b,
{
    let pa = u + dec_str(a) + suf;
    let pb = u + dec_str(b) + suf;
    assert(pa.len() == u.len() + dec_str(a).len() + suf.len());
    assert(pb.len() == u.len() + dec_str(b).len() + suf.len());
    assert(dec_str(a).len() == dec_str(b).len());
    assert forall|t: int| 0 <= t < dec_str(a).len() implies dec_str(a)[t] == dec_str(b)[t] by {
        assert(pa[u.len() + t] == (u + dec_str(a))[u.len() + t]);
        assert((u + dec_str(a))[u.len() + t] == dec_str(a)[t]);
        assert(pb[u.len() + t] == (u + dec_str(b))[u.len() + t]);
        assert((u + dec_str(b))[u.len() + t] == dec_str(b)[t]);
    }
    assert(dec_str(a) =~= dec_str(b));
    crate::numbers::lemma_dec_str_injective(a, b);
}

/// Whether some table of the stack already uses a file name of `id`.
pub open spec fn id_taken(ts: Seq<SSTable>, name: Seq<u8>, id: int) -> bool {
    exists|i: int|
        0 <= i < ts.len() && ((#[trigger] ts[i]@.storage_path) == spath_of(name, id) || ts[i]@.index_path
            == ipath_of(name, id) || ts[i]@.storage_path == ipath_of(name, id) || ts[i]@.index_path
            == spath_of(name, id))
}

/// The storage engine.
pub struct Engine {
    memtable: MemTable,
    sstables: Vec<SSTable>,
    images: Vec<TableImage>,
    config: Config,
    kind_name: Vec<u8>,
    serializer: BinarySerializationEngine,
}

impl Engine {
    /// The buffered writes: key to live record or tombstone.
    pub closed spec fn mem(&self) -> Map<Seq<u8>, Option<RecordV>> {
        self.memtable@
    }

    /// The operations on the write-ahead log since the last flush.
    pub closed spec fn mem_ops(&self) -> Seq<LogOperationV> {
        self.memtable.ops()
    }

    /// The byte image of the write-ahead log file.
    pub closed spec fn wal(&self) -> Seq<u8> {
        self.memtable.log_image()
    }

    /// The table stack's descriptors, oldest first.
    pub closed spec fn tables(&self) -> Seq<SSTable> {
        self.sstables@
    }

    /// The table stack's file images, oldest first.
    pub closed spec fn imgs(&self) -> Seq<TableImage> {
        self.images@
    }

    pub closed spec fn cfg(&self) -> Config {
        self.config
    }

    pub closed spec fn name(&self) -> Seq<u8> {
        self.kind_name@
    }

    /// The key-slot width of the index files.
    pub open spec fn k(&self) -> int {
        self.cfg().index_key_string_size as int
    }

    /// Whether the memtable invariants hold.
    pub closed spec fn mem_ok(&self) -> bool {
        self.memtable.wf()
    }

    /// The engine invariant: a sane configuration and type name, a
    /// well-formed memtable whose keys the index can tell apart, and a
    /// stack of well-formed tables whose descriptors the manifest can
    /// carry.
    pub open spec fn wf(&self) -> bool {
        &&& self.cfg().wf()
        &&& valid_key(self.name())
        &&& self.mem_ok()
        &&& self.mem() == apply_ops(empty_model(), self.mem_ops())
        &&& trunc_distinct(self.mem(), self.k())
        &&& self.tables().len() == self.imgs().len()
        &&& forall|i: int|
            0 <= i < self.tables().len() ==> table_wf(
                (#[trigger] self.tables()[i])@,
                self.imgs()[i].index@,
                self.imgs()[i].storage@,
                self.k(),
            )
        &&& forall|i: int| 0 <= i < self.tables().len() ==> desc_ok((#[trigger] self.tables()[i])@)
    }

    /// What the store resolves `key` to in this state.
    pub open spec fn resolves(&self, key: Seq<u8>) -> Option<RecordV> {
        store_get(self.mem(), self.tables(), self.imgs(), self.k(), key)
    }

    /// Opens the engine over the images the host program read from the
    /// database directory: replays the write-ahead log into a fresh
    /// memtable, parses the manifest, and checks every listed table
    /// against its images. Succeeds exactly on the images this store
    /// writes; a malformed log, manifest or table is an error.
    pub fn new(
        config: Config,
        kind_name: Vec<u8>,
        wal_bytes: Vec<u8>,
        manifest_text: Vec<u8>,
        images: Vec<TableImage>,
    ) -> (r: Result<Engine, EngineError>)
        requires
            config.wf(),
            valid_key(kind_name@),
        ensures
            match r {
                Ok(e) => {
                    &&& e.wf()
                    &&& e.cfg() == config
                    &&& e.name() == kind_name@
                    &&& e.wal() == wal_bytes@
                    &&& wal_rep(wal_bytes@, e.mem_ops())
                    &&& manifest_rep(stack_descs(e.tables())) == manifest_text@
                    &&& e.tables().len() == images@.len()
                    &&& forall|i: int|
                        0 <= i < images@.len() ==> (#[trigger] e.imgs()[i]).index@
                            == images@[i].index@ && e.imgs()[i].storage@ == images@[i].storage@
                },
                Err(e) => true,
            },
            forall|ds: Seq<SSTableV>, ops: Seq<LogOperationV>|
                {
                    &&& #[trigger] manifest_rep(ds) == manifest_text@
                    &&& descs_ok(ds)
                    &&& ds.len() == images@.len()
                    &&& (forall|i: int|
                        0 <= i < ds.len() ==> table_wf(
                            #[trigger] ds[i],
                            images@[i].index@,
                            images@[i].storage@,
                            config.index_key_string_size as int,
                        ))
                    &&& #[trigger] wal_rep(wal_bytes@, ops)
                    &&& ops_wf(ops)
                    &&& trunc_distinct(
                        apply_ops(empty_model(), ops),
                        config.index_key_string_size as int,
                    )
                } ==> r is Ok,
    {
        let serializer = BinarySerializationEngine;
                let memtable = match MemTable::open_or_build(
            copy_bytes(&wal_bytes),
            BinarySerializationEngine,
        ) {
            Ok(m) => m,
            Err(_) => {
                return Err(
                    EngineError::WalReplayCorrupt { path: copy_bytes(&kind_name) },
                );
            },
        };
        // the index file must be able to tell the replayed keys apart
        let snap = memtable.iter();
        let k = config.index_key_string_size;
        let ghost wops = memtable.ops();
        let mut ci: usize = 1;
        while ci < snap.len()
            invariant
                1 <= ci <= snap@.len() || snap@.len() == 0,
                k == config.index_key_string_size,
                1 <= k,
                memtable@ == apply_ops(empty_model(), wops),
                forall|ops: Seq<LogOperationV>|
                    #[trigger] wal_rep(wal_bytes@, ops) && ops_wf(ops) ==> ops == wops,
                forall|i: int|
                    0 <= i < snap@.len() ==> memtable@.contains_key(#[trigger] snap@[i].0@),
                forall|i: int, j: int|
                    0 <= i < j < snap@.len() ==> lex_lt(
                        #[trigger] snap@[i].0@,
                        #[trigger] snap@[j].0@,
                    ),
                forall|t: int|
                    0 <= t < ci - 1 ==> trunc_key(#[trigger] snap@[t].0@, k as int) != trunc_key(
                        snap@[t + 1].0@,
                        k as int,
                    ),
            decreases snap@.len() - ci,
        {
            let tp = crate::sstable::table::trunc_exec(&snap[ci - 1].0, k);
            let tc = crate::sstable::table::trunc_exec(&snap[ci].0, k);
            match key_compare(tp.as_slice(), tc.as_slice()) {
                KeyOrder::Equal => {
                    proof {
                        assert forall|ops: Seq<LogOperationV>|
                            !(#[trigger] wal_rep(wal_bytes@, ops) && ops_wf(ops) && trunc_distinct(
                                apply_ops(empty_model(), ops),
                                k as int,
                            )) by {
                            if wal_rep(wal_bytes@, ops) && ops_wf(ops) && trunc_distinct(
                                apply_ops(empty_model(), ops),
                                k as int,
                            ) {
                                assert(ops == wops);
                                let ka = snap@[ci - 1].0@;
                                let kb = snap@[ci as int].0@;
                                assert(lex_lt(ka, kb));
                                lemma_lex_total(ka, kb);
                                assert(memtable@.contains_key(ka));
                                assert(memtable@.contains_key(kb));
                            }
                        }
                    }
                    return Err(
                        EngineError::WalReplayCorrupt { path: copy_bytes(&kind_name) },
                    );
                },
                _ => {},
            }
            ci = ci + 1;
        }
        proof {
            lemma_snapshot_trunc_distinct(snap@, memtable@, k as int);
        }
        let descs = match parse_manifest(&manifest_text) {
            Some(d) => d,
            None => {
                return Err(
                    EngineError::ManifestCorrupt { path: copy_bytes(&kind_name) },
                );
            },
        };
        if descs.len() != images.len() {
            return Err(EngineError::ManifestCorrupt { path: copy_bytes(&kind_name) });
        }
        let ghost parsed = descs_view(descs@);
        proof {
            assert forall|ds: Seq<SSTableV>|
                #[trigger] manifest_rep(ds) == manifest_text@ && descs_ok(ds) implies ds
                == parsed by {}
        }
        let n = descs.len();
        let mut i: usize = 0;
        while i < n
            invariant
                i <= n,
                config.wf(),
                k == config.index_key_string_size,
                n == descs@.len(),
                n == images@.len(),
                parsed == descs_view(descs@),
                descs_ok(parsed),
                forall|ds: Seq<SSTableV>|
                    #[trigger] manifest_rep(ds) == manifest_text@ && descs_ok(ds) ==> ds == parsed,
                forall|j: int|
                    0 <= j < i ==> table_wf(
                        (#[trigger] descs@[j])@,
                        images@[j].index@,
                        images@[j].storage@,
                        k as int,
                    ),
            decreases n - i,
        {
            match read_entries(&descs[i], &images[i], &config, &serializer) {
                Ok(_) => {},
                Err(_) => {
                    proof {
                        assert forall|ds: Seq<SSTableV>|
                            !(#[trigger] manifest_rep(ds) == manifest_text@ && descs_ok(ds)
                                && ds.len() == images@.len() && (forall|j: int|
                                0 <= j < ds.len() ==> table_wf(
                                    #[trigger] ds[j],
                                    images@[j].index@,
                                    images@[j].storage@,
                                    k as int,
                                ))) by {
                            if manifest_rep(ds) == manifest_text@ && descs_ok(ds) && ds.len()
                                == images@.len() && (forall|j: int|
                                0 <= j < ds.len() ==> table_wf(
                                    #[trigger] ds[j],
                                    images@[j].index@,
                                    images@[j].storage@,
                                    k as int,
                                )) {
                                assert(ds == parsed);
                                assert(table_wf(
                                    ds[i as int],
                                    images@[i as int].index@,
                                    images@[i as int].storage@,
                                    k as int,
                                ));
                                assert(parsed[i as int] == descs@[i as int]@);
                            }
                        }
                    }
                    return Err(
                        EngineError::SSTableCorrupt { path: copy_bytes(&descs[i].index_path) },
                    );
                },
            }
            i = i + 1;
        }
        let e = Engine {
            memtable,
            sstables: descs,
            images,
            config,
            kind_name,
            serializer: BinarySerializationEngine,
        };
        proof {
            assert(stack_descs(e.tables()) =~= parsed);
            assert forall|j: int| 0 <= j < e.tables().len() implies desc_ok(
                (#[trigger] e.tables()[j])@,
            ) by {
                assert(parsed[j] == e.tables()[j]@);
            }
            assert forall|j: int|
                0 <= j < e.tables().len() implies table_wf(
                (#[trigger] e.tables()[j])@,
                e.imgs()[j].index@,
                e.imgs()[j].storage@,
                e.k(),
            ) by {}
            assert(e.wf());
        }
        Ok(e)
    }
}

/// A strictly ascending snapshot with pairwise distinct truncated
/// neighbours has pairwise distinct truncated keys, and so does the map
/// it covers.
proof fn lemma_snapshot_trunc_distinct(
    snap: Seq<(Vec<u8>, Option<Record>)>,
    m: Map<Seq<u8>, Option<RecordV>>,
    k: int,
)
    requires
        0 <= k,
        forall|i: int, j: int|
            0 <= i < j < snap.len() ==> lex_lt(#[trigger] snap[i].0@, #[trigger] snap[j].0@),
        forall|t: int|
            0 <= t < snap.len() - 1 ==> trunc_key(#[trigger] snap[t].0@, k) != trunc_key(
                snap[t + 1].0@,
                k,
            ),
        forall|key: Seq<u8>|
            #[trigger] m.contains_key(key) ==> exists|i: int|
                0 <= i < snap.len() && snap[i].0@ == key,
    ensures
        trunc_distinct(m, k),
{
    let tkeys = Seq::new(snap.len(), |t: int| trunc_key(snap[t].0@, k));
    assert forall|t: int| 0 <= t < tkeys.len() - 1 implies lex_lt(
        #[trigger] tkeys[t],
        tkeys[t + 1],
    ) by {
        crate::sstable::table::lemma_trunc_mono(snap[t].0@, snap[t + 1].0@, k);
        lemma_lex_total(tkeys[t], tkeys[t + 1]);
    }
    assert forall|k1: Seq<u8>, k2: Seq<u8>|
        #![trigger m.contains_key(k1), m.contains_key(k2)]
        m.contains_key(k1) && m.contains_key(k2) && k1 != k2 implies trunc_key(k1, k) != trunc_key(
        k2,
        k,
    ) by {
        let i = choose|i: int| 0 <= i < snap.len() && snap[i].0@ == k1;
        let j = choose|j: int| 0 <= j < snap.len() && snap[j].0@ == k2;
        if i < j {
            lemma_lt_chain(tkeys, i, j);
            lemma_lex_total(tkeys[i], tkeys[j]);
        } else if j < i {
            lemma_lt_chain(tkeys, j, i);
            lemma_lex_total(tkeys[j], tkeys[i]);
        }
    }
}

impl Engine {
    /// Looks a key up: the buffer answers first — a buffered tombstone
    /// hides everything older — then the tables, newest first.
    pub fn get(&self, key: &Vec<u8>) -> (r: Result<Option<Record>, EngineError>)
        requires
            self.wf(),
        ensures
            r matches Ok(v) && view_val(v) == self.resolves(key@),
    {
        match self.memtable.get(key) {
            Some(v) => {
                return Ok(v);
            },
            None => {},
        }
        let mut idx: usize = self.sstables.len();
        proof {
            assert(self.tables().take(idx as int) =~= self.tables());
            assert(self.imgs().take(idx as int) =~= self.imgs());
        }
        while idx > 0
            invariant
                self.wf(),
                idx <= self.tables().len(),
                !self.mem().contains_key(key@),
                chain_get(
                    self.tables().take(idx as int),
                    self.imgs().take(idx as int),
                    self.k(),
                    key@,
                ) == chain_get(self.tables(), self.imgs(), self.k(), key@),
            decreases idx,
        {
            idx = idx - 1;
            let t = &self.sstables[idx];
            let ghost pts = self.tables().take(idx + 1 as int);
            let ghost pims = self.imgs().take(idx + 1 as int);
            proof {
                assert(pts.last() == self.tables()[idx as int]);
                assert(pims.last() == self.imgs()[idx as int]);
                assert(pts.drop_last() =~= self.tables().take(idx as int));
                assert(pims.drop_last() =~= self.imgs().take(idx as int));
            }
            match t.get(&self.images[idx], key, &self.config, &self.serializer) {
                Ok(Some(v)) => {
                    return Ok(v);
                },
                Ok(None) => {},
                Err(_) => {
                    proof {
                        assert(false);
                    }
                    return Err(EngineError::SSTableCorrupt { path: copy_bytes(&t.index_path) });
                },
            }
        }
        proof {
            assert(self.tables().take(0) =~= Seq::<SSTable>::empty());
        }
        Ok(None)
    }

    /// The byte image of the write-ahead log, for mirroring to storage.
    pub fn wal_image(&self) -> (r: &Vec<u8>)
        ensures
            r@ == self.wal(),
    {
        self.memtable.wal_image()
    }

    /// The manifest text for the current table stack, for mirroring to
    /// storage.
    pub fn metadata(&self) -> (r: Vec<u8>)
        requires
            self.wf(),
        ensures
            r@ == manifest_rep(stack_descs(self.tables())),
    {
        proof {
            assert(descs_view(self.sstables@) =~= stack_descs(self.tables()));
        }
        format_manifest(&self.sstables)
    }

    /// The table descriptors, oldest first.
    pub fn descriptors(&self) -> (r: &Vec<SSTable>)
        ensures
            r@ == self.tables(),
    {
        &self.sstables
    }

    /// The table file images, oldest first.
    pub fn table_images(&self) -> (r: &Vec<TableImage>)
        ensures
            r@ == self.imgs(),
    {
        &self.images
    }

    /// The number of buffered bindings, tombstones included.
    pub fn buffered(&self) -> (r: usize)
        ensures
            r == self.mem().dom().len(),
    {
        self.memtable.len()
    }
}

/// All keys the buffer holds fit a key slot, so a flushed table resolves
/// them exactly.
pub open spec fn mem_fits(m: Map<Seq<u8>, Option<RecordV>>, k: int) -> bool {
    forall|key: Seq<u8>| #[trigger] m.contains_key(key) ==> key.len() <= k
}

/// Builds the storage file path of table `id`.
fn make_spath(name: &Vec<u8>, id: u64) -> (r: Vec<u8>)
    ensures
        r@ == spath_of(name@, id as int),
{
    let mut v: Vec<u8> = Vec::new();
    v.push(115);
    v.push(116);
    v.push(111);
    v.push(114);
    v.push(97);
    v.push(103);
    v.push(101);
    v.push(47);
    append_bytes(&mut v, name);
    v.push(45);
    let d = to_decimal(id);
    append_bytes(&mut v, &d);
    v.push(46);
    v.push(108);
    v.push(111);
    v.push(103);
    proof {
        assert(v@ =~= spath_of(name@, id as int));
    }
    v
}

/// Builds the index file path of table `id`.
fn make_ipath(name: &Vec<u8>, id: u64) -> (r: Vec<u8>)
    ensures
        r@ == ipath_of(name@, id as int),
{
    let mut v: Vec<u8> = Vec::new();
    v.push(105);
    v.push(110);
    v.push(100);
    v.push(105);
    v.push(99);
    v.push(101);
    v.push(115);
    v.push(47);
    append_bytes(&mut v, name);
    v.push(45);
    let d = to_decimal(id);
    append_bytes(&mut v, &d);
    v.push(46);
    v.push(108);
    v.push(111);
    v.push(103);
    proof {
        assert(v@ =~= ipath_of(name@, id as int));
    }
    v
}

/// Generated table paths are tokens the manifest can carry.
proof fn lemma_path_valid(name: Seq<u8>, id: int)
    requires
        valid_key(name),
        0 <= id,
    ensures
        valid_key(spath_of(name, id)),
        valid_key(ipath_of(name, id)),
{
    lemma_dec_str_shape(id);
    let sp = spath_of(name, id);
    let ip = ipath_of(name, id);
    assert forall|i: int| 0 <= i < sp.len() implies sp[i] > 32u8 by {
        let pre = seq![115u8, 116u8, 111u8, 114u8, 97u8, 103u8, 101u8, 47u8];
        let a = pre + name;
        let b = a + seq![45u8];
        let c = b + dec_str(id);
        assert(sp == c + seq![46u8, 108u8, 111u8, 103u8]);
        if i < c.len() {
            assert(sp[i] == c[i]);
            if i < b.len() {
                assert(c[i] == b[i]);
                if i < a.len() {
                    assert(b[i] == a[i]);
                }
            }
        }
    }
    assert forall|i: int| 0 <= i < ip.len() implies ip[i] > 32u8 by {
        let pre = seq![105u8, 110u8, 100u8, 105u8, 99u8, 101u8, 115u8, 47u8];
        let a = pre + name;
        let b = a + seq![45u8];
        let c = b + dec_str(id);
        assert(ip == c + seq![46u8, 108u8, 111u8, 103u8]);
        if i < c.len() {
            assert(ip[i] == c[i]);
            if i < b.len() {
                assert(c[i] == b[i]);
                if i < a.len() {
                    assert(b[i] == a[i]);
                }
            }
        }
    }
}

/// A table built from a buffer snapshot whose keys fit the slot width
/// resolves every key exactly as the buffer does.
proof fn lemma_snapshot_lookup(
    m: Map<Seq<u8>, Option<RecordV>>,
    snapv: Seq<(Seq<u8>, Option<RecordV>)>,
    desc: SSTableV,
    index: Seq<u8>,
    storage: Seq<u8>,
    k: int,
    q: Seq<u8>,
)
    requires
        table_wf(desc, index, storage, k),
        desc.min.len() <= k,
        desc.max.len() <= k,
        desc.count == snapv.len(),
        table_entries(index, storage, k, desc.count) == trunc_entries(snapv, k),
        forall|i: int, j: int|
            0 <= i < j < snapv.len() ==> lex_lt(#[trigger] snapv[i].0, #[trigger] snapv[j].0),
        forall|i: int| 0 <= i < snapv.len() ==> #[trigger] snapv[i].0.len() <= k,
        forall|i: int|
            0 <= i < snapv.len() ==> m.contains_key(#[trigger] snapv[i].0) && snapv[i].1
                == m[snapv[i].0],
        forall|key: Seq<u8>|
            #[trigger] m.contains_key(key) ==> exists|i: int|
                0 <= i < snapv.len() && snapv[i].0 == key,
        forall|key: Seq<u8>|
            #[trigger] m.contains_key(key) ==> match m[key] {
                Some(r) => r.key == key,
                None => true,
            },
    ensures
        table_lookup(desc, index, storage, k, q) == (if m.contains_key(q) {
            Some(m[q])
        } else {
            None
        }),
{
    let n = desc.count;
    // the extremes fit a slot, so the descriptor carries them exactly
    assert(desc.min == crate::sstable::table::table_key(index, k, 0));
    assert(desc.max == crate::sstable::table::table_key(index, k, n - 1));
    assert forall|i: int|
        0 <= i < n implies crate::sstable::table::table_key(index, k, i) == snapv[i].0
            && crate::sstable::table::table_val(index, storage, k, i) == snapv[i].1 by {
        assert(table_entries(index, storage, k, n)[i] == trunc_entries(snapv, k)[i]);
        assert(trunc_key(snapv[i].0, k) == snapv[i].0);
    }
    if m.contains_key(q) {
        let i = choose|i: int| 0 <= i < n && snapv[i].0 == q;
        // q lies within the table's key range
        assert(!lex_lt(q, desc.min)) by {
            assert(desc.min == crate::sstable::table::table_key(index, k, 0));
            if i == 0 {
                lemma_lex_total(q, desc.min);
            } else {
                assert(lex_lt(snapv[0].0, q));
                lemma_lex_total(snapv[0].0, q);
            }
        }
        assert(!lex_lt(desc.max, q)) by {
            assert(desc.max == crate::sstable::table::table_key(index, k, n - 1));
            if i == n - 1 {
                lemma_lex_total(desc.max, q);
            } else {
                assert(lex_lt(q, snapv[n - 1].0));
                lemma_lex_total(q, snapv[n - 1].0);
            }
        }
        assert forall|t: int| 0 <= t < i implies crate::sstable::table::table_key(index, k, t)
            != q by {
            assert(lex_lt(snapv[t].0, q));
            lemma_lex_total(snapv[t].0, q);
        }
        crate::sstable::table::lemma_find_eq_hit(index, k, n, q, 0, i);
        assert(crate::sstable::table::find_eq(index, k, n, q, 0) == i);
        assert(table_entries(index, storage, k, n)[i] == trunc_entries(snapv, k)[i]);
        assert(trunc_key(snapv[i].0, k) == snapv[i].0);
        assert(crate::sstable::table::table_val(index, storage, k, i) == snapv[i].1);
        assert(snapv[i].1 == m[snapv[i].0]);
        assert(crate::sstable::table::table_val(index, storage, k, i) == m[q]);
        match m[q] {
            Some(r) => {
                assert(r.key == q);
                assert(table_lookup(desc, index, storage, k, q) == Some(m[q]));
            },
            None => {
                assert(table_lookup(desc, index, storage, k, q) == Some(m[q]));
            },
        }
    } else {
        // no entry carries q
        assert forall|t: int| 0 <= t < n implies crate::sstable::table::table_key(index, k, t)
            != q by {
            if snapv[t].0 == q {
                assert(m.contains_key(snapv[t].0));
            }
        }
        if !(lex_lt(q, desc.min) || lex_lt(desc.max, q)) {
            crate::sstable::table::lemma_find_eq_none(index, k, n, q, 0);
            assert(crate::sstable::table::find_eq(index, k, n, q, 0) == n);
            assert(table_lookup(desc, index, storage, k, q) is None);
        }
    }
}

/// A table whose paths match a candidate occupies it.
proof fn lemma_id_taken(ts: Seq<SSTable>, name: Seq<u8>, id: int, w: int)
    requires
        0 <= w < ts.len(),
        ts[w]@.storage_path == spath_of(name, id) || ts[w]@.index_path == ipath_of(name, id)
            || ts[w]@.storage_path == ipath_of(name, id) || ts[w]@.index_path == spath_of(
            name,
            id,
        ),
    ensures
        id_taken(ts, name, id),
{
}

/// A stack of `n` tables cannot occupy all of `2n + 1` candidate names:
/// each of a table's two paths blocks at most one candidate, since the
/// paths are injective in the number and the two families never meet.
proof fn lemma_fresh_name_exists(ts: Seq<SSTable>, name: Seq<u8>, m: int)
    requires
        m == 2 * ts.len() + 1,
    ensures
        exists|c: int| 0 <= c < m && !id_taken(ts, name, c),
{
    if exists|c: int| 0 <= c < m && !id_taken(ts, name, c) {
        return ;
    }
    assert forall|c: int| 0 <= c < m implies id_taken(ts, name, c) by {}
    let n = ts.len() as int;
    let cand = set_int_range(0, m);
    lemma_int_range(0, m);
    let f = |c: int|
        {
            let i = choose|i: int|
                0 <= i < n && (ts[i]@.storage_path == spath_of(name, c) || ts[i]@.index_path
                    == ipath_of(name, c) || ts[i]@.storage_path == ipath_of(name, c)
                    || ts[i]@.index_path == spath_of(name, c));
            if ts[i]@.storage_path == spath_of(name, c) || ts[i]@.storage_path == ipath_of(
                name,
                c,
            ) {
                2 * i
            } else {
                2 * i + 1
            }
        };
    assert forall|c: int| cand.contains(c) implies 0 <= #[trigger] f(c) < 2 * n by {
        assert(id_taken(ts, name, c));
        let i = choose|i: int|
            0 <= i < n && (ts[i]@.storage_path == spath_of(name, c) || ts[i]@.index_path
                == ipath_of(name, c) || ts[i]@.storage_path == ipath_of(name, c)
                || ts[i]@.index_path == spath_of(name, c));
        assert(0 <= i < n);
    }
    assert(injective_on(f, cand)) by {
        assert forall|c1: int, c2: int|
            cand.contains(c1) && cand.contains(c2) && #[trigger] f(c1) == #[trigger] f(
                c2,
            ) implies c1 == c2 by {
            assert(id_taken(ts, name, c1));
            assert(id_taken(ts, name, c2));
            let i1 = choose|i: int|
                0 <= i < n && (ts[i]@.storage_path == spath_of(name, c1) || ts[i]@.index_path
                    == ipath_of(name, c1) || ts[i]@.storage_path == ipath_of(name, c1)
                    || ts[i]@.index_path == spath_of(name, c1));
            let i2 = choose|i: int|
                0 <= i < n && (ts[i]@.storage_path == spath_of(name, c2) || ts[i]@.index_path
                    == ipath_of(name, c2) || ts[i]@.storage_path == ipath_of(name, c2)
                    || ts[i]@.index_path == spath_of(name, c2));
            lemma_paths_injective(name, c1, c2);
            lemma_paths_injective(name, c2, c1);
            let side1 = ts[i1]@.storage_path == spath_of(name, c1) || ts[i1]@.storage_path
                == ipath_of(name, c1);
            let side2 = ts[i2]@.storage_path == spath_of(name, c2) || ts[i2]@.storage_path
                == ipath_of(name, c2);
            if side1 && side2 {
                assert(i1 == i2);
                assert(ts[i1]@.storage_path == ts[i2]@.storage_path);
            } else if !side1 && !side2 {
                assert(i1 == i2);
                assert(ts[i1]@.index_path == ts[i2]@.index_path);
                assert(ts[i1]@.index_path == ipath_of(name, c1) || ts[i1]@.index_path
                    == spath_of(name, c1));
            }
        }
    }
    let img = cand.map(f);
    lemma_map_size(cand, img, f);
    assert(img.subset_of(set_int_range(0, 2 * n))) by {
        assert forall|y: int| img.contains(y) implies set_int_range(0, 2 * n).contains(y) by {
            let c = choose|c: int| cand.contains(c) && f(c) == y;
        }
    }
    lemma_int_range(0, 2 * n);
    lemma_len_subset(img, set_int_range(0, 2 * n));
    assert(false);
}

impl Engine {
    /// Derives a pair of file paths no current table uses, trying
    /// successive numbers. Of `2n + 1` candidates a stack of `n` tables
    /// can block at most `2n`, so the bounded search always succeeds; it
    /// gives up only on a stack too large for the candidate arithmetic.
    #[verifier::rlimit(60)]
    fn fresh_paths(&self) -> (r: Result<(Vec<u8>, Vec<u8>), EngineError>)
        requires
            self.wf(),
        ensures
            match r {
                Ok(p) => exists|id: int|
                    {
                        &&& 0 <= id
                        &&& p.0@ == spath_of(self.name(), id)
                        &&& p.1@ == ipath_of(self.name(), id)
                        &&& !id_taken(self.tables(), self.name(), id)
                    },
                Err(e) => e == EngineError::NoFreshName && self.tables().len() > (usize::MAX - 1)
                    / 2,
            },
    {
        let n = self.sstables.len();
        if n > (usize::MAX - 1) / 2 {
            return Err(EngineError::NoFreshName);
        }
        let attempts = 2 * n + 1;
        let mut c: usize = 0;
        while c < attempts
            invariant
                self.wf(),
                n == self.tables().len(),
                n <= (usize::MAX - 1) / 2,
                attempts == 2 * n + 1,
                c <= attempts,
                forall|c2: int| 0 <= c2 < c ==> id_taken(self.tables(), self.name(), c2),
            decreases attempts - c,
        {
            let sp = make_spath(&self.kind_name, c as u64);
            let ip = make_ipath(&self.kind_name, c as u64);
            let mut found = false;
            let mut j: usize = 0;
            while j < self.sstables.len()
                invariant
                    j <= self.tables().len(),
                    sp@ == spath_of(self.name(), c as int),
                    ip@ == ipath_of(self.name(), c as int),
                    !found ==> forall|t: int|
                        0 <= t < j ==> !((#[trigger] self.tables()[t]@.storage_path) == sp@
                            || self.tables()[t]@.index_path == ip@
                            || self.tables()[t]@.storage_path == ip@
                            || self.tables()[t]@.index_path == sp@),
                    found ==> id_taken(self.tables(), self.name(), c as int),
                decreases self.tables().len() - j,
            {
                let d = &self.sstables[j];
                if bytes_eq(d.storage_path.as_slice(), sp.as_slice()) || bytes_eq(
                    d.index_path.as_slice(),
                    ip.as_slice(),
                ) || bytes_eq(d.storage_path.as_slice(), ip.as_slice()) || bytes_eq(
                    d.index_path.as_slice(),
                    sp.as_slice(),
                ) {
                    proof {
                        lemma_id_taken(self.tables(), self.name(), c as int, j as int);
                    }
                    found = true;
                }
                j = j + 1;
            }
            if !found {
                proof {
                    assert(!id_taken(self.tables(), self.name(), c as int));
                }
                return Ok((sp, ip));
            }
            c = c + 1;
        }
        proof {
            lemma_fresh_name_exists(self.tables(), self.name(), attempts as int);
            assert(false);
        }
        Err(EngineError::NoFreshName)
    }

    /// Flushes the buffer when `(K + O) * buffered` has reached the
    /// configured threshold: builds a new table from a snapshot of the
    /// buffer, appends it at the newest end of the stack, and only then
    /// clears the buffer and truncates the write-ahead log, so no
    /// acknowledged write is ever momentarily absent. With a buffer
    /// whose keys fit a key slot, no read changes its answer.
    pub fn flush_if_ready(&mut self) -> (r: Result<(), EngineError>)
        requires
            old(self).wf(),
        ensures
            final(self).wf(),
            final(self).cfg() == old(self).cfg(),
            final(self).name() == old(self).name(),
            match r {
                Ok(_) => {
                    &&& if (old(self).k() + 8) * old(self).mem().dom().len() < old(
                        self,
                    ).cfg().initial_index_file_threshold as int {
                        &&& final(self).mem() == old(self).mem()
                        &&& final(self).mem_ops() == old(self).mem_ops()
                        &&& final(self).wal() == old(self).wal()
                        &&& final(self).tables() == old(self).tables()
                        &&& final(self).imgs() == old(self).imgs()
                    } else {
                        &&& final(self).mem() == empty_model()
                        &&& final(self).mem_ops() == Seq::<LogOperationV>::empty()
                        &&& final(self).wal() == Seq::<u8>::empty()
                        &&& final(self).tables().len() == old(self).tables().len() + 1
                        &&& final(self).tables().take(old(self).tables().len() as int) == old(
                            self,
                        ).tables()
                        &&& final(self).imgs().take(old(self).tables().len() as int) == old(
                            self,
                        ).imgs()
                        &&& final(self).tables().last()@.count == old(self).mem().dom().len()
                        &&& (mem_fits(old(self).mem(), old(self).k())
                            ==> final(self).tables().last()@.min.len() <= old(self).k()
                            && final(self).tables().last()@.max.len() <= old(self).k())
                        &&& (mem_fits(old(self).mem(), old(self).k()) ==> table_honest(
                            final(self).imgs().last().index@,
                            final(self).imgs().last().storage@,
                            old(self).k(),
                            final(self).tables().last()@.count,
                        ))
                        &&& (mem_fits(old(self).mem(), old(self).k()) ==> forall|q: Seq<u8>|
                            table_lookup(
                                final(self).tables().last()@,
                                final(self).imgs().last().index@,
                                final(self).imgs().last().storage@,
                                old(self).k(),
                                q,
                            ) == (if old(self).mem().contains_key(q) {
                                Some(old(self).mem()[q])
                            } else {
                                None
                            }))
                    }
                    &&& (mem_fits(old(self).mem(), old(self).k()) ==> forall|q: Seq<u8>|
                        final(self).resolves(q) == old(self).resolves(q))
                },
                Err(e) => {
                    &&& e == EngineError::NoFreshName
                    &&& old(self).tables().len() > (usize::MAX - 1) / 2
                    &&& (old(self).k() + 8) * old(self).mem().dom().len() >= old(
                        self,
                    ).cfg().initial_index_file_threshold as int
                    &&& final(self).mem() == old(self).mem()
                    &&& final(self).mem_ops() == old(self).mem_ops()
                    &&& final(self).wal() == old(self).wal()
                    &&& final(self).tables() == old(self).tables()
                    &&& final(self).imgs() == old(self).imgs()
                },
            },
    {
        let k = self.config.index_key_string_size;
        let km: u128 = (k as u128) + 8;
        let ln: u128 = self.memtable.len() as u128;
        proof {
            assert((km * ln) as int == (self.k() + 8) * (self.mem().dom().len() as int)) by (
            nonlinear_arith)
                requires
                    km == self.k() + 8,
                    ln == self.mem().dom().len(),
                    0 <= self.k(),
                    km < 0x20000,
                    ln < 0x10000000000000000,
            ;
            assert(km * ln < 0x200000000000000000000) by (nonlinear_arith)
                requires
                    km < 0x20000,
                    ln < 0x10000000000000000,
            ;
        }
        if km * ln < (self.config.initial_index_file_threshold as u128) {
            return Ok(());
        }
        let (sp, ip) = match self.fresh_paths() {
            Ok(p) => p,
            Err(e) => {
                return Err(e);
            },
        };
        let ghost fresh_id = choose|id: int|
            {
                &&& 0 <= id
                &&& sp@ == spath_of(self.name(), id)
                &&& ip@ == ipath_of(self.name(), id)
                &&& !id_taken(self.tables(), self.name(), id)
            };
        let snap = self.memtable.iter();
        proof {
            // distinct buffered keys have distinct slots, so the build
            // cannot refuse the snapshot
            assert forall|t: int|
                0 <= t < snap@.len() - 1 implies trunc_key(
                #[trigger] snap@[t].0@,
                k as int,
            ) != trunc_key(snap@[t + 1].0@, k as int) by {
                lemma_lex_total(snap@[t].0@, snap@[t + 1].0@);
                assert(self.mem().contains_key(snap@[t].0@));
                assert(self.mem().contains_key(snap@[t + 1].0@));
            }
            if snap@.len() == 0 {
                assert(self.mem().dom().len() == 0);
            }
            // a live snapshot record sits under its own key
            assert forall|i: int|
                0 <= i < snap@.len() implies match view_val(#[trigger] snap@[i].1) {
                Some(rv) => trunc_key(rv.key, k as int) == trunc_key(snap@[i].0@, k as int),
                None => true,
            } by {
                assert(self.mem().contains_key(snap@[i].0@));
                assert(view_val(snap@[i].1) == self.mem()[snap@[i].0@]);
            }
        }
        let (desc, files) = match SSTable::create(sp, ip, &snap, &self.serializer, &self.config) {
            Ok(x) => x,
            Err(_) => {
                proof {
                    assert(false);
                }
                return Err(EngineError::EmptyFlush);
            },
        };
        let ghost om = self.mem();
        let ghost ots = self.tables();
        let ghost oims = self.imgs();
        let ghost snapv = entries_view(snap@);
        self.sstables.push(desc);
        self.images.push(files);
        self.memtable.clear();
        proof {
            let kk = self.k();
            let d = self.tables().last();
            let im = self.imgs().last();
            assert(self.tables().take(ots.len() as int) =~= ots);
            assert(self.imgs().take(oims.len() as int) =~= oims);
            assert(self.tables().drop_last() =~= ots);
            assert(self.imgs().drop_last() =~= oims);
            // the stack invariant extends to the new table
            assert forall|i: int|
                0 <= i < self.tables().len() implies table_wf(
                (#[trigger] self.tables()[i])@,
                self.imgs()[i].index@,
                self.imgs()[i].storage@,
                kk,
            ) by {
                if i < ots.len() {
                    assert(self.tables()[i] == ots[i]);
                    assert(self.imgs()[i] == oims[i]);
                }
            }
            assert forall|i: int| 0 <= i < self.tables().len() implies desc_ok(
                (#[trigger] self.tables()[i])@,
            ) by {
                if i < ots.len() {
                    assert(self.tables()[i] == ots[i]);
                } else {
                    lemma_path_valid(self.name(), fresh_id);
                    assert(table_wf(d@, im.index@, im.storage@, kk));
                    // the raw extremes are snapshot keys, which the
                    // buffer only ever holds in carryable form
                    assert(d@.min == snap@[0].0@);
                    assert(d@.max == snap@[snap@.len() - 1].0@);
                    assert(om.contains_key(snap@[0].0@));
                    assert(om.contains_key(snap@[snap@.len() - 1].0@));
                }
            }
            assert(self.wf());
            // the new table holds exactly the old buffer, and reads are
            // preserved, whenever the buffered keys fit a slot
            assert(d@.count == om.dom().len());
            if mem_fits(om, kk) {
                // the raw extremes are buffered keys, so they fit a slot
                assert(d@.min == snap@[0].0@ && d@.max == snap@[snap@.len() - 1].0@);
                assert(om.contains_key(snap@[0].0@) && om.contains_key(
                    snap@[snap@.len() - 1].0@,
                ));
                assert(d@.min.len() <= kk && d@.max.len() <= kk);
                assert forall|i: int| 0 <= i < snapv.len() implies #[trigger] snapv[i].0.len()
                    <= kk by {
                    assert(snapv[i].0 == snap@[i].0@);
                    assert(om.contains_key(snap@[i].0@));
                }
                assert forall|i: int, j: int|
                    0 <= i < j < snapv.len() implies lex_lt(
                    #[trigger] snapv[i].0,
                    #[trigger] snapv[j].0,
                ) by {
                    assert(snapv[i].0 == snap@[i].0@ && snapv[j].0 == snap@[j].0@);
                }
                assert forall|i: int|
                    0 <= i < snapv.len() implies om.contains_key(#[trigger] snapv[i].0)
                    && snapv[i].1 == om[snapv[i].0] by {
                    assert(snapv[i].0 == snap@[i].0@ && snapv[i].1 == view_val(snap@[i].1));
                }
                assert forall|key: Seq<u8>| #[trigger]
                    om.contains_key(key) implies exists|i: int|
                    0 <= i < snapv.len() && snapv[i].0 == key by {
                    let i = choose|i: int| 0 <= i < snap@.len() && snap@[i].0@ == key;
                    assert(snapv[i].0 == key);
                }
                // every live record of the new table sits under its own key
                assert forall|i: int|
                    0 <= i < d@.count implies match #[trigger] crate::sstable::table::table_val(
                    im.index@,
                    im.storage@,
                    kk,
                    i,
                ) {
                    Some(r) => r.key == crate::sstable::table::table_key(im.index@, kk, i),
                    None => true,
                } by {
                    assert(table_entries(im.index@, im.storage@, kk, d@.count)[i]
                        == crate::sstable::table::trunc_entries(snapv, kk)[i]);
                    assert(snapv[i].0 == snap@[i].0@);
                    assert(om.contains_key(snapv[i].0));
                    assert(trunc_key(snapv[i].0, kk) == snapv[i].0);
                    assert(crate::sstable::table::table_key(im.index@, kk, i) == snapv[i].0);
                    assert(crate::sstable::table::table_val(im.index@, im.storage@, kk, i)
                        == snapv[i].1);
                    assert(snapv[i].1 == om[snapv[i].0]);
                }
                assert(table_honest(im.index@, im.storage@, kk, d@.count));
                assert(table_honest(
                    self.imgs().last().index@,
                    self.imgs().last().storage@,
                    kk,
                    self.tables().last()@.count,
                ));
                // the new table holds exactly the old buffer
                assert forall|q: Seq<u8>|
                    table_lookup(
                        self.tables().last()@,
                        self.imgs().last().index@,
                        self.imgs().last().storage@,
                        kk,
                        q,
                    ) == (if om.contains_key(q) {
                        Some(om[q])
                    } else {
                        None
                    }) by {
                    lemma_snapshot_lookup(om, snapv, d@, im.index@, im.storage@, kk, q);
                }
                // and no read changes its answer
                assert forall|q: Seq<u8>| self.resolves(q) == store_get(om, ots, oims, kk, q) by {
                    lemma_snapshot_lookup(om, snapv, d@, im.index@, im.storage@, kk, q);
                    if om.contains_key(q) {
                        assert(chain_get(self.tables(), self.imgs(), kk, q) == Some(om[q]));
                    } else {
                        assert(chain_get(self.tables(), self.imgs(), kk, q) == chain_get(
                            ots,
                            oims,
                            kk,
                            q,
                        ));
                    }
                }
            }
            assert(self.tables().last()@.count == old(self).mem().dom().len());
        }
        Ok(())
    }
}

/// The state a successful mutation leaves: the buffer, log and stack
/// updated in place when the buffer stays below the flush threshold, or
/// flushed into one new table at the newest end of the stack — which then
/// holds exactly the buffered bindings, when their keys fit a slot —
/// with the buffer and the log emptied.
pub open spec fn engine_step(
    pre: Engine,
    post: Engine,
    m1: Map<Seq<u8>, Option<RecordV>>,
    ops1: Seq<LogOperationV>,
    wal1: Seq<u8>,
) -> bool {
    if (pre.k() + 8) * m1.dom().len() < pre.cfg().initial_index_file_threshold as int {
        &&& post.mem() == m1
        &&& post.mem_ops() == ops1
        &&& post.wal() == wal1
        &&& post.tables() == pre.tables()
        &&& post.imgs() == pre.imgs()
    } else {
        &&& post.mem() == empty_model()
        &&& post.mem_ops() == Seq::<LogOperationV>::empty()
        &&& post.wal() == Seq::<u8>::empty()
        &&& post.tables().len() == pre.tables().len() + 1
        &&& post.tables().take(pre.tables().len() as int) == pre.tables()
        &&& post.imgs().take(pre.tables().len() as int) == pre.imgs()
        &&& post.tables().last()@.count == m1.dom().len()
        &&& mem_fits(m1, pre.k()) ==> post.tables().last()@.min.len() <= pre.k()
            && post.tables().last()@.max.len() <= pre.k()
        &&& mem_fits(m1, pre.k()) ==> table_honest(
            post.imgs().last().index@,
            post.imgs().last().storage@,
            pre.k(),
            post.tables().last()@.count,
        )
        &&& mem_fits(m1, pre.k()) ==> forall|q: Seq<u8>|
            table_lookup(
                post.tables().last()@,
                post.imgs().last().index@,
                post.imgs().last().storage@,
                pre.k(),
                q,
            ) == (if m1.contains_key(q) {
                Some(m1[q])
            } else {
                None
            })
    }
}

impl Engine {
    /// Whether a different buffered key would share the new key's index
    /// slot.
    fn collides(&self, key: &Vec<u8>) -> (r: bool)
        requires
            self.wf(),
        ensures
            r == (exists|k2: Seq<u8>|
                self.mem().contains_key(k2) && k2 != key@ && trunc_key(k2, self.k()) == trunc_key(
                    key@,
                    self.k(),
                )),
    {
        let k = self.config.index_key_string_size;
        let tk = crate::sstable::table::trunc_exec(key, k);
        let snap = self.memtable.iter();
        let mut j: usize = 0;
        while j < snap.len()
            invariant
                j <= snap@.len(),
                k == self.cfg().index_key_string_size,
                tk@ == trunc_key(key@, k as int),
                forall|t: int|
                    0 <= t < snap@.len() ==> self.mem().contains_key(#[trigger] snap@[t].0@),
                forall|k2: Seq<u8>| #[trigger]
                    self.mem().contains_key(k2) ==> exists|t: int|
                        0 <= t < snap@.len() && snap@[t].0@ == k2,
                forall|t: int|
                    0 <= t < j ==> (#[trigger] snap@[t].0@ == key@ || trunc_key(
                        snap@[t].0@,
                        k as int,
                    ) != trunc_key(key@, k as int)),
            decreases snap@.len() - j,
        {
            let e = &snap[j];
            if !bytes_eq(e.0.as_slice(), key.as_slice()) {
                let t2 = crate::sstable::table::trunc_exec(&e.0, k);
                if bytes_eq(t2.as_slice(), tk.as_slice()) {
                    proof {
                        assert(self.mem().contains_key(snap@[j as int].0@));
                    }
                    return true;
                }
            }
            j = j + 1;
        }
        proof {
            assert forall|k2: Seq<u8>|
                !(self.mem().contains_key(k2) && k2 != key@ && trunc_key(k2, self.k())
                    == trunc_key(key@, self.k())) by {
                if self.mem().contains_key(k2) {
                    let t = choose|t: int| 0 <= t < snap@.len() && snap@[t].0@ == k2;
                }
            }
        }
        false
    }

    /// Inserts a record: rejects a key a different buffered key's slot
    /// would hide, records the insertion on the log, binds the key in the
    /// buffer, then flushes if the buffer crossed the threshold. With
    /// keys that fit a slot, the new state answers the inserted key with
    /// the record and every other key as before.
    pub fn insert(&mut self, record: Record) -> (r: Result<(), EngineError>)
        requires
            old(self).wf(),
            record.wf(),
        ensures
            final(self).wf(),
            final(self).cfg() == old(self).cfg(),
            final(self).name() == old(self).name(),
            match r {
                Ok(_) => {
                    &&& forall|k2: Seq<u8>|
                        !(old(self).mem().contains_key(k2) && k2 != record@.key && trunc_key(
                            k2,
                            old(self).k(),
                        ) == #[trigger] trunc_key(record@.key, old(self).k()))
                    &&& engine_step(
                        *old(self),
                        *final(self),
                        old(self).mem().insert(record@.key, Some(record@)),
                        old(self).mem_ops().push(LogOperationV::Insert { record: record@ }),
                        old(self).wal() + enc_op(LogOperationV::Insert { record: record@ }),
                    )
                    &&& mem_fits(
                        old(self).mem().insert(record@.key, Some(record@)),
                        old(self).k(),
                    ) ==> forall|q: Seq<u8>|
                        final(self).resolves(q) == (if q == record@.key {
                            Some(record@)
                        } else {
                            old(self).resolves(q)
                        })
                },
                Err(e) => {
                    ||| {
                        &&& e == EngineError::KeyCollision
                        &&& exists|k2: Seq<u8>|
                            old(self).mem().contains_key(k2) && k2 != record@.key && trunc_key(
                                k2,
                                old(self).k(),
                            ) == trunc_key(record@.key, old(self).k())
                        &&& final(self).mem() == old(self).mem()
                        &&& final(self).tables() == old(self).tables()
                        &&& final(self).imgs() == old(self).imgs()
                        &&& final(self).wal() == old(self).wal()
                        &&& final(self).mem_ops() == old(self).mem_ops()
                    }
                    ||| {
                        &&& e == EngineError::NoFreshName
                        &&& old(self).tables().len() > (usize::MAX - 1) / 2
                        &&& final(self).mem() == old(self).mem().insert(record@.key, Some(record@))
                        &&& final(self).mem_ops() == old(self).mem_ops().push(
                            LogOperationV::Insert { record: record@ },
                        )
                        &&& final(self).wal() == old(self).wal() + enc_op(
                            LogOperationV::Insert { record: record@ },
                        )
                        &&& final(self).tables() == old(self).tables()
                        &&& final(self).imgs() == old(self).imgs()
                        &&& mem_fits(
                            old(self).mem().insert(record@.key, Some(record@)),
                            old(self).k(),
                        ) ==> forall|q: Seq<u8>|
                            final(self).resolves(q) == (if q == record@.key {
                                Some(record@)
                            } else {
                                old(self).resolves(q)
                            })
                    }
                },
            },
    {
        if self.collides(&record.key) {
            return Err(EngineError::KeyCollision);
        }
        let ghost rv = record@;
        let ghost om = self.mem();
        let ghost ots = self.tables();
        let ghost oims = self.imgs();
        let ghost ok = self.k();
        self.memtable.insert(record);
        proof {
            step_facts_insert(om, self.mem(), ots, oims, ok, rv.key, Some(rv));
        }
        let ghost mid = *self;
        match self.flush_if_ready() {
            Ok(_) => {
                proof {
                    if mem_fits(om.insert(rv.key, Some(rv)), ok) {
                        assert forall|q: Seq<u8>| self.resolves(q) == (if q == rv.key {
                            Some(rv)
                        } else {
                            store_get(om, ots, oims, ok, q)
                        }) by {
                            assert(self.resolves(q) == mid.resolves(q));
                        }
                    }
                }
                Ok(())
            },
            Err(e) => {
                proof {
                    if mem_fits(om.insert(rv.key, Some(rv)), ok) {
                        assert forall|q: Seq<u8>| self.resolves(q) == (if q == rv.key {
                            Some(rv)
                        } else {
                            store_get(om, ots, oims, ok, q)
                        }) by {
                            assert(self.resolves(q) == mid.resolves(q));
                        }
                    }
                }
                Err(e)
            },
        }
    }

    /// Deletes a key: rejects a key a different buffered key's slot would
    /// hide, records the deletion on the log, binds the key to a
    /// tombstone — a delete of an absent key still writes one, since an
    /// older table below may hold a live value — then flushes if the
    /// buffer crossed the threshold. With keys that fit a slot, the new
    /// state answers the deleted key with nothing and every other key as
    /// before.
    pub fn delete(&mut self, key: Vec<u8>) -> (r: Result<(), EngineError>)
        requires
            old(self).wf(),
            valid_key(key@),
        ensures
            final(self).wf(),
            final(self).cfg() == old(self).cfg(),
            final(self).name() == old(self).name(),
            match r {
                Ok(_) => {
                    &&& forall|k2: Seq<u8>|
                        !(old(self).mem().contains_key(k2) && k2 != key@ && trunc_key(
                            k2,
                            old(self).k(),
                        ) == #[trigger] trunc_key(key@, old(self).k()))
                    &&& engine_step(
                        *old(self),
                        *final(self),
                        old(self).mem().insert(key@, None),
                        old(self).mem_ops().push(LogOperationV::Delete { key: key@ }),
                        old(self).wal() + enc_op(LogOperationV::Delete { key: key@ }),
                    )
                    &&& mem_fits(old(self).mem().insert(key@, None), old(self).k())
                        ==> forall|q: Seq<u8>|
                        final(self).resolves(q) == (if q == key@ {
                            None
                        } else {
                            old(self).resolves(q)
                        })
                },
                Err(e) => {
                    ||| {
                        &&& e == EngineError::KeyCollision
                        &&& exists|k2: Seq<u8>|
                            old(self).mem().contains_key(k2) && k2 != key@ && trunc_key(
                                k2,
                                old(self).k(),
                            ) == trunc_key(key@, old(self).k())
                        &&& final(self).mem() == old(self).mem()
                        &&& final(self).tables() == old(self).tables()
                        &&& final(self).imgs() == old(self).imgs()
                        &&& final(self).wal() == old(self).wal()
                        &&& final(self).mem_ops() == old(self).mem_ops()
                    }
                    ||| {
                        &&& e == EngineError::NoFreshName
                        &&& old(self).tables().len() > (usize::MAX - 1) / 2
                        &&& final(self).mem() == old(self).mem().insert(key@, None)
                        &&& final(self).mem_ops() == old(self).mem_ops().push(
                            LogOperationV::Delete { key: key@ },
                        )
                        &&& final(self).wal() == old(self).wal() + enc_op(
                            LogOperationV::Delete { key: key@ },
                        )
                        &&& final(self).tables() == old(self).tables()
                        &&& final(self).imgs() == old(self).imgs()
                        &&& mem_fits(old(self).mem().insert(key@, None), old(self).k())
                            ==> forall|q: Seq<u8>|
                            final(self).resolves(q) == (if q == key@ {
                                None
                            } else {
                                old(self).resolves(q)
                            })
                    }
                },
            },
    {
        if self.collides(&key) {
            return Err(EngineError::KeyCollision);
        }
        let ghost kv = key@;
        let ghost om = self.mem();
        let ghost ots = self.tables();
        let ghost oims = self.imgs();
        let ghost ok = self.k();
        self.memtable.delete(key);
        proof {
            step_facts_insert(om, self.mem(), ots, oims, ok, kv, None);
        }
        let ghost mid = *self;
        match self.flush_if_ready() {
            Ok(_) => {
                proof {
                    if mem_fits(om.insert(kv, None), ok) {
                        assert forall|q: Seq<u8>| self.resolves(q) == (if q == kv {
                            None
                        } else {
                            store_get(om, ots, oims, ok, q)
                        }) by {
                            assert(self.resolves(q) == mid.resolves(q));
                        }
                    }
                }
                Ok(())
            },
            Err(e) => {
                proof {
                    if mem_fits(om.insert(kv, None), ok) {
                        assert forall|q: Seq<u8>| self.resolves(q) == (if q == kv {
                            None
                        } else {
                            store_get(om, ots, oims, ok, q)
                        }) by {
                            assert(self.resolves(q) == mid.resolves(q));
                        }
                    }
                }
                Err(e)
            },
        }
    }
}

/// Binding one key in the buffer changes exactly that key's answer.
proof fn step_facts_insert(
    om: Map<Seq<u8>, Option<RecordV>>,
    nm: Map<Seq<u8>, Option<RecordV>>,
    ts: Seq<SSTable>,
    ims: Seq<TableImage>,
    k: int,
    key: Seq<u8>,
    v: Option<RecordV>,
)
    requires
        nm == om.insert(key, v),
        trunc_distinct(om, k),
        forall|k2: Seq<u8>|
            !(om.contains_key(k2) && k2 != key && trunc_key(k2, k) == trunc_key(key, k)),
    ensures
        trunc_distinct(nm, k),
        forall|q: Seq<u8>|
            store_get(nm, ts, ims, k, q) == (if q == key {
                match v {
                    Some(r) => Some(r),
                    None => None,
                }
            } else {
                store_get(om, ts, ims, k, q)
            }),
{
    assert forall|k1: Seq<u8>, k2: Seq<u8>|
        #![trigger nm.contains_key(k1), nm.contains_key(k2)]
        nm.contains_key(k1) && nm.contains_key(k2) && k1 != k2 implies trunc_key(k1, k)
        != trunc_key(k2, k) by {
        if k1 != key && k2 != key {
            assert(om.contains_key(k1) && om.contains_key(k2));
        } else if k1 == key {
            assert(om.contains_key(k2));
        } else {
            assert(om.contains_key(k1));
        }
    }
    assert forall|q: Seq<u8>|
        store_get(nm, ts, ims, k, q) == (if q == key {
            match v {
                Some(r) => Some(r),
                None => None,
            }
        } else {
            store_get(om, ts, ims, k, q)
        }) by {
        if q == key {
            assert(nm.contains_key(q) && nm[q] == v);
        } else {
            assert(nm.contains_key(q) == om.contains_key(q));
            if om.contains_key(q) {
                assert(nm[q] == om[q]);
            }
        }
    }
}

/// The size tier of a storage file: the largest exponent `e` with
/// `T * B^e` at most the size, and zero below the tier size.
pub open spec fn tier_spec(size: int, t: int, b: int) -> int
    decreases size,
    via tier_spec_dec
{
    if size < t * b || size < 1 || b < 2 {
        0
    } else {
        1 + tier_spec(size / b, t, b)
    }
}

#[via_fn]
proof fn tier_spec_dec(size: int, t: int, b: int) {
    if !(size < t * b || size < 1 || b < 2) {
        assert(0 <= size / b < size) by (nonlinear_arith)
            requires
                size >= 1,
                b >= 2,
        ;
    }
}

/// A table's tier, as the policy compares tiers.
pub open spec fn capped_tier(size: int, t: int, b: int) -> int {
    if tier_spec(size, t, b) < 128 {
        tier_spec(size, t, b)
    } else {
        128
    }
}

/// How many of the first `upto` tables sit in tier `tv`.
pub open spec fn count_tier(ts: Seq<SSTable>, tv: int, t: int, b: int, upto: int) -> int
    decreases upto,
{
    if upto <= 0 {
        0
    } else {
        count_tier(ts, tv, t, b, upto - 1) + (if capped_tier(ts[upto - 1]@.size, t, b) == tv {
            1int
        } else {
            0
        })
    }
}

/// The size tier of a storage file: how many times the tier size fits it
/// by powers of the multiplier; exponents beyond any reachable size are
/// capped.
fn tier_exec(size: usize, t: usize, b: u32) -> (r: u64)
    requires
        1 <= t,
        2 <= b,
    ensures
        r == (if tier_spec(size as int, t as int, b as int) < 128 {
            tier_spec(size as int, t as int, b as int)
        } else {
            128int
        }),
{
    let mut s = size;
    let mut e: u64 = 0;
    proof {
        assert((t as u128) * (b as u128) < 0x1000000000000000000000000) by (nonlinear_arith)
            requires
                (t as u128) < 0x10000000000000000,
                (b as u128) < 0x100000000,
        ;
    }
    proof {
        assert((t as u128) * (b as u128) >= 2) by (nonlinear_arith)
            requires
                1 <= t,
                2 <= b,
        ;
    }
    let tb: u128 = (t as u128) * (b as u128);
    let mut divs: Ghost<int> = Ghost(0);
    while (s as u128) >= tb
        invariant
            1 <= t,
            2 <= b,
            e <= 128,
            s <= size,
            tb == (t as u128) * (b as u128),
            tb >= 2,
            0 <= divs@,
            e == (if divs@ < 128 {
                divs@
            } else {
                128int
            }),
            tier_spec(size as int, t as int, b as int) == divs@ + tier_spec(
                s as int,
                t as int,
                b as int,
            ),
        decreases s,
    {
        proof {
            assert(s / (b as usize) < s) by (nonlinear_arith)
                requires
                    1 <= s,
                    2 <= b as usize,
            ;
            assert(tier_spec(s as int, t as int, b as int) == 1 + tier_spec(
                s as int / (b as int),
                t as int,
                b as int,
            )) by {
                assert((s as u128) >= tb);
                assert((s as int) >= (t as int) * (b as int)) by (nonlinear_arith)
                    requires
                        (s as u128) >= (t as u128) * (b as u128),
                ;
            }
            assert(s as int / (b as int) == (s / (b as usize)) as int);
        }
        s = s / (b as usize);
        proof {
            divs@ = divs@ + 1;
        }
        if e < 128 {
            e = e + 1;
        }
    }
    proof {
        assert((s as int) < (t as int) * (b as int)) by (nonlinear_arith)
            requires
                (s as u128) < (t as u128) * (b as u128),
        ;
        assert(tier_spec(s as int, t as int, b as int) == 0);
    }
    e
}

/// The first table whose size tier holds strictly more tables than the
/// threshold; the stack's length if no tier does.
pub open spec fn first_overfull(ts: Seq<SSTable>, t: int, b: int, thr: int, i: int) -> int
    decreases ts.len() - i,
{
    if i < 0 || i >= ts.len() {
        ts.len() as int
    } else if count_tier(ts, capped_tier(ts[i]@.size, t, b), t, b, ts.len() as int) > thr {
        i
    } else {
        first_overfull(ts, t, b, thr, i + 1)
    }
}

/// Where the contiguous run of tier `tv` starting at `i` ends: the first
/// index at or past `i` holding another tier, or the stack's length.
pub open spec fn run_end(ts: Seq<SSTable>, tv: int, t: int, b: int, i: int) -> int
    decreases ts.len() - i,
{
    if i < 0 || i >= ts.len() {
        ts.len() as int
    } else if capped_tier(ts[i]@.size, t, b) != tv {
        i
    } else {
        run_end(ts, tv, t, b, i + 1)
    }
}

/// A table whose stored keys fit the slot width: the descriptor's raw
/// extremes and every live record's key are at most `k` bytes, so the
/// index file carries each of them whole.
pub open spec fn table_fits(desc: SSTableV, index: Seq<u8>, storage: Seq<u8>, k: int) -> bool {
    &&& desc.min.len() <= k
    &&& desc.max.len() <= k
    &&& forall|i: int|
        0 <= i < desc.count ==> match #[trigger] crate::sstable::table::table_val(
            index,
            storage,
            k,
            i,
        ) {
            Some(r) => r.key.len() <= k,
            None => true,
        }
}

/// Every table of the stack fits the slot width: every stack this store
/// writes from buffers of fitting keys does, and so does any opened image
/// whose keys fit.
pub open spec fn stack_fits(ts: Seq<SSTable>, ims: Seq<TableImage>, k: int) -> bool {
    forall|i: int|
        0 <= i < ts.len() ==> table_fits(
            (#[trigger] ts[i])@,
            ims[i].index@,
            ims[i].storage@,
            k,
        )
}

/// A well-formed table whose keys fit the slot width is honest: a live
/// record's key resolves to its slot key and fits it whole, so the two
/// are equal.
pub proof fn lemma_fits_honest(desc: SSTableV, index: Seq<u8>, storage: Seq<u8>, k: int)
    requires
        table_wf(desc, index, storage, k),
        table_fits(desc, index, storage, k),
    ensures
        table_honest(index, storage, k, desc.count),
{
    assert forall|i: int|
        0 <= i < desc.count implies match #[trigger] crate::sstable::table::table_val(
        index,
        storage,
        k,
        i,
    ) {
        Some(r) => r.key == crate::sstable::table::table_key(index, k, i),
        None => true,
    } by {
        assert(crate::sstable::table::entry_ok(index, storage, k, i));
    }
}

/// The scan for the first overfull tier stops exactly where its
/// characterization says.
proof fn lemma_first_overfull_pin(ts: Seq<SSTable>, t: int, b: int, thr: int, i: int, fi: int)
    requires
        0 <= i <= fi <= ts.len(),
        forall|x: int|
            i <= x < fi ==> count_tier(
                ts,
                capped_tier((#[trigger] ts[x])@.size, t, b),
                t,
                b,
                ts.len() as int,
            ) <= thr,
        fi < ts.len() ==> count_tier(
            ts,
            capped_tier(ts[fi]@.size, t, b),
            t,
            b,
            ts.len() as int,
        ) > thr,
    ensures
        first_overfull(ts, t, b, thr, i) == fi,
    decreases fi - i,
{
    if i < fi {
        lemma_first_overfull_pin(ts, t, b, thr, i + 1, fi);
    }
}

/// The scan for the run's end stops exactly where its characterization
/// says.
proof fn lemma_run_end_pin(ts: Seq<SSTable>, tv: int, t: int, b: int, i: int, re: int)
    requires
        0 <= i <= re <= ts.len(),
        forall|x: int| i <= x < re ==> capped_tier((#[trigger] ts[x])@.size, t, b) == tv,
        re < ts.len() ==> capped_tier(ts[re]@.size, t, b) != tv,
    ensures
        run_end(ts, tv, t, b, i) == re,
    decreases re - i,
{
    if i < re {
        lemma_run_end_pin(ts, tv, t, b, i + 1, re);
    }
}

/// Dropping a leading run whose every key resolved to a tombstone changes
/// no answer of the store: the walk below the run was empty, and a
/// tombstone already answered "absent".
proof fn lemma_compaction_drop_preserves(
    mem: Map<Seq<u8>, Option<RecordV>>,
    ts: Seq<SSTable>,
    ims: Seq<TableImage>,
    k: int,
    hi: int,
    q: Seq<u8>,
)
    requires
        ts.len() == ims.len(),
        0 < hi <= ts.len(),
        forall|i: int|
            0 <= i < ts.len() ==> table_wf(
                (#[trigger] ts[i])@,
                ims[i].index@,
                ims[i].storage@,
                k,
            ),
        stack_fits(ts, ims, k),
        forall|key: Seq<u8>|
            #[trigger] stack_has(tables_entries(ts.subrange(0, hi), ims.subrange(0, hi), k), key)
                ==> stack_val(
                tables_entries(ts.subrange(0, hi), ims.subrange(0, hi), k),
                key,
            ) is None,
    ensures
        store_get(mem, ts.skip(hi), ims.skip(hi), k, q) == store_get(mem, ts, ims, k, q),
{
    if mem.contains_key(q) {
        return ;
    }
    let run_ts = ts.subrange(0, hi);
    let run_ims = ims.subrange(0, hi);
    let run = tables_entries(run_ts, run_ims, k);
    lemma_chain_split(ts, ims, k, q, hi);
    assert(ts.take(hi) =~= run_ts);
    assert(ims.take(hi) =~= run_ims);
    assert forall|i: int| 0 <= i < run_ts.len() implies table_wf(
        (#[trigger] run_ts[i])@,
        run_ims[i].index@,
        run_ims[i].storage@,
        k,
    ) && table_honest(run_ims[i].index@, run_ims[i].storage@, k, run_ts[i]@.count)
        && run_ts[i]@.min.len() <= k && run_ts[i]@.max.len() <= k by {
        assert(run_ts[i] == ts[i] && run_ims[i] == ims[i]);
        assert(table_fits(ts[i]@, ims[i].index@, ims[i].storage@, k));
        lemma_fits_honest(ts[i]@, ims[i].index@, ims[i].storage@, k);
    }
    lemma_run_chain(run_ts, run_ims, k, q);
}

impl Engine {
    /// Runs the size-tiered compaction policy: tables are grouped by the
    /// tier of their storage size, and for the first tier holding
    /// strictly more tables than the threshold, the contiguous run of
    /// that tier starting at its first table is merged — oldest first —
    /// into one new table that stands where the run stood; tombstones are
    /// dropped only when the run starts at the store's oldest table, and
    /// a run of nothing but dropped tombstones vanishes without a
    /// replacement. Merging a scattered set in place of its newest member
    /// could change answers, which is why only a contiguous run is taken;
    /// a scattered tier is compacted run by run across calls. A call with
    /// no overfull tier changes nothing, and on a stack whose keys fit
    /// the slot width — which stays fitting — no read changes its answer.
    #[verifier::rlimit(100)]
    pub fn compact(&mut self) -> (r: Result<(), EngineError>)
        requires
            old(self).wf(),
        ensures
            final(self).wf(),
            final(self).cfg() == old(self).cfg(),
            final(self).name() == old(self).name(),
            final(self).mem() == old(self).mem(),
            final(self).mem_ops() == old(self).mem_ops(),
            final(self).wal() == old(self).wal(),
            match r {
                Ok(_) => {
                    &&& compaction_shape(*old(self), *final(self))
                    &&& stack_fits(old(self).tables(), old(self).imgs(), old(self).k())
                        ==> stack_fits(final(self).tables(), final(self).imgs(), old(self).k())
                    &&& stack_fits(old(self).tables(), old(self).imgs(), old(self).k())
                        ==> forall|q: Seq<u8>| final(self).resolves(q) == old(self).resolves(q)
                },
                Err(e) => {
                    &&& e == EngineError::NoFreshName
                    &&& old(self).tables().len() > (usize::MAX - 1) / 2
                    &&& final(self).tables() == old(self).tables()
                    &&& final(self).imgs() == old(self).imgs()
                },
            },
    {
        let n = self.sstables.len();
        if n == 0 {
            proof {
                assert(compaction_shape(*old(self), *self));
            }
            return Ok(());
        }
        let t = self.config.compaction_tier_size;
        let b = self.config.compaction_size_multiplier;
        let thr = self.config.compaction_threshold;
        let ghost ts0 = self.tables();
        let ghost ims0 = self.imgs();
        let ghost kk = self.k();
        let mut tiers: Vec<u64> = Vec::new();
        let mut i: usize = 0;
        while i < n
            invariant
                i <= n,
                n == self.tables().len(),
                ts0 == self.tables(),
                tiers@.len() == i,
                1 <= t,
                2 <= b,
                t == self.cfg().compaction_tier_size,
                b == self.cfg().compaction_size_multiplier,
                self.wf(),
                forall|j: int|
                    0 <= j < i ==> #[trigger] tiers@[j] as int == capped_tier(
                        ts0[j]@.size,
                        t as int,
                        b as int,
                    ),
            decreases n - i,
        {
            tiers.push(tier_exec(self.sstables[i].size, t, b));
            i = i + 1;
        }
        // the first tier holding more tables than the threshold
        let mut fi: usize = n;
        let mut i: usize = 0;
        while i < n
            invariant
                i <= n,
                n == tiers@.len(),
                n == ts0.len(),
                fi <= n,
                1 <= t,
                2 <= b,
                thr == self.cfg().compaction_threshold,
                t == self.cfg().compaction_tier_size,
                b == self.cfg().compaction_size_multiplier,
                forall|j: int|
                    0 <= j < n ==> #[trigger] tiers@[j] as int == capped_tier(
                        ts0[j]@.size,
                        t as int,
                        b as int,
                    ),
                forall|x: int|
                    0 <= x < (if fi < n {
                        fi as int
                    } else {
                        i as int
                    }) ==> count_tier(
                        ts0,
                        capped_tier((#[trigger] ts0[x])@.size, t as int, b as int),
                        t as int,
                        b as int,
                        n as int,
                    ) <= thr as int,
                fi < n ==> count_tier(
                    ts0,
                    capped_tier(ts0[fi as int]@.size, t as int, b as int),
                    t as int,
                    b as int,
                    n as int,
                ) > thr as int,
            decreases n - i,
        {
            if fi == n {
                let mut cnt: u64 = 0;
                let mut j: usize = 0;
                while j < n
                    invariant
                        j <= n,
                        n == tiers@.len(),
                        n == ts0.len(),
                        i < n,
                        cnt <= j,
                        1 <= t,
                        2 <= b,
                        forall|x: int|
                            0 <= x < n ==> #[trigger] tiers@[x] as int == capped_tier(
                                ts0[x]@.size,
                                t as int,
                                b as int,
                            ),
                        cnt == count_tier(
                            ts0,
                            capped_tier(ts0[i as int]@.size, t as int, b as int),
                            t as int,
                            b as int,
                            j as int,
                        ),
                    decreases n - j,
                {
                    if tiers[j] == tiers[i] {
                        cnt = cnt + 1;
                    }
                    j = j + 1;
                }
                if cnt > (thr as u64) {
                    fi = i;
                }
            }
            i = i + 1;
        }
        proof {
            lemma_first_overfull_pin(
                ts0,
                t as int,
                b as int,
                thr as int,
                0,
                fi as int,
            );
        }
        if fi == n {
            proof {
                assert(compaction_shape(*old(self), *self));
            }
            return Ok(());
        }
        // the contiguous run of that tier, from its first table on
        let ghost tv = capped_tier(ts0[fi as int]@.size, t as int, b as int);
        let mut re: usize = fi + 1;
        while re < n && tiers[re] == tiers[fi]
            invariant
                fi < re <= n,
                n == tiers@.len(),
                n == ts0.len(),
                fi < n,
                tv == capped_tier(ts0[fi as int]@.size, t as int, b as int),
                forall|x: int|
                    0 <= x < n ==> #[trigger] tiers@[x] as int == capped_tier(
                        ts0[x]@.size,
                        t as int,
                        b as int,
                    ),
                forall|x: int|
                    fi <= x < re ==> capped_tier(
                        (#[trigger] ts0[x])@.size,
                        t as int,
                        b as int,
                    ) == tv,
            decreases n - re,
        {
            re = re + 1;
        }
        proof {
            lemma_run_end_pin(ts0, tv, t as int, b as int, fi as int, re as int);
        }
        let includes_oldest = fi == 0;
        let (sp, ip) = match self.fresh_paths() {
            Ok(p) => p,
            Err(e) => {
                return Err(e);
            },
        };
        let ghost fresh_id = choose|id: int|
            {
                &&& 0 <= id
                &&& sp@ == spath_of(self.name(), id)
                &&& ip@ == ipath_of(self.name(), id)
                &&& !id_taken(self.tables(), self.name(), id)
            };
        // carve the run out of the stack
        let mut run_d = self.sstables.split_off(fi);
        let mut run_i = self.images.split_off(fi);
        let mut tail_d = run_d.split_off(re - fi);
        let mut tail_i = run_i.split_off(re - fi);
        proof {
            assert(self.tables() =~= ts0.take(fi as int));
            assert(self.imgs() =~= ims0.take(fi as int));
            assert(run_d@ =~= ts0.subrange(fi as int, re as int));
            assert(run_i@ =~= ims0.subrange(fi as int, re as int));
            assert(tail_d@ =~= ts0.skip(re as int));
            assert(tail_i@ =~= ims0.skip(re as int));
            assert forall|j: int| 0 <= j < run_d@.len() implies table_wf(
                (#[trigger] run_d@[j])@,
                run_i@[j].index@,
                run_i@[j].storage@,
                kk,
            ) by {
                assert(run_d@[j] == ts0[fi + j] && run_i@[j] == ims0[fi + j]);
            }
        }
        let merged = compaction::compact(
            &run_d,
            &run_i,
            includes_oldest,
            &self.serializer,
            &self.config,
            sp,
            ip,
        );
        match &merged {
            Ok(x) => {
                proof {
                    let dd = x.0@;
                    lemma_path_valid(self.name(), fresh_id);
                    assert(table_wf(dd, x.1.index@, x.1.storage@, kk));
                    assert(crate::sstable::table::entry_ok(x.1.index@, x.1.storage@, kk, 0));
                    assert(crate::sstable::table::entry_ok(
                        x.1.index@,
                        x.1.storage@,
                        kk,
                        dd.count - 1,
                    ));
                }
            },
            Err(_) => {
                proof {
                    // an empty merge only happens when tombstones were
                    // dropped, which needs the run to start at the oldest
                    if !includes_oldest {
                        let ents0 = crate::sstable::table::table_entries(
                            run_i@[0].index@,
                            run_i@[0].storage@,
                            kk,
                            run_d@[0]@.count,
                        );
                        let k0 = ents0[0].0;
                        assert(seq_has(ents0, k0));
                        let rents = tables_entries(run_d@, run_i@, kk);
                        assert(rents[0] == ents0);
                        crate::compaction::lemma_newest_some(rents, k0);
                        assert(stack_has(rents, k0));
                        assert(false);
                    }
                }
            },
        }
        let ghost was_ok = merged is Ok;
        match merged {
            Ok((desc, files)) => {
                self.sstables.push(desc);
                self.images.push(files);
            },
            Err(_) => {},
        }
        self.sstables.append(&mut tail_d);
        self.images.append(&mut tail_i);
        proof {
            let pre = *old(self);
            assert forall|j: int| 0 <= j < self.tables().len() implies table_wf(
                (#[trigger] self.tables()[j])@,
                self.imgs()[j].index@,
                self.imgs()[j].storage@,
                kk,
            ) && desc_ok(self.tables()[j]@) by {}
            assert(self.wf());
            assert(first_overfull(pre.tables(), t as int, b as int, thr as int, 0) == fi as int);
            assert(self.tables().take(fi as int) =~= pre.tables().take(fi as int));
            assert(self.imgs().take(fi as int) =~= pre.imgs().take(fi as int));
            if fi < self.tables().len() && self.tables().len() == pre.tables().len() - (
            re as int - fi as int) + 1 {
                assert(self.tables().skip(fi as int + 1) =~= pre.tables().skip(re as int));
                assert(self.imgs().skip(fi as int + 1) =~= pre.imgs().skip(re as int));
            }
            if !was_ok {
                // the run vanished: every key of it resolved to a dropped
                // tombstone
                assert(tables_entries(
                    pre.tables().subrange(0, re as int),
                    pre.imgs().subrange(0, re as int),
                    kk,
                ) =~= tables_entries(run_d@, run_i@, kk));
            }
            assert(compaction_shape(pre, *self));
            // on a stack whose keys fit the slot width, no read changes
            // its answer: fitting tables are honest
            if stack_fits(pre.tables(), pre.imgs(), kk) {
                let run = tables_entries(
                    pre.tables().subrange(fi as int, re as int),
                    pre.imgs().subrange(fi as int, re as int),
                    kk,
                );
                assert(run =~= tables_entries(run_d@, run_i@, kk));
                assert forall|j: int| 0 <= j < pre.tables().len() implies table_honest(
                    (#[trigger] pre.imgs()[j]).index@,
                    pre.imgs()[j].storage@,
                    kk,
                    pre.tables()[j]@.count,
                ) by {
                    assert(table_fits(
                        pre.tables()[j]@,
                        pre.imgs()[j].index@,
                        pre.imgs()[j].storage@,
                        kk,
                    ));
                    lemma_fits_honest(
                        pre.tables()[j]@,
                        pre.imgs()[j].index@,
                        pre.imgs()[j].storage@,
                        kk,
                    );
                }
                if was_ok {
                    let md = self.tables()[fi as int];
                    let mim = self.imgs()[fi as int];
                    assert(self.tables() =~= pre.tables().take(fi as int) + seq![md]
                        + pre.tables().skip(re as int));
                    assert(self.imgs() =~= pre.imgs().take(fi as int) + seq![mim] + pre.imgs().skip(
                        re as int,
                    ));
                    assert forall|j: int| 0 <= j < run_d@.len() implies table_honest(
                        (#[trigger] run_i@[j]).index@,
                        run_i@[j].storage@,
                        kk,
                        run_d@[j]@.count,
                    ) by {
                        assert(run_d@[j] == pre.tables()[fi + j] && run_i@[j] == pre.imgs()[fi
                            + j]);
                    }
                    let mseq = choose|m: Seq<(Seq<u8>, Option<RecordV>)>|
                        {
                            &&& #[trigger] compaction::entries_ok(m)
                            &&& m.len() == md@.count
                            &&& crate::sstable::table::trunc_entries(m, kk) == table_entries(
                                mim.index@,
                                mim.storage@,
                                kk,
                                md@.count,
                            )
                            &&& compaction::merge_fwd(run, m, fi == 0)
                            &&& forall|key: Seq<u8>|
                                #[trigger] stack_has(run, key) && !(fi == 0 && stack_val(
                                    run,
                                    key,
                                ) is None) ==> seq_has(m, key)
                        };
                    assert(compaction::merge_fwd(
                        tables_entries(run_d@, run_i@, kk),
                        mseq,
                        fi == 0,
                    ));
                    lemma_merged_honest(run_d@, run_i@, md, mim, mseq, kk, fi == 0);
                    // the merged table's extremes are merged keys, which
                    // are slot keys of the inputs, so the new table fits
                    assert(md@.min.len() <= kk && md@.max.len() <= kk);
                    assert(table_fits(md@, mim.index@, mim.storage@, kk));
                    assert forall|j: int|
                        0 <= j < self.tables().len() implies table_fits(
                        (#[trigger] self.tables()[j])@,
                        self.imgs()[j].index@,
                        self.imgs()[j].storage@,
                        kk,
                    ) by {
                        if j < fi {
                            assert(self.tables()[j] == pre.tables()[j]);
                            assert(self.imgs()[j] == pre.imgs()[j]);
                            assert(table_fits(
                                pre.tables()[j]@,
                                pre.imgs()[j].index@,
                                pre.imgs()[j].storage@,
                                kk,
                            ));
                        } else if j > fi {
                            assert(self.tables()[j] == pre.tables()[j - fi - 1 + re]);
                            assert(self.imgs()[j] == pre.imgs()[j - fi - 1 + re]);
                            assert(table_fits(
                                pre.tables()[j - fi - 1 + re]@,
                                pre.imgs()[j - fi - 1 + re].index@,
                                pre.imgs()[j - fi - 1 + re].storage@,
                                kk,
                            ));
                        }
                    }
                    assert forall|q: Seq<u8>| self.resolves(q) == pre.resolves(q) by {
                        lemma_compaction_preserves(
                            self.mem(),
                            pre.tables(),
                            pre.imgs(),
                            self.tables(),
                            self.imgs(),
                            md,
                            mim,
                            mseq,
                            kk,
                            fi as int,
                            re as int,
                            q,
                        );
                    }
                } else {
                    assert(fi == 0);
                    assert(self.tables() =~= pre.tables().skip(re as int));
                    assert(self.imgs() =~= pre.imgs().skip(re as int));
                    assert forall|j: int|
                        0 <= j < self.tables().len() implies table_fits(
                        (#[trigger] self.tables()[j])@,
                        self.imgs()[j].index@,
                        self.imgs()[j].storage@,
                        kk,
                    ) by {
                        assert(self.tables()[j] == pre.tables()[j + re]);
                        assert(self.imgs()[j] == pre.imgs()[j + re]);
                        assert(table_fits(
                            pre.tables()[j + re]@,
                            pre.imgs()[j + re].index@,
                            pre.imgs()[j + re].storage@,
                            kk,
                        ));
                    }
                    assert(run =~= tables_entries(
                        pre.tables().subrange(0, re as int),
                        pre.imgs().subrange(0, re as int),
                        kk,
                    ));
                    assert forall|q: Seq<u8>| self.resolves(q) == pre.resolves(q) by {
                        lemma_compaction_drop_preserves(
                            self.mem(),
                            pre.tables(),
                            pre.imgs(),
                            kk,
                            re as int,
                            q,
                        );
                    }
                }
            }
        }
        Ok(())
    }
}

/// The stack a compaction call leaves: unchanged when no tier is
/// overfull; otherwise the first overfull tier's leading contiguous run
/// replaced in place by its merge — a table whose entries are the run's
/// merge — or removed outright when every surviving key was a dropped
/// tombstone, which can only happen at the oldest end.
pub open spec fn compaction_shape(pre: Engine, post: Engine) -> bool {
    let t = pre.cfg().compaction_tier_size as int;
    let b = pre.cfg().compaction_size_multiplier as int;
    let thr = pre.cfg().compaction_threshold as int;
    let fi = first_overfull(pre.tables(), t, b, thr, 0);
    if fi == pre.tables().len() {
        post.tables() == pre.tables() && post.imgs() == pre.imgs()
    } else {
        let tv = capped_tier(pre.tables()[fi]@.size, t, b);
        let re = run_end(pre.tables(), tv, t, b, fi);
        ||| {
            &&& post.tables().len() == pre.tables().len() - (re - fi) + 1
            &&& post.imgs().len() == post.tables().len()
            &&& post.tables().take(fi) == pre.tables().take(fi)
            &&& post.imgs().take(fi) == pre.imgs().take(fi)
            &&& post.tables().skip(fi + 1) == pre.tables().skip(re)
            &&& post.imgs().skip(fi + 1) == pre.imgs().skip(re)
            &&& merged_run(pre, post, fi, re)
        }
        ||| {
            &&& fi == 0
            &&& forall|key: Seq<u8>|
                #[trigger] stack_has(
                    tables_entries(
                        pre.tables().subrange(0, re),
                        pre.imgs().subrange(0, re),
                        pre.k(),
                    ),
                    key,
                ) ==> stack_val(
                    tables_entries(
                        pre.tables().subrange(0, re),
                        pre.imgs().subrange(0, re),
                        pre.k(),
                    ),
                    key,
                ) is None
            &&& post.tables() == pre.tables().skip(re)
            &&& post.imgs() == pre.imgs().skip(re)
        }
    }
}

/// Tier arithmetic for a full tier: with a compaction threshold of two
/// and a stack of exactly three tables whose storage sizes share one size
/// tier, that tier is the first overfull one and its leading contiguous
/// run is the whole stack, so one compaction step replaces all three
/// tables by their merge — one table whenever any key of the three
/// resolves to a live record, and none only in the case where every
/// surviving key was a tombstone the drop rule removed.
pub proof fn lemma_three_same_tier_merge(pre: Engine, post: Engine)
    requires
        pre.cfg().compaction_threshold == 2,
        pre.tables().len() == 3,
        pre.imgs().len() == 3,
        forall|i: int|
            0 <= i < 3 ==> capped_tier(
                (#[trigger] pre.tables()[i])@.size,
                pre.cfg().compaction_tier_size as int,
                pre.cfg().compaction_size_multiplier as int,
            ) == capped_tier(
                pre.tables()[0]@.size,
                pre.cfg().compaction_tier_size as int,
                pre.cfg().compaction_size_multiplier as int,
            ),
        compaction_shape(pre, post),
    ensures
        post.tables().len() <= 1,
        post.tables().len() == 1 ==> merged_run(pre, post, 0, 3),
        (exists|key: Seq<u8>|
            #[trigger] stack_has(tables_entries(pre.tables(), pre.imgs(), pre.k()), key)
                && stack_val(tables_entries(pre.tables(), pre.imgs(), pre.k()), key) is Some)
            ==> post.tables().len() == 1,
{
    let t = pre.cfg().compaction_tier_size as int;
    let b = pre.cfg().compaction_size_multiplier as int;
    let ts = pre.tables();
    let tv = capped_tier(ts[0]@.size, t, b);
    assert(count_tier(ts, tv, t, b, 3) == 3) by {
        assert(count_tier(ts, tv, t, b, 0) == 0);
        assert(count_tier(ts, tv, t, b, 1) == 1);
        assert(count_tier(ts, tv, t, b, 2) == 2);
    }
    lemma_first_overfull_pin(ts, t, b, 2, 0, 0);
    lemma_run_end_pin(ts, tv, t, b, 0, 3);
    assert(first_overfull(ts, t, b, 2, 0) == 0);
    assert(run_end(ts, tv, t, b, 0) == 3);
    // in the vanish case the run is the whole stack and every key of it
    // resolved to a tombstone, so no key resolves to a live record
    assert(ts.subrange(0, 3) =~= ts);
    assert(pre.imgs().subrange(0, 3) =~= pre.imgs());
}

/// The table at `fi` of the new stack is the merge of the old stack's run
/// `[fi, re)`: its entries carry each key of the run's union exactly
/// once, bound to the newest input's value, minus the tombstones the drop
/// rule removed.
pub open spec fn merged_run(pre: Engine, post: Engine, fi: int, re: int) -> bool {
    exists|merged: Seq<(Seq<u8>, Option<RecordV>)>|
        {
            &&& #[trigger] compaction::entries_ok(merged)
            &&& merged.len() == post.tables()[fi]@.count
            &&& crate::sstable::table::trunc_entries(merged, pre.k()) == table_entries(
                post.imgs()[fi].index@,
                post.imgs()[fi].storage@,
                pre.k(),
                post.tables()[fi]@.count,
            )
            &&& compaction::merge_fwd(
                tables_entries(
                    pre.tables().subrange(fi, re),
                    pre.imgs().subrange(fi, re),
                    pre.k(),
                ),
                merged,
                fi == 0,
            )
            &&& forall|key: Seq<u8>|
                #[trigger] stack_has(
                    tables_entries(
                        pre.tables().subrange(fi, re),
                        pre.imgs().subrange(fi, re),
                        pre.k(),
                    ),
                    key,
                ) && !(fi == 0 && stack_val(
                    tables_entries(
                        pre.tables().subrange(fi, re),
                        pre.imgs().subrange(fi, re),
                        pre.k(),
                    ),
                    key,
                ) is None) ==> seq_has(merged, key)
        }
}

/// Insert then get: a store that just bound a key to a record answers/// Insert then get: a store that just bound a key to a record answers
/// that key with the record, whatever the log and the tables hold.
pub proof fn lemma_insert_get(
    m: Map<Seq<u8>, Option<RecordV>>,
    ts: Seq<SSTable>,
    ims: Seq<TableImage>,
    k: int,
    key: Seq<u8>,
    r: RecordV,
)
    ensures
        store_get(m.insert(key, Some(r)), ts, ims, k, key) == Some(r),
{
}

/// Delete then get: a store that just bound a key to a tombstone answers
/// that key with nothing, whatever the log and the tables hold.
pub proof fn lemma_delete_get(
    m: Map<Seq<u8>, Option<RecordV>>,
    ts: Seq<SSTable>,
    ims: Seq<TableImage>,
    k: int,
    key: Seq<u8>,
)
    ensures
        store_get(m.insert(key, None), ts, ims, k, key) is None,
{
}

/// Two stacks with the same descriptors and file images resolve every
/// key the same way.
proof fn lemma_chain_congruence(
    ts1: Seq<SSTable>,
    ims1: Seq<TableImage>,
    ts2: Seq<SSTable>,
    ims2: Seq<TableImage>,
    k: int,
    key: Seq<u8>,
)
    requires
        ts1.len() == ts2.len(),
        ims1.len() == ims2.len(),
        forall|i: int| 0 <= i < ts1.len() ==> (#[trigger] ts1[i])@ == ts2[i]@,
        forall|i: int|
            0 <= i < ims1.len() ==> (#[trigger] ims1[i]).index@ == ims2[i].index@
                && ims1[i].storage@ == ims2[i].storage@,
    ensures
        chain_get(ts1, ims1, k, key) == chain_get(ts2, ims2, k, key),
    decreases ts1.len(),
{
    if ts1.len() > 0 && ts1.len() == ims1.len() && ts2.len() == ims2.len() {
        assert(ts1.last()@ == ts2.last()@);
        assert(ims1.last().index@ == ims2.last().index@);
        assert(ims1.last().storage@ == ims2.last().storage@);
        assert forall|i: int| 0 <= i < ts1.len() - 1 implies (#[trigger] ts1.drop_last()[i])@
            == ts2.drop_last()[i]@ by {
            assert(ts1.drop_last()[i] == ts1[i]);
            assert(ts2.drop_last()[i] == ts2[i]);
        }
        assert forall|i: int|
            0 <= i < ims1.len() - 1 implies (#[trigger] ims1.drop_last()[i]).index@
            == ims2.drop_last()[i].index@ && ims1.drop_last()[i].storage@
            == ims2.drop_last()[i].storage@ by {
            assert(ims1.drop_last()[i] == ims1[i]);
            assert(ims2.drop_last()[i] == ims2[i]);
        }
        lemma_chain_congruence(
            ts1.drop_last(),
            ims1.drop_last(),
            ts2.drop_last(),
            ims2.drop_last(),
            k,
            key,
        );
    }
}

/// Persistence: closing the engine and reopening it over the images it
/// left behind — its log, its manifest text, its table files — yields a
/// store that answers every key as the old one did. The hypotheses are
/// exactly what `Engine::new` ensures of the reopened engine on those
/// images.
pub proof fn lemma_persistence(e: Engine, e2: Engine)
    requires
        e.wf(),
        e2.wf(),
        e2.cfg() == e.cfg(),
        manifest_rep(stack_descs(e2.tables())) == manifest_rep(stack_descs(e.tables())),
        wal_rep(e.wal(), e2.mem_ops()),
        e2.mem() == apply_ops(empty_model(), e2.mem_ops()),
        e2.tables().len() == e.tables().len(),
        forall|i: int|
            0 <= i < e.tables().len() ==> (#[trigger] e2.imgs()[i]).index@ == e.imgs()[i].index@
                && e2.imgs()[i].storage@ == e.imgs()[i].storage@,
    ensures
        forall|q: Seq<u8>| e2.resolves(q) == e.resolves(q),
{
    // the log pins the buffer
    crate::memtable::table::lemma_memtable_log(e.memtable);
    assert(wal_rep(e.wal(), e.mem_ops()));
    crate::memtable::table::lemma_wal_rep_unique(e.wal(), e.mem_ops(), e2.mem_ops());
    assert(e2.mem() == e.mem());
    // the manifest pins the descriptors
    assert forall|i: int| 0 <= i < e.tables().len() implies desc_ok(
        #[trigger] stack_descs(e.tables())[i],
    ) by {
        assert(stack_descs(e.tables())[i] == e.tables()[i]@);
    }
    assert forall|i: int| 0 <= i < e2.tables().len() implies desc_ok(
        #[trigger] stack_descs(e2.tables())[i],
    ) by {
        assert(stack_descs(e2.tables())[i] == e2.tables()[i]@);
    }
    crate::manifest::lemma_manifest_rep_injective(
        stack_descs(e2.tables()),
        stack_descs(e.tables()),
    );
    assert forall|q: Seq<u8>| e2.resolves(q) == e.resolves(q) by {
        assert forall|i: int| 0 <= i < e.tables().len() implies (#[trigger] e2.tables()[i])@
            == e.tables()[i]@ by {
            assert(stack_descs(e2.tables())[i] == e2.tables()[i]@);
            assert(stack_descs(e.tables())[i] == e.tables()[i]@);
        }
        lemma_chain_congruence(
            e2.tables(),
            e2.imgs(),
            e.tables(),
            e.imgs(),
            e.k(),
            q,
        );
    }
}

/// A table whose live records sit under their own key: the lookup's
/// storage check never turns a present entry away.
pub open spec fn table_honest(index: Seq<u8>, storage: Seq<u8>, k: int, n: int) -> bool {
    forall|i: int|
        0 <= i < n ==> match #[trigger] crate::sstable::table::table_val(index, storage, k, i) {
            Some(r) => r.key == crate::sstable::table::table_key(index, k, i),
            None => true,
        }
}

/// On a well-formed, honest table the point lookup answers exactly the
/// entry that carries the key, if any.
proof fn lemma_lookup_entries(desc: SSTableV, index: Seq<u8>, storage: Seq<u8>, k: int, q: Seq<u8>)
    requires
        table_wf(desc, index, storage, k),
        table_honest(index, storage, k, desc.count),
        desc.min.len() <= k,
        desc.max.len() <= k,
    ensures
        table_lookup(desc, index, storage, k, q) == {
            let ents = table_entries(index, storage, k, desc.count);
            if seq_has(ents, q) {
                Some(seq_val(ents, q))
            } else {
                None
            }
        },
{
    let n = desc.count;
    // the extremes fit a slot, so the descriptor carries them exactly
    assert(desc.min == crate::sstable::table::table_key(index, k, 0));
    assert(desc.max == crate::sstable::table::table_key(index, k, n - 1));
    let ents = table_entries(index, storage, k, n);
    assert(ents.len() == n);
    assert forall|i: int|
        0 <= i < n implies #[trigger] ents[i] == (
        crate::sstable::table::table_key(index, k, i),
        crate::sstable::table::table_val(index, storage, k, i),
    ) by {}
    if seq_has(ents, q) {
        let i = choose|i: int| 0 <= i < ents.len() && ents[i].0 == q;
        assert(crate::sstable::table::table_key(index, k, i) == q);
        assert(!lex_lt(q, desc.min)) by {
            if i == 0 {
                lemma_lex_total(q, desc.min);
            } else {
                assert(lex_lt(crate::sstable::table::table_key(index, k, 0), q));
                lemma_lex_total(crate::sstable::table::table_key(index, k, 0), q);
            }
        }
        assert(!lex_lt(desc.max, q)) by {
            if i == n - 1 {
                lemma_lex_total(desc.max, q);
            } else {
                assert(lex_lt(q, crate::sstable::table::table_key(index, k, n - 1)));
                lemma_lex_total(q, crate::sstable::table::table_key(index, k, n - 1));
            }
        }
        assert forall|t: int| 0 <= t < i implies crate::sstable::table::table_key(index, k, t)
            != q by {
            assert(lex_lt(crate::sstable::table::table_key(index, k, t), q));
            lemma_lex_total(crate::sstable::table::table_key(index, k, t), q);
        }
        crate::sstable::table::lemma_find_eq_hit(index, k, n, q, 0, i);
        assert forall|t: int| 0 <= t < i implies ents[t].0 != q by {}
        crate::compaction::lemma_seq_find_at(ents, q, i, 0);
        match crate::sstable::table::table_val(index, storage, k, i) {
            Some(r) => {
                assert(r.key == q);
            },
            None => {},
        }
    } else {
        assert forall|t: int| 0 <= t < n implies crate::sstable::table::table_key(index, k, t)
            != q by {
            if crate::sstable::table::table_key(index, k, t) == q {
                assert(ents[t].0 == q);
            }
        }
        if !(lex_lt(q, desc.min) || lex_lt(desc.max, q)) {
            crate::sstable::table::lemma_find_eq_none(index, k, n, q, 0);
        }
    }
}

/// The chain walk decomposes at any cut: the newer part answers first.
proof fn lemma_chain_split(ts: Seq<SSTable>, ims: Seq<TableImage>, k: int, q: Seq<u8>, cut: int)
    requires
        ts.len() == ims.len(),
        0 <= cut <= ts.len(),
    ensures
        chain_get(ts, ims, k, q) == match chain_get(ts.skip(cut), ims.skip(cut), k, q) {
            Some(v) => Some(v),
            None => chain_get(ts.take(cut), ims.take(cut), k, q),
        },
    decreases ts.len() - cut,
{
    if cut == ts.len() {
        assert(ts.skip(cut).len() == 0);
        assert(ts.take(cut) =~= ts);
        assert(ims.take(cut) =~= ims);
    } else {
        assert(ts.skip(cut).len() == ts.len() - cut);
        assert(ts.skip(cut).last() == ts.last());
        assert(ims.skip(cut).last() == ims.last());
        match table_lookup(ts.last()@, ims.last().index@, ims.last().storage@, k, q) {
            Some(v) => {},
            None => {
                assert(ts.drop_last().len() == ts.len() - 1);
                lemma_chain_split(ts.drop_last(), ims.drop_last(), k, q, cut);
                assert(ts.drop_last().skip(cut) =~= ts.skip(cut).drop_last());
                assert(ims.drop_last().skip(cut) =~= ims.skip(cut).drop_last());
                assert(ts.drop_last().take(cut) =~= ts.take(cut));
                assert(ims.drop_last().take(cut) =~= ims.take(cut));
            },
        }
    }
}

/// A run of well-formed, honest tables answers each key with the
/// newest entry that carries it, exactly as the merge's stack does.
proof fn lemma_run_chain(ts: Seq<SSTable>, ims: Seq<TableImage>, k: int, q: Seq<u8>)
    requires
        ts.len() == ims.len(),
        forall|i: int|
            0 <= i < ts.len() ==> table_wf(
                (#[trigger] ts[i])@,
                ims[i].index@,
                ims[i].storage@,
                k,
            ),
        forall|i: int|
            0 <= i < ts.len() ==> table_honest(
                (#[trigger] ims[i]).index@,
                ims[i].storage@,
                k,
                ts[i]@.count,
            ),
        forall|i: int|
            0 <= i < ts.len() ==> (#[trigger] ts[i])@.min.len() <= k && ts[i]@.max.len() <= k,
    ensures
        chain_get(ts, ims, k, q) == {
            let ents = tables_entries(ts, ims, k);
            if stack_has(ents, q) {
                Some(stack_val(ents, q))
            } else {
                None
            }
        },
    decreases ts.len(),
{
    let ents = tables_entries(ts, ims, k);
    if ts.len() == 0 {
        crate::compaction::lemma_newest_none(ents, q);
    } else {
        let m = ts.len() - 1;
        let last_ents = table_entries(ims[m].index@, ims[m].storage@, k, ts[m]@.count);
        assert(ents[m] == last_ents);
        assert(ts[m]@.min.len() <= k && ts[m]@.max.len() <= k);
        lemma_lookup_entries(ts[m]@, ims[m].index@, ims[m].storage@, k, q);
        assert(ts.last() == ts[m] && ims.last() == ims[m]);
        let pts = ts.drop_last();
        let pims = ims.drop_last();
        assert forall|i: int| 0 <= i < pts.len() implies table_wf(
            (#[trigger] pts[i])@,
            pims[i].index@,
            pims[i].storage@,
            k,
        ) && table_honest(pims[i].index@, pims[i].storage@, k, pts[i]@.count)
            && pts[i]@.min.len() <= k && pts[i]@.max.len() <= k by {
            assert(pts[i] == ts[i] && pims[i] == ims[i]);
        }
        lemma_run_chain(pts, pims, k, q);
        let pents = tables_entries(pts, pims, k);
        assert(pents =~= ents.drop_last());
        if seq_has(last_ents, q) {
            // the newest table answers, and it is the stack's newest carrier
            assert(seq_has(ents.last(), q));
            assert(newest_with(ents, q) == m);
            assert(stack_val(ents, q) == seq_val(ents[m], q));
        } else {
            assert(!seq_has(ents.last(), q));
            assert(newest_with(ents, q) == newest_with(ents.drop_last(), q));
            if stack_has(pents, q) {
                assert(stack_val(ents, q) == stack_val(pents, q)) by {
                    crate::compaction::lemma_newest_some(pents, q);
                    let w = newest_with(pents, q);
                    assert(0 <= w < pents.len());
                    assert(ents[w] == pents[w]);
                }
            }
        }
    }
}

/// The merge of a run of well-formed, honest tables is itself honest,
/// its keys fit their slots, and the output table's entries are exactly
/// the merged sequence.
#[verifier::rlimit(60)]
proof fn lemma_merged_honest(
    run_ts: Seq<SSTable>,
    run_ims: Seq<TableImage>,
    md: SSTable,
    mim: TableImage,
    merged: Seq<(Seq<u8>, Option<RecordV>)>,
    k: int,
    inc: bool,
)
    requires
        run_ts.len() == run_ims.len(),
        forall|i: int|
            0 <= i < run_ts.len() ==> table_wf(
                (#[trigger] run_ts[i])@,
                run_ims[i].index@,
                run_ims[i].storage@,
                k,
            ),
        forall|i: int|
            0 <= i < run_ts.len() ==> table_honest(
                (#[trigger] run_ims[i]).index@,
                run_ims[i].storage@,
                k,
                run_ts[i]@.count,
            ),
        table_wf(md@, mim.index@, mim.storage@, k),
        crate::sstable::table::trunc_entries(merged, k) == table_entries(
            mim.index@,
            mim.storage@,
            k,
            md@.count,
        ),
        compaction::entries_ok(merged),
        merged.len() == md@.count,
        compaction::merge_fwd(tables_entries(run_ts, run_ims, k), merged, inc),
    ensures
        table_entries(mim.index@, mim.storage@, k, md@.count) == merged,
        table_honest(mim.index@, mim.storage@, k, md@.count),
        forall|t: int| 0 <= t < merged.len() ==> (#[trigger] merged[t].0).len() <= k,
        forall|i: int|
            0 <= i < md@.count ==> match #[trigger] crate::sstable::table::table_val(
                mim.index@,
                mim.storage@,
                k,
                i,
            ) {
                Some(r) => r.key.len() <= k,
                None => true,
            },
{
    let run = tables_entries(run_ts, run_ims, k);
    assert forall|w: int| 0 <= w < run.len() implies #[trigger] run[w] == table_entries(
        run_ims[w].index@,
        run_ims[w].storage@,
        k,
        run_ts[w]@.count,
    ) by {}
    // the merged entries fit their slots, so truncation changes nothing
    assert forall|t: int| 0 <= t < merged.len() implies #[trigger] merged[t].0.len() <= k by {
        assert(stack_has(run, merged[t].0));
        compaction::lemma_newest_some(run, merged[t].0);
        let w = newest_with(run, merged[t].0);
        let j = choose|j: int| 0 <= j < run[w].len() && run[w][j].0 == merged[t].0;
        assert(crate::sstable::table::entry_ok(run_ims[w].index@, run_ims[w].storage@, k, j));
        assert(run[w][j].0 == crate::sstable::table::table_key(run_ims[w].index@, k, j));
    }
    assert(crate::sstable::table::trunc_entries(merged, k) =~= merged);
    let ments = table_entries(mim.index@, mim.storage@, k, md@.count);
    assert(ments == merged);
    // every live merged record sits under its own key
    assert forall|t: int|
        0 <= t < merged.len() implies match #[trigger] merged[t].1 {
        Some(r) => r.key == merged[t].0,
        None => true,
    } by {
        assert(merged[t].1 == stack_val(run, merged[t].0));
        assert(stack_has(run, merged[t].0));
        compaction::lemma_newest_some(run, merged[t].0);
        let w = newest_with(run, merged[t].0);
        compaction::lemma_seq_find_some(run[w], merged[t].0);
        let f = seq_find(run[w], merged[t].0, 0);
        assert(run[w][f].1 == crate::sstable::table::table_val(
            run_ims[w].index@,
            run_ims[w].storage@,
            k,
            f,
        ));
        assert(run[w][f].0 == crate::sstable::table::table_key(run_ims[w].index@, k, f));
        assert(table_honest(run_ims[w].index@, run_ims[w].storage@, k, run_ts[w]@.count));
    }
    assert forall|i: int|
        0 <= i < md@.count implies match #[trigger] crate::sstable::table::table_val(
        mim.index@,
        mim.storage@,
        k,
        i,
    ) {
        Some(r) => r.key == crate::sstable::table::table_key(mim.index@, k, i),
        None => true,
    } by {
        assert(ments[i] == (
            crate::sstable::table::table_key(mim.index@, k, i),
            crate::sstable::table::table_val(mim.index@, mim.storage@, k, i),
        ));
        assert(merged[i].1 == ments[i].1 && merged[i].0 == ments[i].0);
    }
    // a live record's key is its slot key, which fits the slot
    assert forall|i: int|
        0 <= i < md@.count implies match #[trigger] crate::sstable::table::table_val(
        mim.index@,
        mim.storage@,
        k,
        i,
    ) {
        Some(r) => r.key.len() <= k,
        None => true,
    } by {
        assert(crate::sstable::table::entry_ok(mim.index@, mim.storage@, k, i));
        match crate::sstable::table::table_val(mim.index@, mim.storage@, k, i) {
            Some(r) => {
                assert(r.key == crate::sstable::table::table_key(mim.index@, k, i));
            },
            None => {},
        }
    }
}

/// Compaction idempotence for reads: replacing a contiguous run of
/// well-formed tables by the run's merge — the output standing where the
/// run's newest table stood, with tombstones dropped only when the run
/// starts at the store's oldest table — changes no answer of the store.
/// A run that is scattered in the age order, or a key wider than its
/// index slot, can change answers, so the run is required contiguous and
/// the stack's keys required to fit the slot width.
pub proof fn lemma_compaction_preserves(
    mem: Map<Seq<u8>, Option<RecordV>>,
    ts: Seq<SSTable>,
    ims: Seq<TableImage>,
    nts: Seq<SSTable>,
    nims: Seq<TableImage>,
    md: SSTable,
    mim: TableImage,
    merged: Seq<(Seq<u8>, Option<RecordV>)>,
    k: int,
    lo: int,
    hi: int,
    q: Seq<u8>,
)
    requires
        ts.len() == ims.len(),
        0 <= lo < hi <= ts.len(),
        forall|i: int|
            0 <= i < ts.len() ==> table_wf(
                (#[trigger] ts[i])@,
                ims[i].index@,
                ims[i].storage@,
                k,
            ),
        stack_fits(ts, ims, k),
        table_wf(md@, mim.index@, mim.storage@, k),
        md@.min.len() <= k,
        md@.max.len() <= k,
        crate::sstable::table::trunc_entries(merged, k) == table_entries(
            mim.index@,
            mim.storage@,
            k,
            md@.count,
        ),
        compaction::entries_ok(merged),
        merged.len() == md@.count,
        compaction::merge_fwd(
            tables_entries(ts.subrange(lo, hi), ims.subrange(lo, hi), k),
            merged,
            lo == 0,
        ),
        forall|key: Seq<u8>|
            #[trigger] stack_has(tables_entries(ts.subrange(lo, hi), ims.subrange(lo, hi), k), key)
                && !(lo == 0 && stack_val(
                tables_entries(ts.subrange(lo, hi), ims.subrange(lo, hi), k),
                key,
            ) is None) ==> seq_has(merged, key),
        nts == ts.take(lo) + seq![md] + ts.skip(hi),
        nims == ims.take(lo) + seq![mim] + ims.skip(hi),
    ensures
        store_get(mem, nts, nims, k, q) == store_get(mem, ts, ims, k, q),
{
    if mem.contains_key(q) {
        return ;
    }
    let run_ts = ts.subrange(lo, hi);
    let run_ims = ims.subrange(lo, hi);
    let run = tables_entries(run_ts, run_ims, k);
    let inc = lo == 0;
    assert forall|w: int| 0 <= w < run.len() implies #[trigger] run[w] == table_entries(
        run_ims[w].index@,
        run_ims[w].storage@,
        k,
        run_ts[w]@.count,
    ) && run_ts[w] == ts[lo + w] && run_ims[w] == ims[lo + w] by {}
    assert forall|i: int| 0 <= i < run_ts.len() implies table_wf(
        (#[trigger] run_ts[i])@,
        run_ims[i].index@,
        run_ims[i].storage@,
        k,
    ) && table_honest(run_ims[i].index@, run_ims[i].storage@, k, run_ts[i]@.count)
        && run_ts[i]@.min.len() <= k && run_ts[i]@.max.len() <= k by {
        assert(run_ts[i] == ts[lo + i] && run_ims[i] == ims[lo + i]);
        assert(table_fits(ts[lo + i]@, ims[lo + i].index@, ims[lo + i].storage@, k));
        lemma_fits_honest(ts[lo + i]@, ims[lo + i].index@, ims[lo + i].storage@, k);
    }
    lemma_merged_honest(run_ts, run_ims, md, mim, merged, k, inc);
    let ments = table_entries(mim.index@, mim.storage@, k, md@.count);
    // decompose the old chain around the run
    lemma_chain_split(ts, ims, k, q, hi);
    lemma_chain_split(ts.take(hi), ims.take(hi), k, q, lo);
    assert(ts.take(hi).skip(lo) =~= run_ts);
    assert(ims.take(hi).skip(lo) =~= run_ims);
    assert(ts.take(hi).take(lo) =~= ts.take(lo));
    assert(ims.take(hi).take(lo) =~= ims.take(lo));
    lemma_run_chain(run_ts, run_ims, k, q);
    // decompose the new chain around the merged table
    lemma_chain_split(nts, nims, k, q, lo + 1);
    assert(nts.skip(lo + 1) =~= ts.skip(hi));
    assert(nims.skip(lo + 1) =~= ims.skip(hi));
    lemma_chain_split(nts.take(lo + 1), nims.take(lo + 1), k, q, lo);
    assert(nts.take(lo + 1).skip(lo) =~= seq![md]);
    assert(nims.take(lo + 1).skip(lo) =~= seq![mim]);
    assert(nts.take(lo + 1).take(lo) =~= ts.take(lo));
    assert(nims.take(lo + 1).take(lo) =~= ims.take(lo));
    assert(seq![md].last() == md && seq![mim].last() == mim);
    assert(seq![md].drop_last() =~= Seq::<SSTable>::empty());
    assert(seq![mim].drop_last() =~= Seq::<TableImage>::empty());
    lemma_lookup_entries(md@, mim.index@, mim.storage@, k, q);
    match chain_get(ts.skip(hi), ims.skip(hi), k, q) {
        Some(v) => {},
        None => {
            if stack_has(run, q) {
                if !(inc && stack_val(run, q) is None) {
                    assert(seq_has(merged, q));
                    compaction::lemma_seq_find_some(merged, q);
                    let f = seq_find(merged, q, 0);
                    assert(merged[f].1 == stack_val(run, merged[f].0));
                    assert(seq_val(merged, q) == stack_val(run, q));
                } else {
                    assert(lo == 0);
                    if seq_has(merged, q) {
                        compaction::lemma_seq_find_some(merged, q);
                        let f = seq_find(merged, q, 0);
                        assert(merged[f].1 == stack_val(run, merged[f].0));
                        assert(!(inc && stack_val(run, merged[f].0) is None));
                        assert(false);
                    }
                    assert(ts.take(0) =~= Seq::<SSTable>::empty());
                    assert(ims.take(0) =~= Seq::<TableImage>::empty());
                }
            } else {
                if seq_has(merged, q) {
                    compaction::lemma_seq_find_some(merged, q);
                    let f = seq_find(merged, q, 0);
                    assert(stack_has(run, merged[f].0));
                    assert(false);
                }
            }
        },
    }
}

} // verus!
