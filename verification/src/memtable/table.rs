//! The in-memory ordered table of recent writes, backed by the write-ahead
//! log: an ordered map from key to a live record or a tombstone.
//!
//! The map is an outside red-black tree; what it holds is named by
//! `rb_model`, and the handful of operations the table needs are declared
//! over that name. Everything above those declarations is verified: the
//! table's state is exactly the result of applying the logged operations
//! in order, which is what makes replay on open sound.

use vstd::prelude::*;

use crate::keys::{check_valid_key, lex_lt, valid_key};
use crate::memtable::log::{wal_rep, MemTableLog};
use crate::memtable::log_reader::replay;
use crate::memtable::operation::{ops_view, ops_wf, LogOperation, LogOperationV};
use crate::record::{copy_bytes, view_val, MemTableRecord, Record, RecordV};
use crate::serialization::{enc_op, BinarySerializationEngine, SerializationError};

verus! {

/// Declares the outside red-black tree, so values of it can stand in
/// fields and signatures.
#[verifier::external_type_specification]
#[verifier::external_body]
#[verifier::reject_recursive_types(K)]
#[verifier::reject_recursive_types(V)]
pub struct ExRBTree<K: Ord, V>(rbtree::RBTree<K, V>);

/// What the outside tree holds, as a map from key to binding. The
/// wrappers below keep one node per key — an upsert replaces — which is
/// what lets the contents be a map at all.
pub uninterp spec fn rb_model(t: rbtree::RBTree<Vec<u8>, Option<Record>>) -> Map<
    Seq<u8>,
    Option<RecordV>,
>;

/// The empty table state.
pub open spec fn empty_model() -> Map<Seq<u8>, Option<RecordV>> {
    Map::empty()
}

/// Relies on `rbtree::RBTree::new`: a fresh tree holds nothing.
#[verifier::external_body]
fn rb_new() -> (t: rbtree::RBTree<Vec<u8>, Option<Record>>)
    ensures
        rb_model(t) == empty_model(),
{
    rbtree::RBTree::new()
}

/// Relies on `rbtree::RBTree::replace_or_insert`: the value is replaced if
/// the key is present and inserted otherwise, so the contents gain or
/// overwrite exactly this binding.
#[verifier::external_body]
fn rb_upsert(t: &mut rbtree::RBTree<Vec<u8>, Option<Record>>, k: Vec<u8>, v: Option<Record>)
    ensures
        rb_model(*final(t)) == rb_model(*old(t)).insert(k@, view_val(v)),
{
    t.replace_or_insert(k, v);
}

/// Relies on `rbtree::RBTree::get`, which finds the node whose key compares
/// equal, and returns a copy of its value.
#[verifier::external_body]
fn rb_get(t: &rbtree::RBTree<Vec<u8>, Option<Record>>, k: &Vec<u8>) -> (r: Option<Option<Record>>)
    ensures
        match r {
            Some(v) => rb_model(*t).contains_key(k@) && view_val(v) == rb_model(*t)[k@],
            None => !rb_model(*t).contains_key(k@),
        },
{
    t.get(k).cloned()
}

/// Relies on `rbtree::RBTree::len`: the number of nodes, which under the
/// one-node-per-key discipline of these wrappers is the number of keys.
#[verifier::external_body]
fn rb_len(t: &rbtree::RBTree<Vec<u8>, Option<Record>>) -> (r: usize)
    ensures
        r == rb_model(*t).dom().len(),
{
    t.len()
}

/// Relies on `rbtree::RBTree::clear`: all nodes are removed.
#[verifier::external_body]
fn rb_clear(t: &mut rbtree::RBTree<Vec<u8>, Option<Record>>)
    ensures
        rb_model(*final(t)) == empty_model(),
{
    t.clear()
}

/// Relies on `rbtree::RBTree::iter`: an in-order walk, ascending in the
/// key order, which for `Vec<u8>` keys is the byte-lexicographic order;
/// each node is handed out as a copy of its key and value.
#[verifier::external_body]
fn rb_entries(t: &rbtree::RBTree<Vec<u8>, Option<Record>>) -> (r: Vec<(Vec<u8>, Option<Record>)>)
    ensures
        r@.len() == rb_model(*t).dom().len(),
        forall|i: int|
            0 <= i < r@.len() ==> rb_model(*t).contains_key(#[trigger] r@[i].0@) && view_val(
                r@[i].1,
            ) == rb_model(*t)[r@[i].0@],
        forall|i: int, j: int| 0 <= i < j < r@.len() ==> lex_lt(r@[i].0@, r@[j].0@),
        forall|k: Seq<u8>| #[trigger]
            rb_model(*t).contains_key(k) ==> exists|i: int| 0 <= i < r@.len() && r@[i].0@ == k,
{
    let mut out = Vec::new();
    for (k, v) in t.iter() {
        out.push((k.clone(), v.clone()));
    }
    out
}

/// The map state an operation sequence builds up: an insertion binds the
/// key to the record, a deletion binds it to a tombstone.
pub open spec fn apply_op(
    m: Map<Seq<u8>, Option<RecordV>>,
    op: LogOperationV,
) -> Map<Seq<u8>, Option<RecordV>> {
    match op {
        LogOperationV::Insert { record } => m.insert(record.key, Some(record)),
        LogOperationV::Delete { key } => m.insert(key, None),
    }
}

pub open spec fn apply_ops(
    m: Map<Seq<u8>, Option<RecordV>>,
    ops: Seq<LogOperationV>,
) -> Map<Seq<u8>, Option<RecordV>>
    decreases ops.len(),
{
    if ops.len() == 0 {
        m
    } else {
        apply_ops(apply_op(m, ops[0]), ops.skip(1))
    }
}

/// Applying one more operation applies it to the result so far.
pub proof fn lemma_apply_ops_push(
    m: Map<Seq<u8>, Option<RecordV>>,
    ops: Seq<LogOperationV>,
    op: LogOperationV,
)
    ensures
        apply_ops(m, ops.push(op)) == apply_op(apply_ops(m, ops), op),
    decreases ops.len(),
{
    let ext = ops.push(op);
    if ops.len() == 0 {
        assert(ext.skip(1) =~= Seq::<LogOperationV>::empty());
        assert(ext[0] == op);
        assert(apply_ops(m, ext) == apply_ops(apply_op(m, ext[0]), ext.skip(1)));
        assert(apply_ops(apply_op(m, op), ext.skip(1)) == apply_op(m, op));
        assert(apply_ops(m, ops) == m);
    } else {
        assert(ext[0] == ops[0]);
        assert(ext.skip(1) =~= ops.skip(1).push(op));
        lemma_apply_ops_push(apply_op(m, ops[0]), ops.skip(1), op);
        assert(apply_ops(m, ext) == apply_ops(apply_op(m, ext[0]), ext.skip(1)));
        assert(apply_ops(m, ops) == apply_ops(apply_op(m, ops[0]), ops.skip(1)));
    }
}

/// The ordered table of recent writes with its write-ahead log.
pub struct MemTable {
    tree: rbtree::RBTree<Vec<u8>, Option<Record>>,
    log: MemTableLog,
    serializer: BinarySerializationEngine,
}

impl View for MemTable {
    type V = Map<Seq<u8>, Option<RecordV>>;

    closed spec fn view(&self) -> Map<Seq<u8>, Option<RecordV>> {
        rb_model(self.tree)
    }
}

impl MemTable {
    /// The operations recorded on the log since it was last truncated.
    pub closed spec fn ops(&self) -> Seq<LogOperationV> {
        self.log@
    }

    /// The byte image of the log file.
    pub closed spec fn log_image(&self) -> Seq<u8> {
        self.log.image()
    }

    /// Whether the log itself is well-formed.
    pub closed spec fn log_ok(&self) -> bool {
        self.log.wf()
    }

    /// The table is exactly the logged operations applied in order; every
    /// key is one the on-disk formats can carry; a live record is bound
    /// under its own key.
    pub open spec fn wf(&self) -> bool {
        &&& self.log_ok()
        &&& self@ == apply_ops(empty_model(), self.ops())
        &&& self@.dom().finite()
        &&& forall|k: Seq<u8>| #[trigger] self@.contains_key(k) ==> valid_key(k)
        &&& forall|k: Seq<u8>| #[trigger]
            self@.contains_key(k) ==> match self@[k] {
                Some(r) => r.key == k,
                None => true,
            }
    }

    /// Opens a table over a log image, replaying the logged operations in
    /// order: an insertion becomes a live binding, a deletion a tombstone.
    /// Succeeds on exactly the images this store writes; a malformed image
    /// or one recording an impossible key is an error.
    pub fn open_or_build(wal_bytes: Vec<u8>, serializer: BinarySerializationEngine) -> (r: Result<
        MemTable,
        SerializationError,
    >)
        ensures
            match r {
                Ok(m) => {
                    &&& m.wf()
                    &&& m.log_image() == wal_bytes@
                    &&& wal_rep(wal_bytes@, m.ops())
                    &&& ops_wf(m.ops())
                },
                Err(e) => e == SerializationError::Corrupt,
            },
            forall|ops: Seq<LogOperationV>| #[trigger]
                wal_rep(wal_bytes@, ops) && ops_wf(ops) ==> (r matches Ok(m) && m.ops() == ops),
    {
        let ops_vec = match replay(&wal_bytes, &serializer) {
            Ok(v) => v,
            Err(e) => {
                return Err(e);
            },
        };
        let ghost all = ops_view(ops_vec@);
        let mut tree = rb_new();
        let mut i: usize = 0;
        while i < ops_vec.len()
            invariant
                i <= ops_vec@.len(),
                all == ops_view(ops_vec@),
                wal_rep(wal_bytes@, all),
                forall|ops: Seq<LogOperationV>| #[trigger] wal_rep(wal_bytes@, ops) ==> ops == all,
                rb_model(tree) == apply_ops(
                    empty_model(),
                    all.take(i as int),
                ),
                rb_model(tree).dom().finite(),
                forall|j: int| 0 <= j < i ==> (#[trigger] all[j]).wf(),
                forall|k: Seq<u8>| #[trigger] rb_model(tree).contains_key(k) ==> valid_key(k),
                forall|k: Seq<u8>| #[trigger]
                    rb_model(tree).contains_key(k) ==> match rb_model(tree)[k] {
                        Some(r) => r.key == k,
                        None => true,
                    },
            decreases ops_vec@.len() - i,
        {
            let op = &ops_vec[i];
            proof {
                assert(all[i as int] == op@);
                assert(all.take(i + 1 as int) =~= all.take(i as int).push(all[i as int]));
                lemma_apply_ops_push(
                    empty_model(),
                    all.take(i as int),
                    all[i as int],
                );
            }
            match op {
                LogOperation::Insert { record } => {
                    if !check_valid_key(record.key.as_slice()) {
                        proof {
                            broken_wal_witness(wal_bytes@, all, i as int);
                        }
                        return Err(SerializationError::Corrupt);
                    }
                    rb_upsert(&mut tree, record.get_key(), Some(record.dup()));
                },
                LogOperation::Delete { key } => {
                    if !check_valid_key(key.as_slice()) {
                        proof {
                            broken_wal_witness(wal_bytes@, all, i as int);
                        }
                        return Err(SerializationError::Corrupt);
                    }
                    rb_upsert(&mut tree, copy_bytes(key), None);
                },
            }
            i = i + 1;
        }
        proof {
            assert(all.take(ops_vec@.len() as int) =~= all);
        }
        let log = MemTableLog::from_image(wal_bytes, Ghost(all));
        let m = MemTable { tree, log, serializer };
        proof {
            assert(m.ops() == all);
        }
        Ok(m)
    }

    /// Records the insertion on the log, then binds the key to the record,
    /// overwriting any prior binding.
    pub fn insert(&mut self, record: Record)
        requires
            old(self).wf(),
            valid_key(record@.key),
        ensures
            final(self).wf(),
            final(self)@ == old(self)@.insert(record@.key, Some(record@)),
            final(self).ops() == old(self).ops().push(
                LogOperationV::Insert { record: record@ },
            ),
            final(self).log_image() == old(self).log_image() + enc_op(
                LogOperationV::Insert { record: record@ },
            ),
    {
        let key = record.get_key();
        let op = LogOperation::Insert { record: record.dup() };
        self.log.append(&op, &self.serializer);
        rb_upsert(&mut self.tree, key, Some(record));
        proof {
            lemma_apply_ops_push(
                empty_model(),
                old(self).ops(),
                op@,
            );
        }
    }

    /// Records the deletion on the log, then binds the key to a tombstone;
    /// a delete of an absent key still writes a tombstone, since older
    /// tables below may hold a live value for it.
    pub fn delete(&mut self, key: Vec<u8>)
        requires
            old(self).wf(),
            valid_key(key@),
        ensures
            final(self).wf(),
            final(self)@ == old(self)@.insert(key@, None),
            final(self).ops() == old(self).ops().push(LogOperationV::Delete { key: key@ }),
            final(self).log_image() == old(self).log_image() + enc_op(
                LogOperationV::Delete { key: key@ },
            ),
    {
        let op = LogOperation::Delete { key: copy_bytes(&key) };
        self.log.append(&op, &self.serializer);
        rb_upsert(&mut self.tree, key, None);
        proof {
            lemma_apply_ops_push(
                empty_model(),
                old(self).ops(),
                op@,
            );
        }
    }

    /// Looks the key up: absent, a tombstone, or a live record.
    pub fn get(&self, key: &Vec<u8>) -> (r: Option<Option<Record>>)
        ensures
            match r {
                Some(v) => self@.contains_key(key@) && view_val(v) == self@[key@],
                None => !self@.contains_key(key@),
            },
    {
        rb_get(&self.tree, key)
    }

    /// The number of bindings, tombstones included.
    pub fn len(&self) -> (r: usize)
        ensures
            r == self@.dom().len(),
    {
        rb_len(&self.tree)
    }

    pub fn is_empty(&self) -> (r: bool)
        ensures
            r == (self@.dom().len() == 0),
    {
        self.len() == 0
    }

    /// Empties the table and truncates the log.
    pub fn clear(&mut self)
        ensures
            final(self).wf(),
            final(self)@ == empty_model(),
            final(self).ops() == Seq::<LogOperationV>::empty(),
            final(self).log_image() == Seq::<u8>::empty(),
    {
        self.log.clear();
        rb_clear(&mut self.tree);
    }

    /// A snapshot of the bindings in ascending key order, for flushing.
    pub fn iter(&self) -> (r: Vec<(Vec<u8>, Option<Record>)>)
        ensures
            r@.len() == self@.dom().len(),
            forall|i: int|
                0 <= i < r@.len() ==> self@.contains_key(#[trigger] r@[i].0@) && view_val(r@[i].1)
                    == self@[r@[i].0@],
            forall|i: int, j: int| 0 <= i < j < r@.len() ==> lex_lt(r@[i].0@, r@[j].0@),
            forall|k: Seq<u8>| #[trigger]
                self@.contains_key(k) ==> exists|i: int| 0 <= i < r@.len() && r@[i].0@ == k,
    {
        rb_entries(&self.tree)
    }

    /// The byte image of the write-ahead log, for mirroring to storage.
    pub fn wal_image(&self) -> (r: &Vec<u8>)
        ensures
            r@ == self.log_image(),
    {
        self.log.image_bytes()
    }
}

/// A well-formed table's log image is the canonical encoding of its
/// recorded operations, all of them on carryable keys.
pub proof fn lemma_memtable_log(m: MemTable)
    requires
        m.wf(),
    ensures
        wal_rep(m.log_image(), m.ops()),
        ops_wf(m.ops()),
{
}

/// If the image records `all` and some entry of `all` has an impossible
/// key, then no well-formed sequence is recorded on the image.
proof fn broken_wal_witness(bytes: Seq<u8>, all: Seq<LogOperationV>, i: int)
    requires
        wal_rep(bytes, all),
        0 <= i < all.len(),
        !all[i].wf(),
    ensures
        forall|ops: Seq<LogOperationV>| !(#[trigger] wal_rep(bytes, ops) && ops_wf(ops)),
{
    assert forall|ops: Seq<LogOperationV>| !(#[trigger] wal_rep(bytes, ops) && ops_wf(ops)) by {
        if wal_rep(bytes, ops) && ops_wf(ops) {
            lemma_wal_rep_unique(bytes, all, ops);
            assert(ops[i].wf());
        }
    }
}

/// A byte image records at most one operation sequence.
pub proof fn lemma_wal_rep_unique(bytes: Seq<u8>, a: Seq<LogOperationV>, b: Seq<LogOperationV>)
    requires
        wal_rep(bytes, a),
        wal_rep(bytes, b),
    ensures
        a == b,
    decreases a.len(),
{
    if a.len() == 0 || b.len() == 0 {
        if a.len() == 0 && b.len() == 0 {
            assert(a =~= b);
        } else {
            // one side claims a first chunk on an empty image
            assert(bytes.len() == 0);
            if a.len() > 0 {
                assert(enc_op(a[0]).len() <= bytes.len());
            }
            if b.len() > 0 {
                assert(enc_op(b[0]).len() <= bytes.len());
            }
        }
    } else {
        let ca = enc_op(a[0]);
        let cb = enc_op(b[0]);
        // both heads decode from the same stream, so they agree
        assert(bytes =~= ca + bytes.skip(ca.len() as int));
        assert(bytes =~= cb + bytes.skip(cb.len() as int));
        assert(crate::serialization::dec_op(ca + bytes.skip(ca.len() as int)) == Some(
            (a[0], ca.len() as nat),
        ));
        assert(crate::serialization::dec_op(cb + bytes.skip(cb.len() as int)) == Some(
            (b[0], cb.len() as nat),
        ));
        assert(a[0] == b[0] && ca.len() == cb.len());
        lemma_wal_rep_unique(bytes.skip(ca.len() as int), a.skip(1), b.skip(1));
        assert(a =~= Seq::<LogOperationV>::empty().push(a[0]) + a.skip(1));
        assert(b =~= Seq::<LogOperationV>::empty().push(b[0]) + b.skip(1));
    }
}

} // verus!
