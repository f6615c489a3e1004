//! The write-ahead log.
//!
//! The log is an append-only stream: each appended unit is the encoding of
//! one operation. The store works on the byte image of the log file; a host
//! program mirrors appends and truncations to durable storage.

use vstd::prelude::*;

use crate::memtable::operation::{LogOperation, LogOperationV};
use crate::serialization::{BinarySerializationEngine, SerializationEngine, enc_op, op_chunk_good};

verus! {

/// Whether `bytes` is the canonical log image of `ops`: the concatenation
/// of the operations' encodings, carrying the decode facts each encoding
/// was written with.
pub open spec fn wal_rep(bytes: Seq<u8>, ops: Seq<LogOperationV>) -> bool
    decreases ops.len(),
{
    if ops.len() == 0 {
        bytes.len() == 0
    } else {
        let c = enc_op(ops[0]);
        &&& op_chunk_good(ops[0])
        &&& c.len() <= bytes.len()
        &&& bytes.take(c.len() as int) == c
        &&& wal_rep(bytes.skip(c.len() as int), ops.skip(1))
    }
}

/// Appending one encoded operation to a canonical image extends the
/// sequence it represents.
pub proof fn lemma_wal_rep_append(bytes: Seq<u8>, ops: Seq<LogOperationV>, op: LogOperationV)
    requires
        wal_rep(bytes, ops),
        op_chunk_good(op),
    ensures
        wal_rep(bytes + enc_op(op), ops.push(op)),
    decreases ops.len(),
{
    let c = enc_op(op);
    let ext = ops.push(op);
    if ops.len() == 0 {
        assert(bytes + c =~= c);
        assert(ext[0] == op);
        assert(c.take(c.len() as int) =~= c);
        assert(c.skip(c.len() as int) =~= Seq::<u8>::empty());
        assert(ext.skip(1) =~= Seq::<LogOperationV>::empty());
        assert(wal_rep(c.skip(c.len() as int), ext.skip(1)));
        assert(wal_rep(c, ext));
    } else {
        let c0 = enc_op(ops[0]);
        lemma_wal_rep_append(bytes.skip(c0.len() as int), ops.skip(1), op);
        assert(ext[0] == ops[0]);
        assert((bytes + c).take(c0.len() as int) =~= bytes.take(c0.len() as int));
        assert((bytes + c).skip(c0.len() as int) =~= bytes.skip(c0.len() as int) + c);
        assert(ext.skip(1) =~= ops.skip(1).push(op));
    }
}

/// The write-ahead log: the byte image of the log file, with the sequence
/// of operations it records.
pub struct MemTableLog {
    bytes: Vec<u8>,
    ops: Ghost<Seq<LogOperationV>>,
}

impl View for MemTableLog {
    type V = Seq<LogOperationV>;

    closed spec fn view(&self) -> Seq<LogOperationV> {
        self.ops@
    }
}

impl MemTableLog {
    /// The byte image of the log file.
    pub closed spec fn image(&self) -> Seq<u8> {
        self.bytes@
    }

    /// The image is the canonical encoding of the recorded operations, and
    /// every recorded key can be carried by the on-disk formats.
    pub open spec fn wf(&self) -> bool {
        &&& wal_rep(self.image(), self@)
        &&& forall|i: int| 0 <= i < self@.len() ==> (#[trigger] self@[i]).wf()
    }

    /// A fresh, empty log.
    pub fn new() -> (r: MemTableLog)
        ensures
            r.wf(),
            r@ == Seq::<LogOperationV>::empty(),
            r.image() == Seq::<u8>::empty(),
    {
        MemTableLog { bytes: Vec::new(), ops: Ghost(Seq::empty()) }
    }

    /// Adopts a replayed image: `bytes` must be the canonical image of
    /// `ops`, as `replay` establishes.
    pub(crate) fn from_image(bytes: Vec<u8>, ops: Ghost<Seq<LogOperationV>>) -> (r: MemTableLog)
        requires
            wal_rep(bytes@, ops@),
            forall|i: int| 0 <= i < ops@.len() ==> (#[trigger] ops@[i]).wf(),
        ensures
            r.wf(),
            r@ == ops@,
            r.image() == bytes@,
    {
        MemTableLog { bytes, ops }
    }

    /// Appends one operation: encodes it and extends the image; the
    /// operation is recorded before the in-memory table may change.
    pub fn append(&mut self, op: &LogOperation, serializer: &BinarySerializationEngine)
        requires
            old(self).wf(),
            op@.wf(),
        ensures
            final(self).wf(),
            final(self)@ == old(self)@.push(op@),
            final(self).image() == old(self).image() + enc_op(op@),
    {
        let chunk = serializer.serialize_op(op);
        proof {
            lemma_wal_rep_append(self.bytes@, self.ops@, op@);
        }
        let ghost prior = self.bytes@;
        let mut i: usize = 0;
        while i < chunk.len()
            invariant
                i <= chunk@.len(),
                self.bytes@ == prior + chunk@.take(i as int),
                self.ops@ == old(self)@,
            decreases chunk@.len() - i,
        {
            self.bytes.push(chunk[i]);
            proof {
                assert(chunk@.take(i + 1 as int) =~= chunk@.take(i as int).push(chunk@[i as int]));
                assert(prior + chunk@.take(i + 1 as int)
                    =~= (prior + chunk@.take(i as int)).push(chunk@[i as int]));
            }
            i = i + 1;
        }
        proof {
            assert(chunk@.take(chunk@.len() as int) =~= chunk@);
            let pushed = self.ops@.push(op@);
            assert forall|j: int| 0 <= j < pushed.len() implies (#[trigger] pushed[j]).wf() by {
                if j < self.ops@.len() {
                    assert(pushed[j] == self.ops@[j]);
                } else {
                    assert(pushed[j] == op@);
                }
            }
            self.ops@ = pushed;
        }
    }

    /// Truncates the log to length zero.
    pub fn clear(&mut self)
        ensures
            final(self).wf(),
            final(self)@ == Seq::<LogOperationV>::empty(),
            final(self).image() == Seq::<u8>::empty(),
    {
        self.bytes.clear();
        proof {
            self.ops@ = Seq::empty();
        }
    }

    /// The image of the log file, for mirroring to durable storage.
    pub fn image_bytes(&self) -> (r: &Vec<u8>)
        ensures
            r@ == self.image(),
    {
        &self.bytes
    }
}

} // verus!
