//! Reading a write-ahead log image back, one operation at a time.

use vstd::prelude::*;

use crate::keys::bytes_eq;
use crate::memtable::log::{lemma_wal_rep_append, wal_rep};
use crate::memtable::operation::{ops_view, LogOperation, LogOperationV};
use crate::serialization::{BinarySerializationEngine, SerializationEngine, SerializationError, dec_op, enc_op};

verus! {

/// A cursor over a log image.
pub struct MemTableLogReader {
    bytes: Vec<u8>,
    pos: usize,
}

impl MemTableLogReader {
    pub closed spec fn wf(&self) -> bool {
        self.pos <= self.bytes@.len()
    }

    /// The whole log image the reader was opened over.
    pub closed spec fn image(&self) -> Seq<u8> {
        self.bytes@
    }

    /// The bytes not yet consumed.
    pub closed spec fn remaining(&self) -> Seq<u8> {
        self.bytes@.skip(self.pos as int)
    }

    /// Opens a reader at the start of a log image.
    pub fn open(bytes: Vec<u8>) -> (r: MemTableLogReader)
        ensures
            r.wf(),
            r.image() == bytes@,
            r.remaining() == bytes@,
    {
        let r = MemTableLogReader { bytes, pos: 0 };
        proof {
            assert(r.remaining() =~= r.image());
        }
        r
    }

    /// Reads the next operation in written order: `Ok(None)` at a clean end
    /// of the stream, an error on a malformed or truncated tail.
    pub fn next_op(&mut self, serializer: &BinarySerializationEngine) -> (r: Result<
        Option<LogOperation>,
        SerializationError,
    >)
        requires
            old(self).wf(),
        ensures
            final(self).wf(),
            final(self).image() == old(self).image(),
            match r {
                Ok(Some(op)) => dec_op(old(self).remaining()) matches Some((o, n)) && o == op@
                    && final(self).remaining() == old(self).remaining().skip(n as int),
                Ok(None) => old(self).remaining().len() == 0 && final(self).remaining()
                    == old(self).remaining(),
                Err(e) => e == SerializationError::Corrupt && dec_op(old(self).remaining()) is None
                    && old(self).remaining().len() > 0 && final(self).remaining() == old(
                    self,
                ).remaining(),
            },
    {
        if self.pos == self.bytes.len() {
            return Ok(None);
        }
        match serializer.deserialize_op(self.bytes.as_slice(), self.pos) {
            Ok((op, n)) => {
                proof {
                    assert(self.bytes@.skip((self.pos + n) as int) =~= self.bytes@.skip(
                        self.pos as int,
                    ).skip(n as int));
                }
                self.pos = self.pos + n;
                Ok(Some(op))
            },
            Err(_) => Err(SerializationError::Corrupt),
        }
    }
}

/// Replays a whole log image in written order. Accepts exactly the
/// canonical images this store writes back as the operations they record;
/// a malformed or truncated tail is an error, never a silent stop, since a
/// silent stop would discard acknowledged writes.
pub fn replay(bytes: &Vec<u8>, serializer: &BinarySerializationEngine) -> (r: Result<
    Vec<LogOperation>,
    SerializationError,
>)
    ensures
        match r {
            Ok(v) => wal_rep(bytes@, ops_view(v@)),
            Err(e) => e == SerializationError::Corrupt,
        },
        forall|ops: Seq<LogOperationV>| #[trigger]
            wal_rep(bytes@, ops) ==> (r matches Ok(v) && ops_view(v@) == ops),
{
    let mut out: Vec<LogOperation> = Vec::new();
    let mut pos: usize = 0;
    proof {
        assert(ops_view(out@) =~= Seq::<LogOperationV>::empty());
        assert(bytes@.take(0) =~= Seq::<u8>::empty());
        assert(bytes@.skip(0) =~= bytes@);
        assert forall|ops: Seq<LogOperationV>| #[trigger] wal_rep(bytes@, ops) implies {
            &&& out@.len() <= ops.len()
            &&& ops_view(out@) == ops.take(out@.len() as int)
            &&& wal_rep(bytes@.skip(0), ops.skip(0))
        } by {
            assert(ops_view(out@) =~= ops.take(0));
            assert(ops.skip(0) =~= ops);
        }
    }
    loop
        invariant
            pos <= bytes@.len(),
            ops_view(out@).len() == out@.len(),
            wal_rep(bytes@.take(pos as int), ops_view(out@)),
            forall|ops: Seq<LogOperationV>| #[trigger]
                wal_rep(bytes@, ops) ==> {
                    &&& out@.len() <= ops.len()
                    &&& ops_view(out@) == ops.take(out@.len() as int)
                    &&& wal_rep(bytes@.skip(pos as int), ops.skip(out@.len() as int))
                },
        decreases bytes@.len() - pos,
    {
        if pos == bytes.len() {
            proof {
                assert(bytes@.take(pos as int) =~= bytes@);
                assert forall|ops: Seq<LogOperationV>| #[trigger]
                    wal_rep(bytes@, ops) implies ops_view(out@) == ops by {
                    let m = out@.len() as int;
                    assert(wal_rep(bytes@.skip(pos as int), ops.skip(m)));
                    assert(bytes@.skip(pos as int).len() == 0);
                    if ops.skip(m).len() > 0 {
                        assert(enc_op(ops.skip(m)[0]).len() <= bytes@.skip(pos as int).len());
                        assert(false);
                    }
                    assert(ops.take(m) =~= ops);
                }
            }
            return Ok(out);
        }
        match serializer.deserialize_op(bytes.as_slice(), pos) {
            Ok((op, n)) => {
                let chunk = serializer.serialize_op(&op);
                let ghost suffix = bytes@.skip(pos as int);
                let consumed = &bytes.as_slice()[pos..pos + n];
                proof {
                    assert(consumed@ =~= suffix.take(n as int));
                }
                if chunk.len() != n || !bytes_eq(chunk.as_slice(), consumed) {
                    proof {
                        assert forall|ops: Seq<LogOperationV>| #[trigger]
                            wal_rep(bytes@, ops) implies false by {
                            let m = out@.len() as int;
                            assert(wal_rep(suffix, ops.skip(m)));
                            if ops.skip(m).len() == 0 {
                                assert(suffix.len() == 0);
                            } else {
                                let o = ops.skip(m)[0];
                                let c = enc_op(o);
                                assert(suffix =~= c + suffix.skip(c.len() as int));
                                assert(dec_op(c + suffix.skip(c.len() as int)) == Some(
                                    (o, c.len() as nat),
                                ));
                                assert(o == op@ && c.len() == n);
                                assert(chunk@ == suffix.take(n as int));
                            }
                        }
                    }
                    return Err(SerializationError::Corrupt);
                }
                proof {
                    // The consumed bytes are the canonical encoding, so the
                    // decoded prefix extends by this operation.
                    assert(chunk@ == suffix.take(n as int));
                    lemma_wal_rep_append(bytes@.take(pos as int), ops_view(out@), op@);
                    assert(bytes@.take((pos + n) as int) =~= bytes@.take(pos as int) + suffix.take(
                        n as int,
                    ));
                    assert(ops_view(out@.push(op)) =~= ops_view(out@).push(op@));
                    assert forall|ops: Seq<LogOperationV>| #[trigger]
                        wal_rep(bytes@, ops) implies {
                        &&& out@.len() + 1 <= ops.len()
                        &&& ops_view(out@.push(op)) == ops.take(out@.len() + 1 as int)
                        &&& wal_rep(bytes@.skip((pos + n) as int), ops.skip(out@.len() + 1 as int))
                    } by {
                        let m = out@.len() as int;
                        assert(wal_rep(suffix, ops.skip(m)));
                        if ops.skip(m).len() == 0 {
                            assert(suffix.len() == 0);
                            assert(false);
                        }
                        let o = ops.skip(m)[0];
                        let c = enc_op(o);
                        assert(suffix =~= c + suffix.skip(c.len() as int));
                        assert(dec_op(c + suffix.skip(c.len() as int)) == Some((o, c.len() as nat)));
                        assert(o == op@ && c.len() == n);
                        assert(ops.skip(m)[0] == ops[m]);
                        assert(ops.take(m + 1) =~= ops.take(m).push(ops[m]));
                        assert(bytes@.skip((pos + n) as int) =~= suffix.skip(c.len() as int));
                        assert(ops.skip(m).skip(1) =~= ops.skip(m + 1));
                    }
                }
                out.push(op);
                pos = pos + n;
            },
            Err(_) => {
                proof {
                    assert forall|ops: Seq<LogOperationV>| #[trigger]
                        wal_rep(bytes@, ops) implies false by {
                        let m = out@.len() as int;
                        let suffix = bytes@.skip(pos as int);
                        assert(wal_rep(suffix, ops.skip(m)));
                        if ops.skip(m).len() == 0 {
                            assert(suffix.len() == 0);
                        } else {
                            let o = ops.skip(m)[0];
                            let c = enc_op(o);
                            assert(suffix =~= c + suffix.skip(c.len() as int));
                            assert(dec_op(c + suffix.skip(c.len() as int)) == Some(
                                (o, c.len() as nat),
                            ));
                        }
                    }
                }
                return Err(SerializationError::Corrupt);
            },
        }
    }
}

} // verus!
