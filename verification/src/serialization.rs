//! The record-level codec.
//!
//! Logged operations and stored values travel as a `(tag, key, payload)`
//! triple encoded by an outside binary codec. The codec is self-delimiting:
//! decoding a stream that starts with an encoded triple yields the triple
//! back and consumes exactly its encoding, so streams of encoded values can
//! be concatenated and read back one by one.

use vstd::prelude::*;

use crate::memtable::operation::{LogOperation, LogOperationV};
use crate::record::{view_val, Record, RecordV};

verus! {

/// How decoding fails: a clean end of stream before any byte of a value was
/// read, or a malformed or truncated value.
#[derive(PartialEq, Eq, Structural, Clone, Copy, Debug)]
pub enum SerializationError {
    UnexpectedEOF,
    Corrupt,
}

/// The bytes the outside codec produces for a wire triple: a function of
/// the triple alone.
pub uninterp spec fn wire_enc(tag: u8, a: Seq<u8>, b: Seq<u8>) -> Seq<u8>;

/// What the outside codec's decoder yields on a byte stream: a triple and
/// the number of bytes consumed, or nothing; a function of the stream
/// alone.
pub uninterp spec fn wire_dec(s: Seq<u8>) -> Option<(u8, Seq<u8>, Seq<u8>, nat)>;

/// Relies on `bincode::encode_to_vec` with the standard configuration on a
/// `(u8, Vec<u8>, Vec<u8>)` triple. `wire_enc` names the encoding, which is
/// a function of the triple alone and never empty; encoding such a triple
/// cannot fail. Decoding a stream that starts with the encoding yields the
/// triple back and consumes exactly the encoding, which the clauses below
/// state through `wire_dec`, the name for what `decode_from_slice` returns.
#[verifier::external_body]
fn wire_encode(tag: u8, a: &Vec<u8>, b: &Vec<u8>) -> (r: Vec<u8>)
    ensures
        r@ == wire_enc(tag, a@, b@),
        1 <= r@.len(),
        forall|rest: Seq<u8>|
            #[trigger] wire_dec(r@ + rest) == Some((tag, a@, b@, r@.len() as nat)),
{
    bincode::encode_to_vec((tag, a.clone(), b.clone()), bincode::config::standard()).unwrap()
}

/// Relies on `bincode::decode_from_slice` with the standard configuration on
/// a `(u8, Vec<u8>, Vec<u8>)` triple. `wire_dec` names its outcome on the
/// suffix of the buffer from `pos` on: the decoded triple and the number of
/// bytes consumed, or nothing on failure. Decoding reads the stream
/// sequentially, so it consumes at least one byte and at most the suffix.
#[verifier::external_body]
fn wire_decode(buf: &[u8], pos: usize) -> (r: Option<(u8, Vec<u8>, Vec<u8>, usize)>)
    requires
        pos <= buf@.len(),
    ensures
        match r {
            Some((tag, a, b, n)) => {
                &&& wire_dec(buf@.skip(pos as int)) == Some((tag, a@, b@, n as nat))
                &&& 1 <= n <= buf@.len() - pos
            },
            None => wire_dec(buf@.skip(pos as int)) is None,
        },
{
    match bincode::decode_from_slice::<(u8, Vec<u8>, Vec<u8>), _>(
        &buf[pos..],
        bincode::config::standard(),
    ) {
        Ok(((tag, a, b), n)) => Some((tag, a, b, n)),
        Err(_) => None,
    }
}

/// The wire triple an operation travels as.
pub open spec fn op_wire(op: LogOperationV) -> (u8, Seq<u8>, Seq<u8>) {
    match op {
        LogOperationV::Insert { record } => (1u8, record.key, record.value),
        LogOperationV::Delete { key } => (0u8, key, Seq::<u8>::empty()),
    }
}

/// The encoding of one logged operation.
pub open spec fn enc_op(op: LogOperationV) -> Seq<u8> {
    wire_enc(op_wire(op).0, op_wire(op).1, op_wire(op).2)
}

/// The operation a wire triple stands for, if any.
pub open spec fn op_of_wire(tag: u8, a: Seq<u8>, b: Seq<u8>) -> Option<LogOperationV> {
    if tag == 1u8 {
        Some(LogOperationV::Insert { record: RecordV { key: a, value: b } })
    } else if tag == 0u8 && b.len() == 0 {
        Some(LogOperationV::Delete { key: a })
    } else {
        None
    }
}

/// What decoding one operation from the head of a stream yields.
pub open spec fn dec_op(s: Seq<u8>) -> Option<(LogOperationV, nat)> {
    match wire_dec(s) {
        Some((tag, a, b, n)) => match op_of_wire(tag, a, b) {
            Some(op) => Some((op, n)),
            None => None,
        },
        None => None,
    }
}

/// The wire triple a stored value travels as.
pub open spec fn val_wire(v: Option<RecordV>) -> (u8, Seq<u8>, Seq<u8>) {
    match v {
        Some(record) => (1u8, record.key, record.value),
        None => (0u8, Seq::<u8>::empty(), Seq::<u8>::empty()),
    }
}

/// The encoding of one stored value: a live record or a tombstone.
pub open spec fn enc_val(v: Option<RecordV>) -> Seq<u8> {
    wire_enc(val_wire(v).0, val_wire(v).1, val_wire(v).2)
}

/// The stored value a wire triple stands for, if any.
pub open spec fn val_of_wire(tag: u8, a: Seq<u8>, b: Seq<u8>) -> Option<Option<RecordV>> {
    if tag == 1u8 {
        Some(Some(RecordV { key: a, value: b }))
    } else if tag == 0u8 && a.len() == 0 && b.len() == 0 {
        Some(None)
    } else {
        None
    }
}

/// What decoding one stored value from the head of a stream yields.
pub open spec fn dec_val(s: Seq<u8>) -> Option<(Option<RecordV>, nat)> {
    match wire_dec(s) {
        Some((tag, a, b, n)) => match val_of_wire(tag, a, b) {
            Some(v) => Some((v, n)),
            None => None,
        },
        None => None,
    }
}

/// An encoding together with the decode facts its writer established: the
/// chunk is the value's encoding, and decoding any stream that starts with
/// it gives the value back, consuming exactly the chunk.
pub open spec fn op_chunk_good(op: LogOperationV) -> bool {
    &&& 1 <= enc_op(op).len()
    &&& forall|rest: Seq<u8>|
        #[trigger] dec_op(enc_op(op) + rest) == Some((op, enc_op(op).len() as nat))
}

/// As `op_chunk_good`, for a stored value.
pub open spec fn val_chunk_good(v: Option<RecordV>) -> bool {
    &&& 1 <= enc_val(v).len()
    &&& forall|rest: Seq<u8>|
        #[trigger] dec_val(enc_val(v) + rest) == Some((v, enc_val(v).len() as nat))
}

/// The codec interface the store works through: two-way byte translation
/// for logged operations and for stored values. Decoding must consume
/// exactly the bytes of one encoded value, and a clean end of stream is
/// told apart from a malformed or truncated value. The shipped engine
/// below implements it; the contracts fix the wire bytes, so the stored
/// formats do not depend on which engine a build links.
pub trait SerializationEngine {
    /// Encodes one logged operation.
    fn serialize_op(&self, op: &LogOperation) -> (r: Vec<u8>)
        ensures
            r@ == enc_op(op@),
            op_chunk_good(op@),
    ;

    /// Decodes one logged operation from `buf` at `pos`; yields the
    /// operation and the number of bytes consumed. A clean end of the
    /// stream — no byte left at `pos` — is told apart from a malformed or
    /// truncated value.
    fn deserialize_op(&self, buf: &[u8], pos: usize) -> (r: Result<
        (LogOperation, usize),
        SerializationError,
    >)
        requires
            pos <= buf@.len(),
        ensures
            match r {
                Ok((op, n)) => {
                    &&& dec_op(buf@.skip(pos as int)) == Some((op@, n as nat))
                    &&& 1 <= n <= buf@.len() - pos
                },
                Err(e) => {
                    &&& dec_op(buf@.skip(pos as int)) is None
                    &&& e == (if pos == buf@.len() {
                        SerializationError::UnexpectedEOF
                    } else {
                        SerializationError::Corrupt
                    })
                },
            },
    ;

    /// Encodes one stored value: a live record or a tombstone.
    fn serialize_val(&self, v: &Option<Record>) -> (r: Vec<u8>)
        ensures
            r@ == enc_val(view_val(*v)),
            val_chunk_good(view_val(*v)),
    ;

    /// Decodes one stored value from `buf` at `pos`; yields the value and
    /// the number of bytes consumed. A clean end of the stream is told
    /// apart from a malformed or truncated value.
    fn deserialize_val(&self, buf: &[u8], pos: usize) -> (r: Result<
        (Option<Record>, usize),
        SerializationError,
    >)
        requires
            pos <= buf@.len(),
        ensures
            match r {
                Ok((v, n)) => {
                    &&& dec_val(buf@.skip(pos as int)) == Some((view_val(v), n as nat))
                    &&& 1 <= n <= buf@.len() - pos
                },
                Err(e) => {
                    &&& dec_val(buf@.skip(pos as int)) is None
                    &&& e == (if pos == buf@.len() {
                        SerializationError::UnexpectedEOF
                    } else {
                        SerializationError::Corrupt
                    })
                },
            },
    ;
}

/// The shipped codec: the outside binary codec on wire triples.
pub struct BinarySerializationEngine;

impl SerializationEngine for BinarySerializationEngine {
    fn serialize_op(&self, op: &LogOperation) -> (r: Vec<u8>) {
        match op {
            LogOperation::Insert { record } => {
                let r = wire_encode(1, &record.key, &record.value);
                proof {
                    assert forall|rest: Seq<u8>|
                        #[trigger] dec_op(enc_op(op@) + rest)
                            == Some((op@, enc_op(op@).len() as nat)) by {
                        assert(wire_dec(r@ + rest) == Some((1u8, record.key@, record.value@, r@.len() as nat)));
                    }
                }
                r
            },
            LogOperation::Delete { key } => {
                let empty: Vec<u8> = Vec::new();
                let r = wire_encode(0, key, &empty);
                proof {
                    assert(empty@ =~= Seq::<u8>::empty());
                    assert forall|rest: Seq<u8>|
                        #[trigger] dec_op(enc_op(op@) + rest)
                            == Some((op@, enc_op(op@).len() as nat)) by {
                        assert(wire_dec(r@ + rest) == Some((0u8, key@, empty@, r@.len() as nat)));
                    }
                }
                r
            },
        }
    }

    fn deserialize_op(&self, buf: &[u8], pos: usize) -> (r: Result<
        (LogOperation, usize),
        SerializationError,
    >) {
        match wire_decode(buf, pos) {
            Some((tag, a, b, n)) => {
                if tag == 1 {
                    Ok((LogOperation::Insert { record: Record { key: a, value: b } }, n))
                } else if tag == 0 && b.len() == 0 {
                    Ok((LogOperation::Delete { key: a }, n))
                } else {
                    Err(SerializationError::Corrupt)
                }
            },
            None => {
                if pos == buf.len() {
                    Err(SerializationError::UnexpectedEOF)
                } else {
                    Err(SerializationError::Corrupt)
                }
            },
        }
    }

    fn serialize_val(&self, v: &Option<Record>) -> (r: Vec<u8>) {
        match v {
            Some(record) => {
                let r = wire_encode(1, &record.key, &record.value);
                proof {
                    assert forall|rest: Seq<u8>|
                        #[trigger] dec_val(enc_val(view_val(*v)) + rest)
                            == Some((view_val(*v), enc_val(view_val(*v)).len() as nat)) by {
                        assert(wire_dec(r@ + rest) == Some((1u8, record.key@, record.value@, r@.len() as nat)));
                    }
                }
                r
            },
            None => {
                let empty: Vec<u8> = Vec::new();
                let empty2: Vec<u8> = Vec::new();
                let r = wire_encode(0, &empty, &empty2);
                proof {
                    assert(empty@ =~= Seq::<u8>::empty());
                    assert(empty2@ =~= Seq::<u8>::empty());
                    assert forall|rest: Seq<u8>|
                        #[trigger] dec_val(enc_val(view_val(*v)) + rest)
                            == Some((view_val(*v), enc_val(view_val(*v)).len() as nat)) by {
                        assert(wire_dec(r@ + rest) == Some((0u8, empty@, empty2@, r@.len() as nat)));
                    }
                }
                r
            },
        }
    }

    fn deserialize_val(&self, buf: &[u8], pos: usize) -> (r: Result<
        (Option<Record>, usize),
        SerializationError,
    >) {
        match wire_decode(buf, pos) {
            Some((tag, a, b, n)) => {
                if tag == 1 {
                    Ok((Some(Record { key: a, value: b }), n))
                } else if tag == 0 && a.len() == 0 && b.len() == 0 {
                    Ok((None, n))
                } else {
                    Err(SerializationError::Corrupt)
                }
            },
            None => {
                if pos == buf.len() {
                    Err(SerializationError::UnexpectedEOF)
                } else {
                    Err(SerializationError::Corrupt)
                }
            },
        }
    }
}

} // verus!
