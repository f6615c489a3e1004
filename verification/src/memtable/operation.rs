//! Operations recorded in the write-ahead log.

use vstd::prelude::*;

use crate::keys::valid_key;
use crate::record::{Record, RecordV};

verus! {

/// Mathematical view of a logged operation.
pub enum LogOperationV {
    Insert { record: RecordV },
    Delete { key: Seq<u8> },
}

/// One logged operation: an insertion carrying the whole record, or a
/// deletion carrying the key alone.
pub enum LogOperation {
    Insert { record: Record },
    Delete { key: Vec<u8> },
}

impl View for LogOperation {
    type V = LogOperationV;

    open spec fn view(&self) -> LogOperationV {
        match self {
            LogOperation::Insert { record } => LogOperationV::Insert { record: record@ },
            LogOperation::Delete { key } => LogOperationV::Delete { key: key@ },
        }
    }
}

impl LogOperationV {
    /// The key the operation concerns.
    pub open spec fn key(self) -> Seq<u8> {
        match self {
            LogOperationV::Insert { record } => record.key,
            LogOperationV::Delete { key } => key,
        }
    }

    /// Whether the operation's key can be carried by the on-disk formats.
    pub open spec fn wf(self) -> bool {
        valid_key(self.key())
    }
}

/// Whether every operation in a sequence has a key the on-disk formats can
/// carry.
pub open spec fn ops_wf(ops: Seq<LogOperationV>) -> bool {
    forall|i: int| 0 <= i < ops.len() ==> (#[trigger] ops[i]).wf()
}

/// View of a sequence of operations.
pub open spec fn ops_view(s: Seq<LogOperation>) -> Seq<LogOperationV> {
    s.map_values(|op: LogOperation| op@)
}

} // verus!
