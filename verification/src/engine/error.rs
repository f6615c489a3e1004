//! How engine operations fail.

use vstd::prelude::*;

verus! {

/// Errors surfaced to the caller. `DBMissing` and `IO` are raised by the
/// host program around the store (the store itself performs no I/O);
/// `WalReplayCorrupt`, `SSTableCorrupt` and `ManifestCorrupt` reject
/// malformed images at open; `EmptyFlush` marks a flush invariant
/// violation; `KeyCollision` rejects a key that the index file could not
/// tell apart from one already buffered; `NoFreshName` means no unused
/// table file name could be derived.
#[derive(Debug)]
pub enum EngineError {
    DBMissing,
    IO { op: Vec<u8>, path: Vec<u8> },
    WalReplayCorrupt { path: Vec<u8> },
    SSTableCorrupt { path: Vec<u8> },
    ManifestCorrupt { path: Vec<u8> },
    EmptyFlush,
    KeyCollision,
    NoFreshName,
}

} // verus!
