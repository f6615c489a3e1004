//! Records stored by the engine.
//!
//! A record is a caller-supplied payload addressed by a byte-string key.
//! The store never interprets the payload; it only moves it whole between
//! the in-memory table and the on-disk formats.

use vstd::prelude::*;

use crate::keys::valid_key;

verus! {

/// Mathematical view of a record: its key and its opaque payload bytes.
pub struct RecordV {
    pub key: Seq<u8>,
    pub value: Seq<u8>,
}

/// A stored record: a key and an opaque payload.
#[derive(Clone)]
pub struct Record {
    pub key: Vec<u8>,
    pub value: Vec<u8>,
}

impl View for Record {
    type V = RecordV;

    open spec fn view(&self) -> RecordV {
        RecordV { key: self.key@, value: self.value@ }
    }
}

/// The interface a stored value presents to the engine: a stable key.
pub trait MemTableRecord: Sized {
    /// The key under which the record is stored.
    spec fn key_spec(&self) -> Seq<u8>;

    /// Returns the record's key.
    fn get_key(&self) -> (k: Vec<u8>)
        ensures
            k@ == self.key_spec(),
    ;
}

impl MemTableRecord for Record {
    open spec fn key_spec(&self) -> Seq<u8> {
        self.key@
    }

    fn get_key(&self) -> (k: Vec<u8>) {
        copy_bytes(&self.key)
    }
}

impl Record {
    /// Whether the record's key can be carried by the on-disk formats.
    pub open spec fn wf(&self) -> bool {
        valid_key(self@.key)
    }

    /// An equal copy of the record.
    pub fn dup(&self) -> (r: Record)
        ensures
            r@ == self@,
    {
        Record { key: copy_bytes(&self.key), value: copy_bytes(&self.value) }
    }
}

/// An equal copy of a byte vector.
pub fn copy_bytes(v: &Vec<u8>) -> (r: Vec<u8>)
    ensures
        r@ == v@,
{
    let mut r: Vec<u8> = Vec::new();
    let mut i: usize = 0;
    while i < v.len()
        invariant
            i <= v@.len(),
            r@ == v@.take(i as int),
        decreases v@.len() - i,
    {
        r.push(v[i]);
        proof {
            assert(v@.take(i + 1 as int) =~= v@.take(i as int).push(v@[i as int]));
        }
        i = i + 1;
    }
    proof {
        assert(v@.take(v@.len() as int) =~= v@);
    }
    r
}

/// Appends a copy of `src` to `out`.
pub fn append_bytes(out: &mut Vec<u8>, src: &Vec<u8>)
    ensures
        final(out)@ == old(out)@ + src@,
{
    let ghost prior = out@;
    let mut i: usize = 0;
    while i < src.len()
        invariant
            i <= src@.len(),
            out@ == prior + src@.take(i as int),
        decreases src@.len() - i,
    {
        out.push(src[i]);
        proof {
            assert(prior + src@.take(i + 1 as int) =~= (prior + src@.take(i as int)).push(
                src@[i as int],
            ));
        }
        i = i + 1;
    }
    proof {
        assert(prior + src@.take(src@.len() as int) =~= prior + src@);
    }
}

/// View of an optional record: a live record's view, or a tombstone.
pub open spec fn view_val(v: Option<Record>) -> Option<RecordV> {
    match v {
        Some(r) => Some(r@),
        None => None,
    }
}

/// View of a key-value entry.
pub open spec fn entry_view(e: (Vec<u8>, Option<Record>)) -> (Seq<u8>, Option<RecordV>) {
    (e.0@, view_val(e.1))
}

/// View of a sequence of key-value entries.
pub open spec fn entries_view(s: Seq<(Vec<u8>, Option<Record>)>) -> Seq<(Seq<u8>, Option<RecordV>)> {
    s.map_values(|e: (Vec<u8>, Option<Record>)| entry_view(e))
}

} // verus!
