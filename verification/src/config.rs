//! Store configuration, loaded by the host program before the engine
//! opens.

use vstd::prelude::*;

verus! {

/// Parameters of the store. `index_key_string_size` is the width of a key
/// slot in the index file and `index_offset_size` the width of an offset;
/// this store writes offsets as little-endian 64-bit integers, so the
/// offset width must be eight. The flush threshold and the tier
/// parameters drive the flush and compaction policies.
pub struct Config {
    pub db_path: String,
    pub index_key_string_size: usize,
    pub index_offset_size: usize,
    pub initial_index_file_threshold: usize,
    pub compaction_threshold: u32,
    pub compaction_tier_size: usize,
    pub compaction_size_multiplier: u32,
}

impl Config {
    /// The parameter ranges under which the engine operates.
    pub open spec fn wf(&self) -> bool {
        &&& 1 <= self.index_key_string_size
        &&& self.index_key_string_size <= 0xffff
        &&& self.index_offset_size == 8
        &&& 1 <= self.initial_index_file_threshold
        &&& 1 <= self.compaction_tier_size
        &&& 2 <= self.compaction_size_multiplier
    }

    /// Checks the parameter ranges, so a caller that loaded a
    /// configuration from the outside can refuse a bad one.
    pub fn valid(&self) -> (r: bool)
        ensures
            r == self.wf(),
    {
        1 <= self.index_key_string_size && self.index_key_string_size <= 0xffff
            && self.index_offset_size == 8 && 1 <= self.initial_index_file_threshold && 1
            <= self.compaction_tier_size && 2 <= self.compaction_size_multiplier
    }
}

} // verus!
