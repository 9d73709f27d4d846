//! A parallel external sorting engine for newline-delimited unsigned 32-bit
//! integers: an in-memory merge sort combined with a recursive split/merge
//! strategy over staged records, coordinated by a fixed-capacity worker-pool
//! model with admission control.

pub mod checker;
pub mod file_reader;
pub mod merge_sorter;
pub mod records;
pub mod thread_pool;

use vstd::prelude::*;

verus! {

/// A staged file is eligible for the in-RAM sorting path exactly when its
/// byte size is strictly below the configured threshold.
pub fn in_ram_eligible(file_size: usize, max_size_in_ram: usize) -> (b: bool)
    ensures
        b == (file_size < max_size_in_ram),
{
    file_size < max_size_in_ram
}

} // verus!
