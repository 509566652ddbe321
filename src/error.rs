use vstd::prelude::*;

use crate::filter::Thread;

verus! {

/// Everything that can go wrong while converting or filtering thread indices.
#[derive(Debug)]
pub enum DmglrError {
    /// The SMT level text is not "2" or "4"; holds the text given.
    InvalidSmtLevel(String),
    /// An OpenMPI-order index beyond the last hardware thread.
    OutOfRange(u32),
    /// A thread-rank selector that the SMT width cannot reach.
    IncompatibleFilter { thread_rank: Thread, width: u32 },
    /// A chunk of the table has no element at the selected rank.
    FilterIndexError(usize),
}

} // verus!
