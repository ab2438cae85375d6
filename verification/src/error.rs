//! The ways in which a run can fail before or while the library works.

use vstd::prelude::*;

verus! {

/// Why a line is not a digest record.
#[derive(Debug, Clone, Copy, PartialEq, Eq, Structural)]
pub enum ParseFault {
    /// There is no name: the line does not begin with `lzjd:`, or it has
    /// no `:` behind that which follows at least one byte of a name.
    Name,
    /// The text behind the last `:` is not the text of a digest.
    Payload,
}

#[derive(Debug, Clone, Copy, PartialEq, Eq, Structural)]
pub enum Error {
    /// A line of digest records is malformed. Lines count from 1.
    Parse { line: usize, fault: ParseFault },
    /// A comparison was asked for with `given` lists of records; it takes
    /// one or two.
    Arity { given: usize },
    /// No worker pool can be made with the number of workers asked for.
    PoolInit,
}

} // verus!
