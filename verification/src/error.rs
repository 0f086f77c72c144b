//! The failures that decoding reports.

use vstd::prelude::*;

verus! {

/// Why a decode call failed.
#[derive(Clone, Copy, Debug, PartialEq, Eq, Structural)]
pub enum Error {
    /// More bytes were needed than remain in the slice.
    OutOfData,
    /// A field holds an encoding that cannot be represented.
    Malformed,
}

} // verus!
