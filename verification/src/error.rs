//! The one error type of the engine.

use vstd::prelude::*;

verus! {

/// What an operation of the engine can report instead of a result.
#[derive(Clone, Copy, Debug, PartialEq, Eq, Structural)]
pub enum Error {
    /// There is no room: a page would lie at or beyond the limit of the
    /// backing device, or every row identifier is taken.
    Io,
    /// The page has never been written: it is neither cached nor on the device.
    NotFound,
    /// The page count names a bitmap page, or a slot that no bitmap governs.
    Reserved,
    /// The key is already present in the index.
    DuplicateKey,
    /// No row is stored under the row identifier.
    MissingRow,
    /// The record has no value, or not as many values as the table declares.
    Arity,
    /// A value that is not the last of its record is too long for its cell.
    TooLarge,
}

} // verus!
