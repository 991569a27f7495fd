//! The ways in which rewriting a table can fail.

use vstd::prelude::*;

verus! {

/// Why a table, or one of its subtables, could not be processed.
#[derive(Clone, Copy, Debug, PartialEq, Eq, Structural)]
pub enum Error {
    /// A subtable announces a format that is not one of the nine known ones.
    UnrecognizedFormat,
    /// A read or a slice reaches past the end of the buffer, or a length or
    /// offset does not fit the field that has to hold it.
    OutOfBounds,
    /// The table holds neither a UCS-4 nor a UCS-2 segmented subtable.
    MissingRequiredSubtable,
}

impl Error {
    /// A short description of the failure.
    pub fn describe(&self) -> (text: &'static str)
        ensures
            text@ == match *self {
                Error::UnrecognizedFormat => "unrecognized subtable format"@,
                Error::OutOfBounds => "data out of bounds"@,
                Error::MissingRequiredSubtable => "missing required subtable"@,
            },
    {
        match self {
            Error::UnrecognizedFormat => "unrecognized subtable format",
            Error::OutOfBounds => "data out of bounds",
            Error::MissingRequiredSubtable => "missing required subtable",
        }
    }
}

} // verus!
