use vstd::prelude::*;

verus! {

/// The record kinds whose lines carry a minimum length.
#[derive(Debug, Clone, Copy, PartialEq, Eq, Structural)]
pub enum RecordKind {
    Header,
    Cryst1,
    Atom,
}

/// Why a parse failed. Every variant carries the 1-based number of the offending line.
#[derive(Debug, Clone, Copy, PartialEq, Eq, Structural)]
pub enum ParseError {
    /// The line is too short to hold a record label.
    LabelTooShort { line: usize },
    /// The line has a known label but is shorter than that record's fields.
    RecordTooShort { line: usize, kind: RecordKind },
    /// A fixed-column field is not a valid literal of its type.
    FieldParse { line: usize },
}

/// Indexed access to a position past the end of a container, or to a cleared slot.
#[derive(Debug, Clone, Copy, PartialEq, Eq, Structural)]
pub struct IndexOutOfRange {
    pub index: usize,
}

/// Why turning a downloaded answer into a structure failed.
#[derive(Debug, Clone, Copy, PartialEq, Eq, Structural)]
pub enum FetchError {
    /// The server answered with a status other than success.
    Status { status: u16 },
    /// The downloaded text is not a valid structure.
    Parse { error: ParseError },
}

} // verus!
