use vstd::prelude::*;

verus! {

/// Why a request for corrupted copies cannot be carried out.
#[derive(Debug, Clone, Copy, PartialEq, Eq, Structural)]
pub enum VandalizeError {
    /// A parameter is semantically invalid (a stride of zero).
    InvalidArgument,
    /// A position was asked for within an empty byte sequence.
    InvalidRange,
    /// An offset lies outside the byte sequence it should address.
    PositionOutOfRange,
}

} // verus!
