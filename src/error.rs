use vstd::prelude::*;

verus! {

/// Why a cut or an allocation was refused.
#[derive(Debug, Clone, Copy, PartialEq, Eq)]
pub enum Error {
    /// The molding has less length left than the piece asks for.
    NotLongEnough,
    /// The piece is longer than a whole fixed-length molding.
    InvalidInput,
}

} // verus!
