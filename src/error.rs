use vstd::prelude::*;

verus! {

/// Why a fabric, or one of its primitives, could not be built or wired.
#[derive(Clone, Copy, Debug, PartialEq, Eq, Structural)]
pub enum FabricError {
    /// A memory word width outside 1 to 64 bits.
    InvalidWidth(usize),
    DuplicateLutId,
    DuplicateDffId,
    DuplicateBramId,
    DuplicateInput,
    DuplicateOutput,
    UnknownInput,
    UnknownOutput,
    UnknownLut(usize),
    UnknownDff(usize),
    UnknownBram(usize),
    /// A lookup-table input index of 4 or more.
    InvalidLutPort(usize),
    /// A flip-flop port other than "D", "Q" or "CLK", or one used the wrong way round.
    InvalidDffPort(usize),
    /// A memory port other than the five it has, or "data_out" used as a sink.
    InvalidBramPort(usize),
    /// An element's output is queried before it is connected.
    MissingConnection,
    /// A connection whose sink is a named input.
    DrivenInput,
    /// A placement grid with fewer cells than there are elements to place.
    GridFull,
    /// A connection whose ends have no placed position, or which no route joins.
    Unroutable,
}

} // verus!
