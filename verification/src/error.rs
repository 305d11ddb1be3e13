use vstd::prelude::*;

verus! {

/// Every way a proposed move can be turned down. A rejection is never a
/// crash: the board is left untouched and the next attempt starts fresh.
#[derive(Copy, Clone, Debug, PartialEq, Eq, Structural)]
pub enum Error {
    NothingInUtl,
    StackCantParent,
    StackOutOfOrder,
    JacksNotVisible,
    MoveJacks,
    MustClickCard,
    MultipleToSlot,
    CardNotNumeric,
    NoCardClicked,
    NoOpenUtility,
    OrdCantParent,
    BadSourceOrDest,
    UtlNotOpen,
    InvalidConv,
}

} // verus!
