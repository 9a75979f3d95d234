use vstd::prelude::*;

verus! {

/// The recoverable failure conditions of the library.
///
/// Every operation that can fail reports one of these values to the caller;
/// none of the library's verified functions panics.
#[derive(Clone, Copy, Debug, PartialEq, Eq, Structural)]
pub enum MutedError {
    /// A logical index at or past the total length, or a bit position past a
    /// buffer's capacity.
    OutOfBounds,
    /// An operation found its target slot in a state it does not accept
    /// (replacement needs an empty slot, removal a live segment reference).
    SlotState,
    /// A segment identity with no matching ownership-table entry.
    NotFound,
    /// An appended value's width or signedness does not match the store's
    /// fixed width witness.
    ConfigMismatch,
    /// A decoded bit pattern does not fit the requested integer width.
    ParseOverflow,
    /// A segment whose elements are themselves segment references; only one
    /// level of indirection is allowed.
    NestedRef,
}

} // verus!
