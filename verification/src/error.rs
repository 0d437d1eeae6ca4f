use vstd::prelude::*;

verus! {

/// The failures that the map and its storage report.
#[derive(Debug, Clone, Copy, PartialEq, Eq, Structural)]
pub enum SovereignError {
    /// The index names no slot of the arena (or is the null index).
    NodeNotFound(u32),
    /// The slot exists but holds no live node.
    StaleIndex,
    /// The key is already in the tree.
    DuplicateKey,
    /// The stored digest of the node does not match its contents.
    IntegrityViolation(u32),
    /// The arena cannot hand out another slot.
    CapacityExceeded,
}

/// The result of the map's and the arena's operations.
pub type Result<T> = core::result::Result<T, SovereignError>;

} // verus!
