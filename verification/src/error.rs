//! Errors of a reconciliation cycle.
use vstd::prelude::*;

verus! {

/// What can go wrong while patches are applied. Both kinds are fatal for the
/// cycle in which they occur.
#[derive(Debug, Clone, Copy, PartialEq, Eq, Structural)]
pub enum Error {
    /// A patch addressed an index that was never located, or a node whose
    /// kind (or shape) the patch cannot be applied to.
    StructuralInconsistency,
    /// The callbacks of an identifier were to be retired, but the registry
    /// holds no entry for it.
    RegistryInconsistency,
}

} // verus!
