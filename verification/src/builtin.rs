//! Descriptors that the reconciler carries for the host without reading them.

use vstd::prelude::*;

verus! {

/// What the host needs to create one native container. The reconciler copies
/// it into the `Mount` command and never looks inside.
#[derive(Clone, Copy, Debug, PartialEq, Eq, Hash, Structural)]
pub struct Builtin(pub u64);

/// What a `Mutate` command does to its containers once the host applies it.
#[derive(Clone, Copy, Debug, PartialEq, Eq, Hash, Structural)]
pub enum Mutator {
    /// Recompute the layout of the roots.
    Layout,
    /// A change that only the host can interpret.
    Platform(u64),
}

} // verus!
