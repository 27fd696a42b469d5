//! Necessity-dispensability quadrants.

use vstd::prelude::*;

verus! {

/// The quadrant of an element by its necessity `nu` and dispensability
/// `delta`.
#[derive(Debug, Clone, Copy, PartialEq, Eq, Structural)]
pub enum Quadrant {
    /// Necessary and indispensable.
    Keystone,
    /// Not necessary, but indispensable where it occurs.
    SpecialistGateway,
    /// Present but dispensable.
    Eliminable,
    /// Absent from the antichain (`nu == 0`).
    Inert,
}

} // verus!
