//! The one way a generator can refuse its parameters.

use vstd::prelude::*;

verus! {

/// Why a generator did not start. Nothing is generated once one of these is
/// returned.
#[derive(Clone, Copy, Debug, PartialEq, Eq, Structural)]
pub enum ParameterError {
    /// The subdivision depth asks for more points than a signed 32-bit count holds.
    DepthTooLarge,
    /// A corner coordinate leaves the 64-bit range on the refined grid.
    CoordinateTooLarge,
    /// The generating polygon has fewer corners than a simplex of its space.
    TooFewCorners,
}

} // verus!
