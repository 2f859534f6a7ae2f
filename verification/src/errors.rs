use vstd::prelude::*;

verus! {

/// The error taxonomy of the solver core.
///
/// `InvalidInput`: the point set has fewer than two points, is too large for
/// exact arithmetic, has out-of-range coordinates, or ids that are not
/// contiguous from zero.
///
/// `InfeasibleBound`: a distance lookup between out-of-range indices — a
/// programming defect in the caller, not a user error.
///
/// `Exhausted`: exact search was requested for a point count large enough
/// that the caller should be warned off; an advisory, never a refusal.
#[derive(Clone, Copy, Debug, PartialEq, Eq, Structural)]
pub enum TspError {
    InvalidInput,
    InfeasibleBound,
    Exhausted,
}

} // verus!
