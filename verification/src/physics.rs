//! Properties of particles in a simulation.

use vstd::prelude::*;

verus! {

/// Whether a particle may move.
#[derive(Debug, Clone, Copy, PartialEq, Eq, Structural)]
pub enum Mobility {
    /// It stays where it is.
    Fixed,
    /// It moves.
    Mobile,
}

/// Whether a particle is drawn.
#[derive(Debug, Clone, Copy, PartialEq, Eq, Structural)]
pub enum Visibility {
    /// It is drawn.
    Visible,
    /// It is not drawn.
    Invisible,
}

/// Whether a particle of this mobility stays where it is.
pub fn is_fixed(mobility: Mobility) -> (r: bool)
    ensures
        r == (mobility == Mobility::Fixed),
{
    matches!(mobility, Mobility::Fixed)
}

/// Whether a particle of this visibility is drawn.
pub fn is_visible(visibility: Visibility) -> (r: bool)
    ensures
        r == (visibility == Visibility::Visible),
{
    matches!(visibility, Visibility::Visible)
}

} // verus!
