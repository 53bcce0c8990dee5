use vstd::prelude::*;

pub mod input;
pub mod names;
pub mod palette;
pub mod selection;

verus! {

/// Where a tile stands with respect to another.
#[derive(Clone, Copy, Debug, PartialEq, Eq, Structural)]
pub enum RelativePosition {
    LeftOf,
    RightOf,
    Above,
    Below,
    Current,
}

/// Marks the tile that follows the mouse in the builder.
#[derive(Clone, Copy, Debug, PartialEq, Eq, Structural)]
pub struct FreeTile;

} // verus!
