use vstd::prelude::*;

verus! {

/// A single square of the maze grid.
///
/// `Solution` is a display-only refinement of `Path`: it marks cells on the
/// last computed shortest route and is still walkable.
#[derive(Clone, Copy, Debug, PartialEq, Eq, Structural)]
pub enum Cell {
    Wall,
    Path,
    Solution,
}

} // verus!
