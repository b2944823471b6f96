//! Simple movement rules over positions.
use vstd::prelude::*;
use crate::builder_map::Position;

verus! {

/// The column after which a right-walker wraps back to column zero.
pub const WRAP_COLUMN: i32 = 79;

/// Where a right-walker at `p` is one turn later: one column right, back to
/// column zero past the last column.
pub open spec fn walked_right(p: Position) -> Position {
    if p.x + 1 > WRAP_COLUMN {
        Position { x: 0, y: p.y }
    } else {
        Position { x: (p.x + 1) as i32, y: p.y }
    }
}

/// Moves every entity that walks right by one column per turn.
pub struct RightWalker {}

impl RightWalker {
    pub fn new() -> (r: RightWalker) {
        RightWalker {  }
    }

    /// Advances each position one turn.
    pub fn run(&mut self, positions: &mut Vec<Position>)
        ensures
            final(positions)@.len() == old(positions)@.len(),
            forall|k: int|
                0 <= k < final(positions)@.len() ==> #[trigger] final(positions)@[k] == walked_right(
                    old(positions)@[k],
                ),
    {
        let ghost before = positions@;
        let mut i: usize = 0;
        while i < positions.len()
            invariant
                positions@.len() == before.len(),
                i <= before.len(),
                forall|k: int| 0 <= k < i ==> #[trigger] positions@[k] == walked_right(before[k]),
                forall|k: int| i <= k < before.len() ==> #[trigger] positions@[k] == before[k],
            decreases before.len() - i,
        {
            let p = positions[i];
            let next = if p.x >= WRAP_COLUMN {
                Position { x: 0, y: p.y }
            } else {
                Position { x: p.x + 1, y: p.y }
            };
            positions.set(i, next);
            i = i + 1;
        }
    }
}

} // verus!
