//! The state threaded through one generation run.
use vstd::prelude::*;
use crate::map::{GameMap, idx_of};
use crate::rect::{Rect, rect_in};

verus! {

/// A cell position on the grid.
#[derive(PartialEq, Eq, Structural, Copy, Clone, Debug)]
pub struct Position {
    pub x: i32,
    pub y: i32,
}

/// A stage could not run on the state it was given.
#[derive(PartialEq, Eq, Structural, Copy, Clone, Debug)]
pub enum ChainError {
    /// A room-based stage ran without rooms.
    RoomsRequired,
    /// A stage that needs a starting position ran before one was chosen.
    NoStartingPosition,
    /// The starting position is not on a walkable tile.
    StartNotWalkable,
    /// The grid holds no walkable tile to place on.
    NoWalkableTile,
    /// No walkable tile other than the start can be reached.
    NoExitTile,
}

/// Mutable generation context: the grid, spawn intents, the chosen start,
/// the rooms and corridors carved so far, and diagnostic snapshots.
pub struct BuilderMap {
    pub spawn_list: Vec<(usize, String)>,
    pub map: GameMap,
    pub starting_position: Option<Position>,
    pub rooms: Option<Vec<Rect>>,
    pub corridors: Option<Vec<Vec<usize>>>,
    pub history: Vec<GameMap>,
    pub width: i32,
    pub height: i32,
    pub record_snapshots: bool,
}

/// The position lies on a `w` by `h` grid.
pub open spec fn pos_in(w: int, h: int, p: Position) -> bool {
    0 <= p.x < w && 0 <= p.y < h
}

/// `s` is the grid `m` with every cell revealed.
pub open spec fn revealed_copy(s: GameMap, m: GameMap) -> bool {
    &&& s.tiles@ == m.tiles@
    &&& s.revealed_tiles@.len() == m.revealed_tiles@.len()
    &&& forall|k: int| 0 <= k < s.revealed_tiles@.len() ==> #[trigger] s.revealed_tiles@[k]
    &&& s.visible_tiles@ == m.visible_tiles@
    &&& s.blocked@ == m.blocked@
    &&& s.width == m.width
    &&& s.height == m.height
    &&& s.depth == m.depth
    &&& s.name@ == m.name@
    &&& s.outdoors == m.outdoors
}

/// Flat index of a position.
pub open spec fn pos_idx(w: int, p: Position) -> int {
    idx_of(w, p.x as int, p.y as int)
}

impl BuilderMap {
    pub open spec fn wf(&self) -> bool {
        &&& self.map.wf()
        &&& self.width == self.map.width
        &&& self.height == self.map.height
        &&& self.starting_position matches Some(p) ==> pos_in(
            self.width as int,
            self.height as int,
            p,
        )
        &&& self.rooms matches Some(v) ==> forall|k: int|
            0 <= k < v@.len() ==> rect_in(self.width as int, self.height as int, #[trigger] v@[k])
    }

    /// Index of the starting position, when there is one.
    pub open spec fn start_idx(&self) -> int {
        pos_idx(self.width as int, self.starting_position.unwrap())
    }

    /// Everything but the snapshot history is as in `o`.
    pub open spec fn same_but_history(&self, o: &BuilderMap) -> bool {
        &&& self.spawn_list == o.spawn_list
        &&& self.map == o.map
        &&& self.starting_position == o.starting_position
        &&& self.rooms == o.rooms
        &&& self.corridors == o.corridors
        &&& self.width == o.width
        &&& self.height == o.height
        &&& self.record_snapshots == o.record_snapshots
    }

    /// Everything but the tiles of the grid and the snapshots is as in `o`.
    pub open spec fn same_layout(&self, o: &BuilderMap) -> bool {
        &&& self.spawn_list == o.spawn_list
        &&& self.starting_position == o.starting_position
        &&& self.rooms == o.rooms
        &&& self.corridors == o.corridors
        &&& self.width == o.width
        &&& self.height == o.height
        &&& self.record_snapshots == o.record_snapshots
        &&& self.map.width == o.map.width
        &&& self.map.height == o.map.height
        &&& self.map.depth == o.map.depth
        &&& self.map.name == o.map.name
        &&& self.map.outdoors == o.map.outdoors
        &&& self.map.revealed_tiles == o.map.revealed_tiles
        &&& self.map.visible_tiles == o.map.visible_tiles
        &&& self.map.blocked == o.map.blocked
        &&& self.map.tiles@.len() == o.map.tiles@.len()
    }

    /// Everything but the tiles of the grid is as in `o`.
    pub open spec fn same_but_tiles(&self, o: &BuilderMap) -> bool {
        &&& self.same_layout(o)
        &&& self.history == o.history
    }

    /// A fresh context around an all-wall grid.
    pub fn new(new_depth: i32, width: i32, height: i32, name: &str) -> (b: BuilderMap)
        requires
            0 < width,
            0 < height,
            width * height <= crate::map::MAX_TILES,
        ensures
            b.wf(),
            b.width == width,
            b.height == height,
            b.map.depth == new_depth,
            b.map.name@ == name@,
            forall|i: int| 0 <= i < b.map.size() ==> b.map.tiles@[i] == crate::tile_type::TileType::Wall,
            b.spawn_list@.len() == 0,
            b.starting_position is None,
            b.rooms is None,
            b.corridors is None,
            b.history@.len() == 0,
            !b.record_snapshots,
    {
        BuilderMap {
            spawn_list: Vec::new(),
            map: GameMap::new(new_depth, width, height, name),
            starting_position: None,
            rooms: None,
            corridors: None,
            history: Vec::new(),
            width,
            height,
            record_snapshots: false,
        }
    }

    /// Records a fully revealed copy of the grid, when snapshots are on.
    /// Snapshots are diagnostic only: nothing else changes.
    pub fn take_snapshot(&mut self)
        ensures
            final(self).same_but_history(old(self)),
            old(self).record_snapshots ==> final(self).history@.len() == old(self).history@.len() + 1
                && final(self).history@.subrange(0, old(self).history@.len() as int) == old(self).history@
                && revealed_copy(final(self).history@.last(), old(self).map),
            !old(self).record_snapshots ==> final(self).history == old(self).history,
    {
        if self.record_snapshots {
            let mut snapshot = self.map.copy();
            let n = snapshot.revealed_tiles.len();
            let mut i: usize = 0;
            while i < n
                invariant
                    n == snapshot.revealed_tiles@.len(),
                    i <= n,
                    forall|k: int| 0 <= k < i ==> #[trigger] snapshot.revealed_tiles@[k],
                    snapshot.tiles@ == self.map.tiles@,
                    snapshot.visible_tiles@ == self.map.visible_tiles@,
                    snapshot.blocked@ == self.map.blocked@,
                    snapshot.width == self.map.width,
                    snapshot.height == self.map.height,
                    snapshot.depth == self.map.depth,
                    snapshot.name@ == self.map.name@,
                    snapshot.outdoors == self.map.outdoors,
                    n == self.map.revealed_tiles@.len(),
                decreases n - i,
            {
                snapshot.revealed_tiles.set(i, true);
                i = i + 1;
            }
            let ghost h0 = self.history@;
            self.history.push(snapshot);
            assert(self.history@.subrange(0, h0.len() as int) =~= h0);
        }
    }
}

} // verus!
