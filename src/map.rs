use vstd::prelude::*;
use crate::tile_type::{TileType, walkable, is_tile_walkable};

verus! {

/// The largest number of tiles a grid may hold, so that every index fits in
/// an `i32`, and a die with one face per tile can be rolled.
pub const MAX_TILES: i32 = 0x7fff_fffe;

/// Flat index of the cell at column `x`, row `y`.
pub open spec fn idx_of(w: int, x: int, y: int) -> int {
    y * w + x
}

/// The tile grid: one tile per cell, row-major, with parallel overlays.
pub struct GameMap {
    pub tiles: Vec<TileType>,
    pub width: i32,
    pub height: i32,
    pub revealed_tiles: Vec<bool>,
    pub visible_tiles: Vec<bool>,
    pub blocked: Vec<bool>,
    pub depth: i32,
    pub name: String,
    pub outdoors: bool,
}

impl GameMap {
    /// Every parallel array has one entry per cell, and the cell count fits
    /// in an `i32`.
    pub open spec fn wf(&self) -> bool {
        &&& 0 < self.width
        &&& 0 < self.height
        &&& self.width * self.height <= MAX_TILES
        &&& self.tiles@.len() == self.width * self.height
        &&& self.revealed_tiles@.len() == self.width * self.height
        &&& self.visible_tiles@.len() == self.width * self.height
        &&& self.blocked@.len() == self.width * self.height
    }

    pub open spec fn size(&self) -> int {
        self.width * self.height
    }

    /// A grid of the given size that is wall everywhere, with cleared overlays.
    pub fn new(new_depth: i32, width: i32, height: i32, name: &str) -> (m: GameMap)
        requires
            0 < width,
            0 < height,
            width * height <= MAX_TILES,
        ensures
            m.wf(),
            m.width == width,
            m.height == height,
            m.depth == new_depth,
            m.name@ == name@,
            m.outdoors,
            forall|i: int| 0 <= i < m.size() ==> m.tiles@[i] == TileType::Wall,
            forall|i: int| 0 <= i < m.size() ==> !m.revealed_tiles@[i] && !m.visible_tiles@[i]
                && !m.blocked@[i],
    {
        let n: usize = (width * height) as usize;
        GameMap {
            tiles: vec![TileType::Wall; n],
            width,
            height,
            revealed_tiles: vec![false; n],
            visible_tiles: vec![false; n],
            blocked: vec![false; n],
            depth: new_depth,
            name: name.to_owned(),
            outdoors: true,
        }
    }

    /// Flat index of column `x`, row `y`.
    pub fn xy_idx(&self, x: i32, y: i32) -> (r: usize)
        requires
            self.wf(),
            0 <= x < self.width,
            0 <= y < self.height,
        ensures
            r as int == idx_of(self.width as int, x as int, y as int),
            r < self.size(),
    {
        proof {
            assert(y * self.width + x < self.width * self.height) by (nonlinear_arith)
                requires
                    0 <= x < self.width,
                    0 <= y < self.height,
            ;
            assert(0 <= y * self.width) by (nonlinear_arith)
                requires
                    0 <= y,
                    0 <= self.width,
            ;
        }
        (y as usize * self.width as usize) + x as usize
    }

    /// A move may end on `(x, y)`: it is at least one cell from the top and
    /// left edges, on the grid, and not blocked.
    pub fn is_exit_valid(&self, x: i32, y: i32) -> (r: bool)
        requires
            self.wf(),
        ensures
            r == (1 <= x < self.width && 1 <= y < self.height && !self.blocked@[idx_of(
                self.width as int,
                x as int,
                y as int,
            )]),
    {
        if x < 1 || x > self.width - 1 || y < 1 || y > self.height - 1 {
            return false;
        }
        let idx = self.xy_idx(x, y);
        !self.blocked[idx]
    }

    /// A copy of the grid.
    pub fn copy(&self) -> (c: GameMap)
        ensures
            c.tiles@ == self.tiles@,
            c.revealed_tiles@ == self.revealed_tiles@,
            c.visible_tiles@ == self.visible_tiles@,
            c.blocked@ == self.blocked@,
            c.width == self.width,
            c.height == self.height,
            c.depth == self.depth,
            c.name@ == self.name@,
            c.outdoors == self.outdoors,
    {
        GameMap {
            tiles: copy_vec(&self.tiles),
            width: self.width,
            height: self.height,
            revealed_tiles: copy_vec(&self.revealed_tiles),
            visible_tiles: copy_vec(&self.visible_tiles),
            blocked: copy_vec(&self.blocked),
            depth: self.depth,
            name: self.name.clone(),
            outdoors: self.outdoors,
        }
    }

    /// Rebuilds the blocking index from the tiles: a cell blocks exactly when
    /// its tile is not walkable.
    pub fn populate_blocked(&mut self)
        requires
            old(self).wf(),
        ensures
            final(self).wf(),
            final(self).tiles == old(self).tiles,
            final(self).width == old(self).width,
            final(self).height == old(self).height,
            final(self).depth == old(self).depth,
            final(self).outdoors == old(self).outdoors,
            final(self).name == old(self).name,
            final(self).revealed_tiles == old(self).revealed_tiles,
            final(self).visible_tiles == old(self).visible_tiles,
            forall|i: int|
                0 <= i < final(self).size() ==> final(self).blocked@[i] == !walkable(
                    final(self).tiles@[i],
                ),
    {
        let n = self.tiles.len();
        let mut i: usize = 0;
        while i < n
            invariant
                self.wf(),
                n == self.tiles@.len(),
                i <= n,
                self.tiles == old(self).tiles,
                self.width == old(self).width,
                self.height == old(self).height,
                self.depth == old(self).depth,
                self.outdoors == old(self).outdoors,
                self.name == old(self).name,
                self.revealed_tiles == old(self).revealed_tiles,
                self.visible_tiles == old(self).visible_tiles,
                forall|k: int| 0 <= k < i ==> self.blocked@[k] == !walkable(self.tiles@[k]),
            decreases n - i,
        {
            let b = !is_tile_walkable(self.tiles[i]);
            self.blocked.set(i, b);
            i = i + 1;
        }
    }

    /// Marks every cell as not blocked.
    pub fn clear_content_index(&mut self)
        requires
            old(self).wf(),
        ensures
            final(self).wf(),
            final(self).tiles == old(self).tiles,
            final(self).width == old(self).width,
            final(self).height == old(self).height,
            final(self).depth == old(self).depth,
            final(self).outdoors == old(self).outdoors,
            final(self).name == old(self).name,
            final(self).revealed_tiles == old(self).revealed_tiles,
            final(self).visible_tiles == old(self).visible_tiles,
            forall|i: int| 0 <= i < final(self).size() ==> !final(self).blocked@[i],
    {
        let n = self.blocked.len();
        let mut i: usize = 0;
        while i < n
            invariant
                self.wf(),
                n == self.blocked@.len(),
                i <= n,
                self.tiles == old(self).tiles,
                self.width == old(self).width,
                self.height == old(self).height,
                self.depth == old(self).depth,
                self.outdoors == old(self).outdoors,
                self.name == old(self).name,
                self.revealed_tiles == old(self).revealed_tiles,
                self.visible_tiles == old(self).visible_tiles,
                forall|k: int| 0 <= k < i ==> !self.blocked@[k],
            decreases n - i,
        {
            self.blocked.set(i, false);
            i = i + 1;
        }
    }
}

/// A copy of a vector of plain values.
pub fn copy_vec<T: Copy>(v: &Vec<T>) -> (c: Vec<T>)
    ensures
        c@ == v@,
{
    let mut c: Vec<T> = Vec::new();
    let mut i: usize = 0;
    while i < v.len()
        invariant
            i <= v@.len(),
            c@ == v@.subrange(0, i as int),
        decreases v@.len() - i,
    {
        c.push(v[i]);
        i = i + 1;
    }
    assert(c@ =~= v@);
    c
}

} // verus!
