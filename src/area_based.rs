//! Reachability culling and placement of the start and the exit.
use vstd::prelude::*;
use crate::tile_type::{TileType, walkable, is_tile_walkable};
use crate::map::GameMap;
use crate::builder_map::{BuilderMap, ChainError, Position, pos_idx, pos_in};
use crate::grid::{is_walk, reachable, lemma_coords};
use crate::reach::{distance_map, is_distance_map};

verus! {

/// What stops a stage that starts from the starting position: none chosen,
/// or one on a tile that cannot be walked on.
pub open spec fn start_error(b: BuilderMap) -> Option<ChainError> {
    match b.starting_position {
        None => Some(ChainError::NoStartingPosition),
        Some(p) => if walkable(b.map.tiles@[pos_idx(b.width as int, p)]) {
            None
        } else {
            Some(ChainError::StartNotWalkable)
        },
    }
}

/// The grid after every walkable cell that cannot be reached from `s` has
/// been turned into wall.
pub open spec fn culled(t: Seq<TileType>, w: int, h: int, s: int) -> Seq<TileType> {
    Seq::new(
        t.len(),
        |i: int|
            if walkable(t[i]) && !reachable(t, w, h, s, i) {
                TileType::Wall
            } else {
                t[i]
            },
    )
}

/// Index of the starting position, checked.
pub fn start_index(build_data: &BuilderMap) -> (r: Result<usize, ChainError>)
    requires
        build_data.wf(),
    ensures
        r is Err <==> start_error(*build_data) is Some,
        r is Err ==> r == Err::<usize, ChainError>(start_error(*build_data).unwrap()),
        r is Ok ==> r.unwrap() as int == build_data.start_idx() && r.unwrap() < build_data.map.size(),
{
    match build_data.starting_position {
        None => Err(ChainError::NoStartingPosition),
        Some(p) => {
            let idx = build_data.map.xy_idx(p.x, p.y);
            if is_tile_walkable(build_data.map.tiles[idx]) {
                Ok(idx)
            } else {
                Err(ChainError::StartNotWalkable)
            }
        },
    }
}

/// Turns every walkable cell that cannot be reached from the start into wall.
pub struct CullUnreachable {}

impl CullUnreachable {
    pub fn new() -> (r: CullUnreachable) {
        CullUnreachable {  }
    }

    /// Afterwards every walkable cell can be walked to from the start.
    pub fn build(&mut self, build_data: &mut BuilderMap) -> (r: Result<(), ChainError>)
        requires
            old(build_data).wf(),
        ensures
            final(build_data).wf(),
            r is Err <==> start_error(*old(build_data)) is Some,
            r is Err ==> r == Err::<(), ChainError>(start_error(*old(build_data)).unwrap())
                && *final(build_data) == *old(build_data),
            r is Ok ==> ({
                let b0 = *old(build_data);
                let b1 = *final(build_data);
                let w = b0.width as int;
                let h = b0.height as int;
                let s = b0.start_idx();
                &&& b1.map.tiles@ == culled(b0.map.tiles@, w, h, s)
                &&& forall|i: int|
                    0 <= i < b1.map.size() && walkable(#[trigger] b1.map.tiles@[i]) ==> reachable(
                        b1.map.tiles@,
                        w,
                        h,
                        s,
                        i,
                    )
                &&& walkable(b1.map.tiles@[s])
                &&& b1.same_but_tiles(&b0)
            }),
    {
        let s = match start_index(build_data) {
            Err(e) => {
                return Err(e);
            },
            Ok(s) => s,
        };
        let ghost b0 = *build_data;
        let ghost t = build_data.map.tiles@;
        let ghost w = build_data.width as int;
        let ghost h = build_data.height as int;
        let dist = distance_map(&build_data.map, s);
        let n = build_data.map.tiles.len();
        let mut i: usize = 0;
        while i < n
            invariant
                build_data.wf(),
                build_data.same_but_tiles(&b0),
                n == t.len(),
                dist@.len() == n,
                is_distance_map(t, w, h, s as int, dist@),
                w == build_data.width,
                h == build_data.height,
                t.len() == build_data.map.tiles@.len(),
                i <= n,
                forall|k: int| 0 <= k < i ==> #[trigger] build_data.map.tiles@[k] == culled(t, w, h, s as int)[k],
                forall|k: int| i <= k < n ==> #[trigger] build_data.map.tiles@[k] == t[k],
            decreases n - i,
        {
            if dist[i] < 0 && is_tile_walkable(build_data.map.tiles[i]) {
                build_data.map.tiles.set(i, TileType::Wall);
            }
            i = i + 1;
        }
        proof {
            assert(build_data.map.tiles@ =~= culled(t, w, h, s as int));
            lemma_culled_reachable(t, w, h, s as int);
        }
        Ok(())
    }
}

/// A prefix of a walk is a walk.
pub proof fn lemma_walk_prefix(t: Seq<TileType>, w: int, h: int, p: Seq<int>, k: int)
    requires
        is_walk(t, w, h, p),
        0 <= k < p.len(),
    ensures
        is_walk(t, w, h, p.subrange(0, k + 1)),
        p.subrange(0, k + 1)[0] == p[0],
        p.subrange(0, k + 1).last() == p[k],
{
    let q = p.subrange(0, k + 1);
    assert forall|m: int| 0 <= m < q.len() implies 0 <= #[trigger] q[m] < t.len() && walkable(
        t[q[m]],
    ) by {
        assert(q[m] == p[m]);
    }
    assert forall|m: int| 0 <= m < q.len() - 1 implies #[trigger] crate::grid::step(
        w,
        h,
        q[m],
        q[m + 1],
    ) by {
        assert(q[m] == p[m] && q[m + 1] == p[m + 1]);
        assert(crate::grid::step(w, h, p[m], p[m + 1]));
    }
}

/// After culling, every walkable cell is reachable from the start.
pub proof fn lemma_culled_reachable(t: Seq<TileType>, w: int, h: int, s: int)
    requires
        0 <= s < t.len(),
        walkable(t[s]),
    ensures
        forall|i: int|
            0 <= i < t.len() && walkable(#[trigger] culled(t, w, h, s)[i]) ==> reachable(
                culled(t, w, h, s),
                w,
                h,
                s,
                i,
            ),
        walkable(culled(t, w, h, s)[s]),
{
    let c = culled(t, w, h, s);
    let single = seq![s];
    assert(is_walk(t, w, h, single));
    assert(single[0] == s && single.last() == s);
    assert(reachable(t, w, h, s, s));
    assert forall|i: int| 0 <= i < t.len() && walkable(#[trigger] c[i]) implies reachable(
        c,
        w,
        h,
        s,
        i,
    ) by {
        assert(walkable(t[i]) && reachable(t, w, h, s, i));
        let p = choose|p: Seq<int>| is_walk(t, w, h, p) && p[0] == s && p.last() == i;
        assert forall|k: int| 0 <= k < p.len() implies 0 <= #[trigger] p[k] < c.len() && walkable(
            c[p[k]],
        ) by {
            lemma_walk_prefix(t, w, h, p, k);
            assert(reachable(t, w, h, s, p[k]));
            assert(c[p[k]] == t[p[k]]);
        }
        assert(is_walk(c, w, h, p));
    }
}

/// Which third of the grid's width a placement looks in.
#[derive(PartialEq, Eq, Structural, Copy, Clone, Debug)]
pub enum XStart {
    Left,
    Center,
    Right,
}

/// Which third of the grid's height a placement looks in.
#[derive(PartialEq, Eq, Structural, Copy, Clone, Debug)]
pub enum YStart {
    Top,
    Center,
    Bottom,
}

/// Which third of the grid's width an exit is placed in.
#[derive(PartialEq, Eq, Structural, Copy, Clone, Debug)]
pub enum XEnd {
    Left,
    Center,
    Right,
}

/// Which third of the grid's height an exit is placed in.
#[derive(PartialEq, Eq, Structural, Copy, Clone, Debug)]
pub enum YEnd {
    Top,
    Center,
    Bottom,
}

/// Cell `i` lies in third `col` (0, 1, 2 from the left) of the width and
/// third `row` (0, 1, 2 from the top) of the height.
pub open spec fn in_region(w: int, h: int, col: int, row: int, i: int) -> bool {
    &&& col * w / 3 <= i % w < (col + 1) * w / 3
    &&& row * h / 3 <= i / w < (row + 1) * h / 3
}

/// `i` is the first walkable cell of the region in scan order.
pub open spec fn first_in_region(t: Seq<TileType>, w: int, h: int, col: int, row: int, i: int) -> bool {
    &&& 0 <= i < t.len()
    &&& in_region(w, h, col, row, i)
    &&& walkable(t[i])
    &&& forall|j: int| 0 <= j < i && in_region(w, h, col, row, j) ==> !walkable(#[trigger] t[j])
}

/// `i` is the first walkable cell of the whole grid in scan order.
pub open spec fn first_anywhere(t: Seq<TileType>, i: int) -> bool {
    &&& 0 <= i < t.len()
    &&& walkable(t[i])
    &&& forall|j: int| 0 <= j < i ==> !walkable(#[trigger] t[j])
}

pub open spec fn region_has_walkable(t: Seq<TileType>, w: int, h: int, col: int, row: int) -> bool {
    exists|i: int| 0 <= i < t.len() && in_region(w, h, col, row, i) && #[trigger] walkable(t[i])
}

pub open spec fn has_walkable(t: Seq<TileType>) -> bool {
    exists|i: int| 0 <= i < t.len() && #[trigger] walkable(t[i])
}

/// The cell an area-based placement picks: the first walkable cell of the
/// region, or, when the region has none, the first walkable cell of the grid.
pub open spec fn area_pick(t: Seq<TileType>, w: int, h: int, col: int, row: int, i: int) -> bool {
    if region_has_walkable(t, w, h, col, row) {
        first_in_region(t, w, h, col, row, i)
    } else {
        first_anywhere(t, i)
    }
}

/// Finds the cell that an area-based placement picks.
pub fn find_area_tile(map: &GameMap, col: u8, row: u8) -> (r: Option<usize>)
    requires
        map.wf(),
        col < 3,
        row < 3,
    ensures
        r is None <==> !has_walkable(map.tiles@),
        r is Some ==> area_pick(map.tiles@, map.width as int, map.height as int, col as int, row as int, r.unwrap() as int),
{
    let ghost t = map.tiles@;
    let ghost wi = map.width as int;
    let ghost hi = map.height as int;
    let w = map.width as i64;
    let h = map.height as i64;
    proof {
        assert(0 <= (col as i64) * w <= 3 * 0x7fff_ffff) by (nonlinear_arith)
            requires
                col < 3,
                0 < w <= 0x7fff_ffff,
        ;
        assert(0 <= (col as i64 + 1) * w <= 3 * 0x7fff_ffff) by (nonlinear_arith)
            requires
                col < 3,
                0 < w <= 0x7fff_ffff,
        ;
        assert(0 <= (row as i64) * h <= 3 * 0x7fff_ffff) by (nonlinear_arith)
            requires
                row < 3,
                0 < h <= 0x7fff_ffff,
        ;
        assert(0 <= (row as i64 + 1) * h <= 3 * 0x7fff_ffff) by (nonlinear_arith)
            requires
                row < 3,
                0 < h <= 0x7fff_ffff,
        ;
    }
    let x_lo = (col as i64) * w / 3;
    let x_hi = (col as i64 + 1) * w / 3;
    let y_lo = (row as i64) * h / 3;
    let y_hi = (row as i64 + 1) * h / 3;
    let n = map.tiles.len();
    let mut i: usize = 0;
    while i < n
        invariant
            map.wf(),
            t == map.tiles@,
            wi == w,
            hi == h,
            wi == map.width,
            hi == map.height,
            n == t.len(),
            x_lo == col * wi / 3,
            x_hi == (col + 1) * wi / 3,
            y_lo == row * hi / 3,
            y_hi == (row + 1) * hi / 3,
            i <= n,
            forall|j: int| 0 <= j < i && in_region(wi, hi, col as int, row as int, j) ==> !walkable(#[trigger] t[j]),
        decreases n - i,
    {
        proof {
            lemma_coords(wi, hi, i as int);
        }
        let x = (i as i64) % w;
        let y = (i as i64) / w;
        if x_lo <= x && x < x_hi && y_lo <= y && y < y_hi && is_tile_walkable(map.tiles[i]) {
            proof {
                assert(in_region(wi, hi, col as int, row as int, i as int));
                assert(walkable(t[i as int]));
                assert(region_has_walkable(t, wi, hi, col as int, row as int));
            }
            return Some(i);
        }
        i = i + 1;
    }
    proof {
        assert(!region_has_walkable(t, wi, hi, col as int, row as int)) by {
            if region_has_walkable(t, wi, hi, col as int, row as int) {
                let j = choose|j: int| 0 <= j < t.len() && in_region(wi, hi, col as int, row as int, j) && #[trigger] walkable(t[j]);
                assert(!walkable(t[j]));
            }
        }
    }
    let mut i: usize = 0;
    while i < n
        invariant
            map.wf(),
            t == map.tiles@,
            n == t.len(),
            i <= n,
            wi == map.width,
            hi == map.height,
            !region_has_walkable(t, wi, hi, col as int, row as int),
            forall|j: int| 0 <= j < i ==> !walkable(#[trigger] t[j]),
        decreases n - i,
    {
        if is_tile_walkable(map.tiles[i]) {
            proof {
                assert(first_anywhere(t, i as int));
                assert(area_pick(t, wi, hi, col as int, row as int, i as int));
            }
            return Some(i);
        }
        i = i + 1;
    }
    proof {
        assert(!has_walkable(t)) by {
            if has_walkable(t) {
                let j = choose|j: int| 0 <= j < t.len() && #[trigger] walkable(t[j]);
                assert(!walkable(t[j]));
            }
        }
    }
    None
}

/// Places the start on the first walkable cell of a chosen region.
pub struct AreaStartingPosition {
    pub x: XStart,
    pub y: YStart,
}

pub open spec fn x_third(x: XStart) -> int {
    match x {
        XStart::Left => 0,
        XStart::Center => 1,
        XStart::Right => 2,
    }
}

pub open spec fn y_third(y: YStart) -> int {
    match y {
        YStart::Top => 0,
        YStart::Center => 1,
        YStart::Bottom => 2,
    }
}

/// The position of flat index `i` on a grid `w` wide.
pub fn idx_position(w: i32, h: i32, i: usize) -> (p: Position)
    requires
        0 < w,
        0 < h,
        w * h <= i32::MAX,
        i < w * h,
    ensures
        pos_in(w as int, h as int, p),
        pos_idx(w as int, p) == i,
{
    proof {
        lemma_coords(w as int, h as int, i as int);
    }
    Position { x: (i % (w as usize)) as i32, y: (i / (w as usize)) as i32 }
}

impl AreaStartingPosition {
    pub fn new(x: XStart, y: YStart) -> (r: AreaStartingPosition)
        ensures
            r.x == x,
            r.y == y,
    {
        AreaStartingPosition { x, y }
    }

    /// Sets the start to the cell that `area_pick` names for this region.
    pub fn build(&self, build_data: &mut BuilderMap) -> (r: Result<(), ChainError>)
        requires
            old(build_data).wf(),
        ensures
            final(build_data).wf(),
            r is Err <==> !has_walkable(old(build_data).map.tiles@),
            r is Err ==> r == Err::<(), ChainError>(ChainError::NoWalkableTile)
                && *final(build_data) == *old(build_data),
            r is Ok ==> final(build_data).starting_position is Some && area_pick(
                old(build_data).map.tiles@,
                old(build_data).width as int,
                old(build_data).height as int,
                x_third(self.x),
                y_third(self.y),
                final(build_data).start_idx(),
            ),
            r is Ok ==> final(build_data).map == old(build_data).map
                && final(build_data).spawn_list == old(build_data).spawn_list
                && final(build_data).rooms == old(build_data).rooms
                && final(build_data).corridors == old(build_data).corridors
                && final(build_data).history == old(build_data).history
                && final(build_data).width == old(build_data).width
                && final(build_data).height == old(build_data).height
                && final(build_data).record_snapshots == old(build_data).record_snapshots,
    {
        let col: u8 = match self.x {
            XStart::Left => 0,
            XStart::Center => 1,
            XStart::Right => 2,
        };
        let row: u8 = match self.y {
            YStart::Top => 0,
            YStart::Center => 1,
            YStart::Bottom => 2,
        };
        match find_area_tile(&build_data.map, col, row) {
            None => Err(ChainError::NoWalkableTile),
            Some(i) => {
                let p = idx_position(build_data.width, build_data.height, i);
                build_data.starting_position = Some(p);
                Ok(())
            },
        }
    }
}


pub open spec fn x_end_third(x: XEnd) -> int {
    match x {
        XEnd::Left => 0,
        XEnd::Center => 1,
        XEnd::Right => 2,
    }
}

pub open spec fn y_end_third(y: YEnd) -> int {
    match y {
        YEnd::Top => 0,
        YEnd::Center => 1,
        YEnd::Bottom => 2,
    }
}

/// Places the exit (down stairs) on the first walkable cell of a chosen region.
pub struct AreaEndingPosition {
    pub x: XEnd,
    pub y: YEnd,
}

impl AreaEndingPosition {
    pub fn new(x: XEnd, y: YEnd) -> (r: AreaEndingPosition)
        ensures
            r.x == x,
            r.y == y,
    {
        AreaEndingPosition { x, y }
    }

    /// Turns the cell that `area_pick` names for this region into down stairs.
    pub fn build(&self, build_data: &mut BuilderMap) -> (r: Result<(), ChainError>)
        requires
            old(build_data).wf(),
        ensures
            final(build_data).wf(),
            r is Err <==> !has_walkable(old(build_data).map.tiles@),
            r is Err ==> r == Err::<(), ChainError>(ChainError::NoWalkableTile)
                && *final(build_data) == *old(build_data),
            r is Ok ==> exists|e: int|
                area_pick(
                    old(build_data).map.tiles@,
                    old(build_data).width as int,
                    old(build_data).height as int,
                    x_end_third(self.x),
                    y_end_third(self.y),
                    e,
                ) && final(build_data).map.tiles@ == old(build_data).map.tiles@.update(
                    e,
                    TileType::DownStairs,
                ),
            r is Ok ==> final(build_data).same_but_tiles(old(build_data)),
    {
        let col: u8 = match self.x {
            XEnd::Left => 0,
            XEnd::Center => 1,
            XEnd::Right => 2,
        };
        let row: u8 = match self.y {
            YEnd::Top => 0,
            YEnd::Center => 1,
            YEnd::Bottom => 2,
        };
        match find_area_tile(&build_data.map, col, row) {
            None => Err(ChainError::NoWalkableTile),
            Some(i) => {
                build_data.map.tiles.set(i, TileType::DownStairs);
                Ok(())
            },
        }
    }
}

/// `e` is the first cell, in scan order, of greatest distance, and that
/// distance is positive.
pub open spec fn farthest(dist: Seq<i32>, e: int) -> bool {
    &&& 0 <= e < dist.len()
    &&& dist[e] > 0
    &&& forall|j: int| 0 <= j < dist.len() ==> #[trigger] dist[j] <= dist[e]
    &&& forall|j: int| 0 <= j < e ==> #[trigger] dist[j] < dist[e]
}

/// Some walkable cell other than `s` can be walked to from `s`.
pub open spec fn has_other_reachable(t: Seq<TileType>, w: int, h: int, s: int) -> bool {
    exists|i: int| 0 <= i < t.len() && i != s && #[trigger] reachable(t, w, h, s, i)
}

/// Places the exit on the reachable cell farthest from the start.
pub struct DistantExit {}

impl DistantExit {
    pub fn new() -> (r: DistantExit) {
        DistantExit {  }
    }

    /// Turns the farthest reachable cell into down stairs. The start and the
    /// exit are then both walkable, and distinct.
    pub fn build(&mut self, build_data: &mut BuilderMap) -> (r: Result<(), ChainError>)
        requires
            old(build_data).wf(),
        ensures
            final(build_data).wf(),
            r is Err <==> start_error(*old(build_data)) is Some || !has_other_reachable(
                old(build_data).map.tiles@,
                old(build_data).width as int,
                old(build_data).height as int,
                old(build_data).start_idx(),
            ),
            r is Err ==> *final(build_data) == *old(build_data),
            r is Err && start_error(*old(build_data)) is Some ==> r == Err::<(), ChainError>(
                start_error(*old(build_data)).unwrap(),
            ),
            r is Err && start_error(*old(build_data)) is None ==> r == Err::<(), ChainError>(
                ChainError::NoExitTile,
            ),
            r is Ok ==> ({
                let t = old(build_data).map.tiles@;
                let w = old(build_data).width as int;
                let h = old(build_data).height as int;
                let s = old(build_data).start_idx();
                exists|dist: Seq<i32>, e: int|
                    is_distance_map(t, w, h, s, dist) && farthest(dist, e)
                        && final(build_data).map.tiles@ == t.update(e, TileType::DownStairs)
            }),
            r is Ok ==> ({
                let t = old(build_data).map.tiles@;
                let s = old(build_data).start_idx();
                exists|e: int|
                    0 <= e < t.len() && e != s && final(build_data).map.tiles@[e] == TileType::DownStairs
                        && walkable(final(build_data).map.tiles@[e]) && walkable(
                        final(build_data).map.tiles@[s],
                    ) && reachable(
                        t,
                        old(build_data).width as int,
                        old(build_data).height as int,
                        s,
                        e,
                    )
            }),
            r is Ok ==> final(build_data).same_but_tiles(old(build_data)),
    {
        let s = match start_index(build_data) {
            Err(e) => {
                return Err(e);
            },
            Ok(s) => s,
        };
        let ghost t = build_data.map.tiles@;
        let ghost w = build_data.width as int;
        let ghost h = build_data.height as int;
        let dist = distance_map(&build_data.map, s);
        let n = dist.len();
        let mut best: usize = s;
        let mut best_d: i32 = 0;
        let mut i: usize = 0;
        while i < n
            invariant
                n == dist@.len(),
                n == t.len(),
                s < n,
                best < n,
                i <= n,
                is_distance_map(t, w, h, s as int, dist@),
                best_d == dist@[best as int],
                best_d >= 0,
                forall|j: int| 0 <= j < i ==> #[trigger] dist@[j] <= best_d,
                best_d > 0 ==> best < i && forall|j: int| 0 <= j < best ==> #[trigger] dist@[j] < best_d,
                best_d == 0 ==> best == s,
            decreases n - i,
        {
            if dist[i] > best_d {
                best = i;
                best_d = dist[i];
            }
            i = i + 1;
        }
        if best_d == 0 {
            proof {
                assert(!has_other_reachable(t, w, h, s as int)) by {
                    if has_other_reachable(t, w, h, s as int) {
                        let j = choose|j: int| 0 <= j < t.len() && j != s && #[trigger] reachable(t, w, h, s as int, j);
                        assert(dist@[j] >= 0);
                        assert(dist@[j] != 0);
                    }
                }
            }
            return Err(ChainError::NoExitTile);
        }
        build_data.map.tiles.set(best, TileType::DownStairs);
        proof {
            assert(farthest(dist@, best as int));
            assert(dist@[best as int] >= 0);
            assert(reachable(t, w, h, s as int, best as int));
            assert(has_other_reachable(t, w, h, s as int));
            assert(build_data.map.tiles@[best as int] == TileType::DownStairs);
        }
        Ok(())
    }
}

} // verus!
