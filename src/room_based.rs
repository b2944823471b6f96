//! Rooms: carving them, joining them with corridors, starting in them.
use vstd::prelude::*;
use crate::tile_type::TileType;
use crate::map::GameMap;
use crate::rect::{Rect, rect_in, overlaps, center_x, center_y};
use crate::builder_map::{BuilderMap, ChainError, Position, pos_idx};
use crate::grid::{lemma_coords, lemma_index_of};

verus! {

/// `v` lies past `a` on the way to `b`, `b` included.
pub open spec fn past_toward(a: int, b: int, v: int) -> bool {
    (a < b && a < v <= b) || (b < a && b <= v < a)
}

/// Cell `(x, y)` is on the corridor dug from `(x1, y1)` to `(x2, y2)`: first
/// along row `y1` to column `x2`, then along column `x2` to row `y2`; the
/// first cell is left out.
pub open spec fn on_corridor(x1: int, y1: int, x2: int, y2: int, x: int, y: int) -> bool {
    (y == y1 && past_toward(x1, x2, x)) || (x == x2 && past_toward(y1, y2, y))
}

/// The grid after digging that corridor: its cells become floor.
pub open spec fn dug(t: Seq<TileType>, w: int, x1: int, y1: int, x2: int, y2: int) -> Seq<TileType> {
    Seq::new(
        t.len(),
        |i: int|
            if on_corridor(x1, y1, x2, y2, i % w, i / w) {
                TileType::Floor
            } else {
                t[i]
            },
    )
}

/// `corridor` lists, each once, the cells of that corridor that were not
/// floor before.
pub open spec fn corridor_cells(
    t: Seq<TileType>,
    w: int,
    x1: int,
    y1: int,
    x2: int,
    y2: int,
    corridor: Seq<usize>,
) -> bool {
    &&& forall|k: int|
        0 <= k < corridor.len() ==> #[trigger] corridor[k] < t.len() && on_corridor(
            x1,
            y1,
            x2,
            y2,
            corridor[k] as int % w,
            corridor[k] as int / w,
        ) && t[corridor[k] as int] != TileType::Floor
    &&& forall|i: int|
        0 <= i < t.len() && on_corridor(x1, y1, x2, y2, i % w, i / w) && #[trigger] t[i]
            != TileType::Floor ==> exists|k: int| 0 <= k < corridor.len() && #[trigger] corridor[k] == i
}

/// Only the tiles of the grid may differ from `o`.
pub open spec fn same_but_tiles_of(m: GameMap, o: GameMap) -> bool {
    &&& m.width == o.width
    &&& m.height == o.height
    &&& m.depth == o.depth
    &&& m.name == o.name
    &&& m.outdoors == o.outdoors
    &&& m.revealed_tiles == o.revealed_tiles
    &&& m.visible_tiles == o.visible_tiles
    &&& m.blocked == o.blocked
    &&& m.tiles@.len() == o.tiles@.len()
}

/// Digs a corridor from `(x1, y1)` to `(x2, y2)`, along the row first, and
/// returns the cells it turned into floor.
pub fn draw_corridor(map: &mut GameMap, x1: i32, y1: i32, x2: i32, y2: i32) -> (corridor: Vec<usize>)
    requires
        old(map).wf(),
        0 <= x1 < old(map).width,
        0 <= x2 < old(map).width,
        0 <= y1 < old(map).height,
        0 <= y2 < old(map).height,
    ensures
        final(map).wf(),
        same_but_tiles_of(*final(map), *old(map)),
        final(map).tiles@ == dug(old(map).tiles@, old(map).width as int, x1 as int, y1 as int, x2 as int, y2 as int),
        corridor_cells(old(map).tiles@, old(map).width as int, x1 as int, y1 as int, x2 as int, y2 as int, corridor@),
{
    let ghost m0 = *map;
    let ghost t = map.tiles@;
    let ghost w = map.width as int;
    let ghost h = map.height as int;
    let n = map.tiles.len();
    let mut corridor: Vec<usize> = Vec::new();
    let mut x = x1;
    let mut y = y1;
    while x != x2 || y != y2
        invariant
            map.wf(),
            same_but_tiles_of(*map, m0),
            t == m0.tiles@,
            w == map.width,
            h == map.height,
            n == t.len(),
            0 <= x1 < w,
            0 <= x2 < w,
            0 <= y1 < h,
            0 <= y2 < h,
            (x1 <= x <= x2 || x2 <= x <= x1),
            (y1 <= y <= y2 || y2 <= y <= y1),
            y != y1 ==> x == x2,
            forall|i: int|
                0 <= i < n ==> #[trigger] map.tiles@[i] == (if on_corridor(
                    x1 as int,
                    y1 as int,
                    x as int,
                    y as int,
                    i % w,
                    i / w,
                ) {
                    TileType::Floor
                } else {
                    t[i]
                }),
            corridor_cells(t, w, x1 as int, y1 as int, x as int, y as int, corridor@),
        decreases (if x <= x2 { x2 - x } else { x - x2 }) + (if y <= y2 { y2 - y } else { y - y2 }),
    {
        let ghost xa = x as int;
        let ghost ya = y as int;
        let ghost c0 = corridor@;
        if x < x2 {
            x = x + 1;
        } else if x > x2 {
            x = x - 1;
        } else if y < y2 {
            y = y + 1;
        } else {
            y = y - 1;
        }
        let idx = map.xy_idx(x, y);
        proof {
            lemma_index_of(w, h, x as int, y as int);
            assert forall|i: int|
                0 <= i < n implies #[trigger] on_corridor(x1 as int, y1 as int, x as int, y as int, i % w, i / w)
                == (on_corridor(x1 as int, y1 as int, xa, ya, i % w, i / w) || i == idx) by {
                lemma_coords(w, h, i);
                if i % w == x && i / w == y {
                    assert(i == idx);
                }
            }
            assert(!on_corridor(x1 as int, y1 as int, xa, ya, x as int, y as int));
        }
        if map.tiles[idx] != TileType::Floor {
            corridor.push(idx);
            map.tiles.set(idx, TileType::Floor);
            proof {
                assert forall|i: int|
                    0 <= i < t.len() && on_corridor(x1 as int, y1 as int, x as int, y as int, i % w, i / w)
                        && #[trigger] t[i] != TileType::Floor implies exists|k: int|
                    0 <= k < corridor@.len() && #[trigger] corridor@[k] == i by {
                    if i == idx {
                        assert(corridor@[corridor@.len() - 1] == i);
                    } else {
                        let k = choose|k: int| 0 <= k < c0.len() && #[trigger] c0[k] == i;
                        assert(corridor@[k] == i);
                    }
                }
                assert forall|k: int| 0 <= k < corridor@.len() implies #[trigger] corridor@[k] < t.len()
                    && on_corridor(x1 as int, y1 as int, x as int, y as int, corridor@[k] as int % w, corridor@[k] as int / w)
                    && t[corridor@[k] as int] != TileType::Floor by {
                    if k < c0.len() {
                        assert(corridor@[k] == c0[k]);
                    }
                }
            }
        } else {
            proof {
                assert forall|i: int|
                    0 <= i < t.len() && on_corridor(x1 as int, y1 as int, x as int, y as int, i % w, i / w)
                        && #[trigger] t[i] != TileType::Floor implies exists|k: int|
                    0 <= k < corridor@.len() && #[trigger] corridor@[k] == i by {
                    if i == idx {
                        assert(t[i] == TileType::Floor);
                    }
                }
            }
        }
    }
    proof {
        assert(map.tiles@ =~= dug(t, w, x1 as int, y1 as int, x2 as int, y2 as int));
    }
    corridor
}


/// Cell `(x, y)` is inside room `r`; the room's top and left border rows are
/// left as wall.
pub open spec fn in_room(r: Rect, x: int, y: int) -> bool {
    r.x1 < x <= r.x2 && r.y1 < y <= r.y2
}

/// Cell `(x, y)` is inside one of the rooms.
pub open spec fn in_some_room(rooms: Seq<Rect>, x: int, y: int) -> bool {
    exists|k: int| 0 <= k < rooms.len() && in_room(#[trigger] rooms[k], x, y)
}

/// The grid with every room's inside turned into floor.
pub open spec fn rooms_carved(t: Seq<TileType>, w: int, rooms: Seq<Rect>) -> Seq<TileType> {
    Seq::new(
        t.len(),
        |i: int|
            if in_some_room(rooms, i % w, i / w) {
                TileType::Floor
            } else {
                t[i]
            },
    )
}

/// No two rooms share a cell, borders included.
pub open spec fn rooms_apart(rooms: Seq<Rect>) -> bool {
    forall|a: int, b: int| 0 <= a < b < rooms.len() ==> !overlaps(#[trigger] rooms[a], #[trigger] rooms[b])
}

/// A copy of a list of rooms.
pub fn copy_rooms(v: &Vec<Rect>) -> (r: Vec<Rect>)
    ensures
        r@ == v@,
{
    let mut r: Vec<Rect> = Vec::new();
    let mut i: usize = 0;
    while i < v.len()
        invariant
            i <= v@.len(),
            r@ == v@.subrange(0, i as int),
        decreases v@.len() - i,
    {
        r.push(v[i]);
        i = i + 1;
    }
    proof {
        assert(r@ =~= v@);
    }
    r
}

/// Adds `r` to the rooms when it shares no cell with any of them.
pub fn add_room_if_apart(rooms: &mut Vec<Rect>, r: Rect) -> (added: bool)
    ensures
        added == forall|k: int| 0 <= k < old(rooms)@.len() ==> !overlaps(r, #[trigger] old(rooms)@[k]),
        added ==> final(rooms)@ == old(rooms)@.push(r),
        !added ==> final(rooms)@ == old(rooms)@,
{
    let mut k: usize = 0;
    while k < rooms.len()
        invariant
            k <= rooms@.len(),
            forall|j: int| 0 <= j < k ==> !overlaps(r, #[trigger] rooms@[j]),
        decreases rooms@.len() - k,
    {
        if r.intersect(&rooms[k]) {
            return false;
        }
        k = k + 1;
    }
    rooms.push(r);
    true
}

/// The room is six to nine cells a side.
pub open spec fn room_sized(r: Rect) -> bool {
    6 <= r.x2 - r.x1 <= 9 && 6 <= r.y2 - r.y1 <= 9
}

/// Attempts at placing a room.
pub const MAX_ROOMS: usize = 30;

/// Scatters rectangular rooms of six to nine cells a side at random, keeping
/// each one that shares no cell with those kept before it.
#[derive(Copy, Clone)]
pub struct SimpleMapBuilder {}

impl SimpleMapBuilder {
    pub fn new() -> (r: SimpleMapBuilder) {
        SimpleMapBuilder {  }
    }

    /// Sets the rooms; the grid is left as it is.
    pub fn build(&mut self, rng: &mut rltk::RandomNumberGenerator, build_data: &mut BuilderMap)
        requires
            old(build_data).wf(),
        ensures
            final(build_data).wf(),
            final(build_data).map == old(build_data).map,
            final(build_data).spawn_list == old(build_data).spawn_list,
            final(build_data).starting_position == old(build_data).starting_position,
            final(build_data).corridors == old(build_data).corridors,
            final(build_data).history == old(build_data).history,
            final(build_data).width == old(build_data).width,
            final(build_data).height == old(build_data).height,
            final(build_data).record_snapshots == old(build_data).record_snapshots,
            final(build_data).rooms matches Some(v) && rooms_apart(v@) && forall|k: int|
                0 <= k < v@.len() ==> room_sized(#[trigger] v@[k]),
            exists|draws: Seq<(i32, i32, i32, i32)>|
                #[trigger] draws_in_range(draws, old(build_data).width as int, old(build_data).height as int)
                    && draws.len() == MAX_ROOMS && final(build_data).rooms.unwrap()@ == kept_rooms(
                    draws,
                    old(build_data).width as int,
                    old(build_data).height as int,
                    draws.len(),
                ),
    {
        let width = build_data.width;
        let height = build_data.height;
        let mut draws: Vec<(i32, i32, i32, i32)> = Vec::new();
        while draws.len() < MAX_ROOMS
            invariant
                draws@.len() <= MAX_ROOMS,
                width == build_data.width,
                height == build_data.height,
                0 < width,
                0 < height,
                forall|k: int| 0 <= k < draws@.len() ==> #[trigger] draw_in_range(draws@[k], width as int, height as int),
            decreases MAX_ROOMS - draws@.len(),
        {
            let w = rng.roll_dice(1, 4) + 5;
            let h = rng.roll_dice(1, 4) + 5;
            if width - w - 1 >= 1 && height - h - 1 >= 1 {
                let x = rng.roll_dice(1, width - w - 1) - 1;
                let y = rng.roll_dice(1, height - h - 1) - 1;
                draws.push((w, h, x, y));
            } else {
                draws.push((w, h, -1, -1));
            }
        }
        let rooms = rooms_from_draws(&draws, width, height);
        build_data.rooms = Some(rooms);
        proof {
            assert(draws_in_range(draws@, width as int, height as int));
        }
    }
}

/// One attempt at placing a room, `(width, height, x, y)`, drawn as the
/// scatterer draws it: sides of six to nine cells, and a corner that keeps
/// the room off the last column and row, or `(-1, -1)` when the room
/// cannot fit.
pub open spec fn draw_in_range(d: (i32, i32, i32, i32), w: int, h: int) -> bool {
    &&& 6 <= d.0 <= 9
    &&& 6 <= d.1 <= 9
    &&& if w - d.0 - 1 >= 1 && h - d.1 - 1 >= 1 {
        0 <= d.2 <= w - d.0 - 2 && 0 <= d.3 <= h - d.1 - 2
    } else {
        d.2 == -1 && d.3 == -1
    }
}

pub open spec fn draws_in_range(draws: Seq<(i32, i32, i32, i32)>, w: int, h: int) -> bool {
    forall|k: int| 0 <= k < draws.len() ==> #[trigger] draw_in_range(draws[k], w, h)
}

/// The room an attempt describes.
pub open spec fn drawn_room(d: (i32, i32, i32, i32)) -> Rect {
    Rect { x1: d.2, y1: d.3, x2: (d.2 + d.0) as i32, y2: (d.3 + d.1) as i32 }
}

/// The attempt's room is six to nine cells a side and lies on the grid.
pub open spec fn draw_fits(d: (i32, i32, i32, i32), w: int, h: int) -> bool {
    6 <= d.0 <= 9 && 6 <= d.1 <= 9 && 0 <= d.2 && d.2 + d.0 < w && 0 <= d.3 && d.3 + d.1 < h
}

/// The rooms the first `k` attempts keep: each room that fits the grid and
/// shares no cell with a room kept before it.
pub open spec fn kept_rooms(draws: Seq<(i32, i32, i32, i32)>, w: int, h: int, k: nat) -> Seq<Rect>
    decreases k,
{
    if k == 0 || k > draws.len() {
        seq![]
    } else {
        let prev = kept_rooms(draws, w, h, (k - 1) as nat);
        let r = drawn_room(draws[k - 1]);
        if draw_fits(draws[k - 1], w, h) && forall|j: int| 0 <= j < prev.len() ==> !overlaps(r, #[trigger] prev[j]) {
            prev.push(r)
        } else {
            prev
        }
    }
}

/// The rooms that a list of attempts keeps.
pub fn rooms_from_draws(draws: &Vec<(i32, i32, i32, i32)>, width: i32, height: i32) -> (rooms: Vec<Rect>)
    requires
        0 < width,
        0 < height,
    ensures
        rooms@ == kept_rooms(draws@, width as int, height as int, draws@.len()),
        rooms_apart(rooms@),
        forall|k: int| 0 <= k < rooms@.len() ==> rect_in(width as int, height as int, #[trigger] rooms@[k])
            && room_sized(rooms@[k]),
{
    let mut rooms: Vec<Rect> = Vec::new();
    let mut i: usize = 0;
    while i < draws.len()
        invariant
            0 < width,
            0 < height,
            i <= draws@.len(),
            rooms@ == kept_rooms(draws@, width as int, height as int, i as nat),
            rooms_apart(rooms@),
            forall|k: int| 0 <= k < rooms@.len() ==> rect_in(width as int, height as int, #[trigger] rooms@[k])
                && room_sized(rooms@[k]),
        decreases draws@.len() - i,
    {
        let (w, h, x, y) = draws[i];
        if 6 <= w && w <= 9 && 6 <= h && h <= 9 && 0 <= x && x < width - w && 0 <= y && y < height - h {
            let r = Rect::new(x, y, w, h);
            let ghost before = rooms@;
            let added = add_room_if_apart(&mut rooms, r);
            proof {
                assert(r == drawn_room(draws@[i as int]));
                if added {
                    assert forall|p: int, q: int| 0 <= p < q < rooms@.len() implies !overlaps(
                        #[trigger] rooms@[p],
                        #[trigger] rooms@[q],
                    ) by {
                        if q == rooms@.len() - 1 {
                            assert(rooms@[q] == r);
                            assert(rooms@[p] == before[p]);
                            assert(!overlaps(r, before[p]));
                        } else {
                            assert(rooms@[p] == before[p] && rooms@[q] == before[q]);
                        }
                    }
                    assert forall|k: int| 0 <= k < rooms@.len() implies rect_in(width as int, height as int, #[trigger] rooms@[k])
                        && room_sized(rooms@[k]) by {
                        if k < before.len() {
                            assert(rooms@[k] == before[k]);
                        }
                    }
                }
            }
        }
        i = i + 1;
    }
    rooms
}

/// Carves the inside of every room into floor.
pub struct RoomDrawer {}

impl RoomDrawer {
    pub fn new() -> (r: RoomDrawer) {
        RoomDrawer {  }
    }

    pub fn build(&mut self, build_data: &mut BuilderMap)
        requires
            old(build_data).wf(),
            old(build_data).rooms is Some,
        ensures
            final(build_data).wf(),
            final(build_data).same_layout(old(build_data))
                && final(build_data).map.tiles@ == rooms_carved(
                old(build_data).map.tiles@,
                old(build_data).width as int,
                old(build_data).rooms.unwrap()@,
            ),
    {
        let rooms = match &build_data.rooms {
            None => {
                return;
            },
            Some(v) => copy_rooms(v),
        };
        let ghost b0 = *build_data;
        let ghost t = build_data.map.tiles@;
        let ghost w = build_data.width as int;
        let n = build_data.map.tiles.len();
        let wu = build_data.width as usize;
        let mut i: usize = 0;
        while i < n
            invariant
                build_data.wf(),
                build_data.same_layout(&b0),
                b0.map.tiles@ == t,
                n == t.len(),
                w == wu,
                w == build_data.width,
                wu > 0,
                rooms@ == b0.rooms.unwrap()@,
                i <= n,
                forall|k: int| 0 <= k < i ==> #[trigger] build_data.map.tiles@[k] == rooms_carved(t, w, rooms@)[k],
                forall|k: int| i <= k < n ==> #[trigger] build_data.map.tiles@[k] == t[k],
            decreases n - i,
        {
            let x = (i % wu) as i64;
            let y = (i / wu) as i64;
            let mut inside = false;
            let mut k: usize = 0;
            while k < rooms.len()
                invariant
                    k <= rooms@.len(),
                    x == i as int % w,
                    y == i as int / w,
                    inside == exists|j: int| 0 <= j < k && in_room(#[trigger] rooms@[j], x as int, y as int),
                decreases rooms@.len() - k,
            {
                let r = rooms[k];
                if (r.x1 as i64) < x && x <= (r.x2 as i64) && (r.y1 as i64) < y && y <= (r.y2 as i64) {
                    inside = true;
                }
                proof {
                    if in_room(rooms@[k as int], x as int, y as int) {
                        assert(exists|j: int| 0 <= j < k + 1 && in_room(#[trigger] rooms@[j], x as int, y as int));
                    }
                }
                k = k + 1;
            }
            if inside {
                build_data.map.tiles.set(i, TileType::Floor);
            }
            i = i + 1;
        }
        proof {
            assert(build_data.map.tiles@ =~= rooms_carved(t, w, rooms@));
        }
    }
}

/// Places the start at the centre of the first room.
pub struct RoomBasedStartingPosition {}

impl RoomBasedStartingPosition {
    pub fn new() -> (r: RoomBasedStartingPosition) {
        RoomBasedStartingPosition {  }
    }

    pub fn build(&mut self, build_data: &mut BuilderMap)
        requires
            old(build_data).wf(),
            old(build_data).rooms matches Some(v) && v@.len() > 0,
        ensures
            final(build_data).wf(),
            ({
                let first = old(build_data).rooms.unwrap()@[0];
                final(build_data).starting_position == Some(
                    Position { x: center_x(first) as i32, y: center_y(first) as i32 },
                )
            }),
            final(build_data).map == old(build_data).map
                && final(build_data).spawn_list == old(build_data).spawn_list
                && final(build_data).rooms == old(build_data).rooms
                && final(build_data).corridors == old(build_data).corridors
                && final(build_data).history == old(build_data).history
                && final(build_data).width == old(build_data).width
                && final(build_data).height == old(build_data).height
                && final(build_data).record_snapshots == old(build_data).record_snapshots,
    {
        let start = match &build_data.rooms {
            Some(rooms) => {
                if rooms.len() == 0 {
                    return;
                }
                assert(rect_in(build_data.width as int, build_data.height as int, rooms@[0]));
                rooms[0].center()
            },
            None => {
                return;
            },
        };
        build_data.starting_position = Some(Position { x: start.0, y: start.1 });
    }
}

/// Squared distance between the centres of two rooms.
pub open spec fn center_dist2(a: Rect, b: Rect) -> int {
    (center_x(a) - center_x(b)) * (center_x(a) - center_x(b)) + (center_y(a) - center_y(b)) * (
    center_y(a) - center_y(b))
}

/// Room `j` is the room after `i` whose centre is nearest to that of `i`,
/// the first such in list order.
pub open spec fn is_nearest(rooms: Seq<Rect>, i: int, j: int) -> bool {
    &&& 0 <= i < j < rooms.len()
    &&& forall|k: int| i < k < rooms.len() ==> center_dist2(rooms[i], rooms[j]) <= center_dist2(rooms[i], #[trigger] rooms[k])
    &&& forall|k: int| i < k < j ==> center_dist2(rooms[i], rooms[j]) < center_dist2(rooms[i], #[trigger] rooms[k])
}

/// The grid after digging, for each of the first `k` rooms, a corridor from
/// its centre to the centre of room `targets[i]`.
pub open spec fn dug_corridors(
    t: Seq<TileType>,
    w: int,
    rooms: Seq<Rect>,
    targets: Seq<int>,
    k: nat,
) -> Seq<TileType>
    decreases k,
{
    if k == 0 {
        t
    } else {
        let i = k - 1;
        let a = rooms[i];
        let b = rooms[targets[i]];
        dug(dug_corridors(t, w, rooms, targets, (k - 1) as nat), w, center_x(a), center_y(a), center_x(b), center_y(b))
    }
}

/// `corridor` lists the cells that the `i`-th corridor (room `i` to room
/// `targets[i]`) turned into floor, on the grid the earlier corridors left.
pub open spec fn joins(t: Seq<TileType>, w: int, rooms: Seq<Rect>, targets: Seq<int>, corridor: Seq<usize>, i: int) -> bool {
    corridor_cells(
        dug_corridors(t, w, rooms, targets, i as nat),
        w,
        center_x(rooms[i]),
        center_y(rooms[i]),
        center_x(rooms[targets[i]]),
        center_y(rooms[targets[i]]),
        corridor,
    )
}

/// Corridors only add floor: every cell of every corridor dug so far is floor.
pub proof fn lemma_corridors_floor(t: Seq<TileType>, w: int, rooms: Seq<Rect>, targets: Seq<int>, k: nat)
    ensures
        dug_corridors(t, w, rooms, targets, k).len() == t.len(),
        forall|i: int, c: int|
            0 <= i < k && 0 <= c < t.len() && #[trigger] on_corridor(
                center_x(rooms[i]),
                center_y(rooms[i]),
                center_x(rooms[targets[i]]),
                center_y(rooms[targets[i]]),
                c % w,
                c / w,
            ) ==> dug_corridors(t, w, rooms, targets, k)[c] == TileType::Floor,
    decreases k,
{
    if k > 0 {
        lemma_corridors_floor(t, w, rooms, targets, (k - 1) as nat);
    }
}

proof fn lemma_dug_same_targets(
    t: Seq<TileType>,
    w: int,
    rooms: Seq<Rect>,
    t1: Seq<int>,
    t2: Seq<int>,
    k: nat,
)
    requires
        k <= t1.len(),
        k <= t2.len(),
        forall|j: int| 0 <= j < k ==> t1[j] == t2[j],
    ensures
        dug_corridors(t, w, rooms, t1, k) == dug_corridors(t, w, rooms, t2, k),
    decreases k,
{
    if k > 0 {
        lemma_dug_same_targets(t, w, rooms, t1, t2, (k - 1) as nat);
    }
}

fn center_dist2_exec(a: Rect, b: Rect) -> (r: i64)
    requires
        0 <= a.x1,
        0 <= a.x2,
        0 <= a.y1,
        0 <= a.y2,
        0 <= b.x1,
        0 <= b.x2,
        0 <= b.y1,
        0 <= b.y2,
    ensures
        r == center_dist2(a, b),
{
    let ca = a.center();
    let cb = b.center();
    let dx = ca.0 as i64 - cb.0 as i64;
    let dy = ca.1 as i64 - cb.1 as i64;
    proof {
        assert(0 <= dx * dx <= 0x3fff_ffff_0000_0001) by (nonlinear_arith)
            requires
                -0x7fff_ffff <= dx <= 0x7fff_ffff,
        ;
        assert(0 <= dy * dy <= 0x3fff_ffff_0000_0001) by (nonlinear_arith)
            requires
                -0x7fff_ffff <= dy <= 0x7fff_ffff,
        ;
    }
    dx * dx + dy * dy
}

/// Joins each room to the nearest room after it in the list; rooms already
/// joined from are exactly those before it. Every room is then joined,
/// through rooms after it, to the last room.
pub struct NearestCorridors {}

impl NearestCorridors {
    pub fn new() -> (r: NearestCorridors) {
        NearestCorridors {  }
    }

    pub fn corridors(&mut self, build_data: &mut BuilderMap)
        requires
            old(build_data).wf(),
            old(build_data).rooms is Some,
        ensures
            final(build_data).wf(),
            ({
                let b0 = *old(build_data);
                let b1 = *final(build_data);
                let rooms = b0.rooms.unwrap()@;
                let w = b0.width as int;
                &&& b1.map.wf()
                &&& b1.spawn_list == b0.spawn_list
                &&& b1.starting_position == b0.starting_position
                &&& b1.rooms == b0.rooms
                &&& b1.width == b0.width
                &&& b1.height == b0.height
                &&& same_but_tiles_of(b1.map, b0.map)
                &&& b1.corridors is Some
                &&& b1.corridors.unwrap()@.len() == (if rooms.len() == 0 { 0 } else { rooms.len() - 1 })
                &&& exists|targets: Seq<int>|
                    #![trigger dug_corridors(b0.map.tiles@, w, rooms, targets, targets.len())]
                    targets.len() == (if rooms.len() == 0 { 0 } else { rooms.len() - 1 })
                        && (forall|i: int| 0 <= i < targets.len() ==> is_nearest(rooms, i, #[trigger] targets[i]))
                        && b1.map.tiles@ == dug_corridors(b0.map.tiles@, w, rooms, targets, targets.len())
                        && (forall|i: int, c: int|
                        0 <= i < targets.len() && 0 <= c < b1.map.tiles@.len() && #[trigger] on_corridor(
                            center_x(rooms[i]),
                            center_y(rooms[i]),
                            center_x(rooms[targets[i]]),
                            center_y(rooms[targets[i]]),
                            c % w,
                            c / w,
                        ) ==> b1.map.tiles@[c] == TileType::Floor)
                        && (forall|i: int| 0 <= i < targets.len() ==> #[trigger] joins(
                        b0.map.tiles@,
                        w,
                        rooms,
                        targets,
                        b1.corridors.unwrap()@[i]@,
                        i,
                    ))
            }),
    {
        let rooms = match &build_data.rooms {
            None => {
                return;
            },
            Some(v) => copy_rooms(v),
        };
        let ghost b0 = *build_data;
        let ghost t = build_data.map.tiles@;
        let ghost w = build_data.width as int;
        let ghost mut targets: Seq<int> = seq![];
        let mut corridors: Vec<Vec<usize>> = Vec::new();
        let len = rooms.len();
        let mut i: usize = 0;
        while i + 1 < len
            invariant
                build_data.wf(),
                build_data.same_layout(&b0),
                rooms@ == b0.rooms.unwrap()@,
                b0.rooms is Some,
                len == rooms@.len(),
                w == build_data.width,
                i <= len,
                len > 0 ==> i < len,
                targets.len() == i,
                corridors@.len() == i,
                forall|k: int| 0 <= k < i ==> is_nearest(rooms@, k, #[trigger] targets[k]),
                build_data.map.tiles@ == dug_corridors(t, w, rooms@, targets, i as nat),
                forall|k: int| 0 <= k < len ==> rect_in(w, build_data.height as int, #[trigger] rooms@[k]),
                forall|k: int| 0 <= k < i ==> #[trigger] joins(t, w, rooms@, targets, corridors@[k]@, k),
            decreases len - i,
        {
            assert(rect_in(w, build_data.height as int, rooms@[i as int]));
            assert(rect_in(w, build_data.height as int, rooms@[i as int + 1]));
            let mut best: usize = i + 1;
            let mut best_d = center_dist2_exec(rooms[i], rooms[i + 1]);
            let mut k: usize = i + 2;
            while k < len
                invariant
                    i + 1 <= best < k <= len,
                    len == rooms@.len(),
                    best_d == center_dist2(rooms@[i as int], rooms@[best as int]),
                    forall|j: int| 0 <= j < len ==> rect_in(w, build_data.height as int, #[trigger] rooms@[j]),
                    forall|j: int| i < j < k ==> best_d <= center_dist2(rooms@[i as int], #[trigger] rooms@[j]),
                    forall|j: int| i < j < best ==> best_d < center_dist2(rooms@[i as int], #[trigger] rooms@[j]),
                decreases len - k,
            {
                assert(rect_in(w, build_data.height as int, rooms@[k as int]));
                let d = center_dist2_exec(rooms[i], rooms[k]);
                if d < best_d {
                    best = k;
                    best_d = d;
                }
                k = k + 1;
            }
            let a = rooms[i].center();
            let b = rooms[best].center();
            let corridor = draw_corridor(&mut build_data.map, a.0, a.1, b.0, b.1);
            let ghost c0 = corridors@;
            corridors.push(corridor);
            proof {
                let old_targets = targets;
                targets = targets.push(best as int);
                assert(targets[i as int] == best);
                assert(is_nearest(rooms@, i as int, best as int));
                lemma_dug_same_targets(t, w, rooms@, old_targets, targets, i as nat);
                assert(forall|k: int| 0 <= k < i ==> targets[k] == old_targets[k]);
                assert forall|k: int| 0 <= k < i + 1 implies #[trigger] joins(t, w, rooms@, targets, corridors@[k]@, k) by {
                    if k < i {
                        assert(joins(t, w, rooms@, old_targets, c0[k]@, k));
                        lemma_dug_same_targets(t, w, rooms@, old_targets, targets, k as nat);
                        assert(corridors@[k] == c0[k]);
                    }
                }
            }
            build_data.take_snapshot();
            i = i + 1;
        }
        build_data.corridors = Some(corridors);
        proof {
            lemma_corridors_floor(t, w, rooms@, targets, targets.len());
        }
    }
}

/// Places the exit (down stairs) at the centre of the last room.
pub struct RoomBasedStairs {}

impl RoomBasedStairs {
    pub fn new() -> (r: RoomBasedStairs) {
        RoomBasedStairs {  }
    }

    pub fn build(&mut self, build_data: &mut BuilderMap)
        requires
            old(build_data).wf(),
            old(build_data).rooms matches Some(v) && v@.len() > 0,
        ensures
            final(build_data).wf(),
            ({
                let rooms = old(build_data).rooms.unwrap()@;
                let last = rooms[rooms.len() - 1];
                final(build_data).map.tiles@ == old(build_data).map.tiles@.update(
                    pos_idx(old(build_data).width as int, Position { x: center_x(last) as i32, y: center_y(last) as i32 }),
                    TileType::DownStairs,
                )
            }),
            final(build_data).same_but_tiles(old(build_data)),
    {
        let c = match &build_data.rooms {
            Some(rooms) => {
                if rooms.len() == 0 {
                    return;
                }
                let last = rooms.len() - 1;
                assert(rect_in(build_data.width as int, build_data.height as int, rooms@[last as int]));
                rooms[last].center()
            },
            None => {
                return;
            },
        };
        let idx = build_data.map.xy_idx(c.0, c.1);
        build_data.map.tiles.set(idx, TileType::DownStairs);
    }
}

} // verus!
