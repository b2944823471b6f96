//! Limestone caverns: cave decoration, and the transition level that joins
//! a cave half to a room-based half.
use vstd::prelude::*;
use crate::tile_type::{TileType, walkable};
use crate::builder_map::BuilderMap;
use crate::spawner::{RandomTable, RoomBasedSpawner, spawns_ok};
use crate::room_based::{
    SimpleMapBuilder, RoomDrawer, NearestCorridors, rooms_apart, room_sized, is_nearest, rooms_carved,
    dug_corridors, on_corridor,
};
use crate::rect::{center_x, center_y};
use crate::connectivity::joined_rooms;
use crate::grid::lemma_coords;

verus! {

/// Walls among the cells beside cell `i`: left and above wherever they
/// exist, right and below only away from the last two columns and rows.
pub open spec fn side_walls(t: Seq<TileType>, w: int, h: int, i: int) -> int {
    let x = i % w;
    let y = i / w;
    (if x > 0 && t[i - 1] == TileType::Wall { 1int } else { 0 }) + (if x < w - 2 && t[i + 1]
        == TileType::Wall {
        1int
    } else {
        0
    }) + (if y > 0 && t[i - w] == TileType::Wall { 1int } else { 0 }) + (if y < h - 2 && t[i + w]
        == TileType::Wall {
        1int
    } else {
        0
    })
}

/// What decoration may make of a tile with `walls` walls beside it: floor
/// may turn to gravel or a shallow pool; a wall with more than two walls
/// beside it turns to deep water, one with exactly one may become a
/// stalactite or stalagmite; everything else stays.
pub open spec fn decorated(old: TileType, new: TileType, walls: int) -> bool {
    if old == TileType::Floor {
        new == TileType::Floor || new == TileType::Gravel || new == TileType::ShallowWater
    } else if old == TileType::Wall {
        if walls > 2 {
            new == TileType::DeepWater
        } else if walls == 1 {
            new == TileType::Wall || new == TileType::Stalactite || new == TileType::Stalagmite
        } else {
            new == TileType::Wall
        }
    } else {
        new == old
    }
}

/// Dresses a cave: gravel, pools, deep water and rock formations.
pub struct CaveDecorator {}

/// The rolls for one tile: a six-sided die for gravel, a ten-sided die for
/// a pool, a four-sided die for a rock formation.
pub type DecorationRolls = (i32, i32, i32);

/// The tile decoration makes of `old`, with `walls` walls beside it, from
/// its rolls: floor turns to gravel on a gravel roll of one, else to a
/// shallow pool on a pool roll of one; a wall with more than two walls
/// beside it turns to deep water, one with exactly one becomes a
/// stalactite on a formation roll of one and a stalagmite on two.
pub open spec fn decorate_tile(old: TileType, walls: int, r: DecorationRolls) -> TileType {
    if old == TileType::Floor {
        if r.0 == 1 {
            TileType::Gravel
        } else if r.1 == 1 {
            TileType::ShallowWater
        } else {
            TileType::Floor
        }
    } else if old == TileType::Wall {
        if walls > 2 {
            TileType::DeepWater
        } else if walls == 1 {
            if r.2 == 1 {
                TileType::Stalactite
            } else if r.2 == 2 {
                TileType::Stalagmite
            } else {
                TileType::Wall
            }
        } else {
            TileType::Wall
        }
    } else {
        old
    }
}

/// The decorated grid.
pub open spec fn decorated_from(t: Seq<TileType>, w: int, h: int, rolls: Seq<DecorationRolls>) -> Seq<TileType> {
    Seq::new(t.len(), |i: int| decorate_tile(t[i], side_walls(t, w, h, i), rolls[i]))
}

/// The rolls lie on their dice where the rule reads them.
pub open spec fn rolls_in_range(t: Seq<TileType>, w: int, h: int, rolls: Seq<DecorationRolls>) -> bool {
    &&& rolls.len() == t.len()
    &&& forall|i: int|
        0 <= i < t.len() ==> {
            &&& (t[i] == TileType::Floor ==> 1 <= (#[trigger] rolls[i]).0 <= 6 && (rolls[i].0 != 1 ==> 1
                <= rolls[i].1 <= 10))
            &&& (t[i] == TileType::Wall && side_walls(t, w, h, i) == 1 ==> 1 <= rolls[i].2 <= 4)
        }
}

proof fn lemma_decorate_tile(old: TileType, walls: int, r: DecorationRolls)
    ensures
        decorated(old, decorate_tile(old, walls, r), walls),
        walkable(decorate_tile(old, walls, r)) == walkable(old),
{
}

/// Walls beside cell `i`.
pub fn side_walls_at(tiles: &Vec<TileType>, w: usize, h: usize, i: usize) -> (n: u32)
    requires
        0 < w,
        w * h == tiles@.len(),
        tiles@.len() <= 0x7fff_fffe,
        i < tiles@.len(),
    ensures
        n == side_walls(tiles@, w as int, h as int, i as int),
{
    proof {
        lemma_coords(w as int, h as int, i as int);
    }
    let x = i % w;
    let y = i / w;
    proof {
        assert(y * w + x == i);
        assert((y + 1) * w == y * w + w) by (nonlinear_arith);
        assert((y + 1) * w <= w * h) by (nonlinear_arith)
            requires
                y < h,
                0 < w,
        ;
        assert(i + 1 <= (y + 1) * w) by (nonlinear_arith)
            requires
                i == y * w + x,
                x < w,
                (y + 1) * w == y * w + w,
        ;
        if y > 0 {
            assert(y * w >= w) by (nonlinear_arith)
                requires
                    y >= 1,
                    0 < w,
            ;
        }
        if y + 1 < h {
            assert((y + 1) * w + x < w * h) by (nonlinear_arith)
                requires
                    x < w,
                    y + 1 < h,
            ;
        }
    }
    let mut neighbors: u32 = 0;
    if x > 0 && tiles[i - 1] == TileType::Wall {
        neighbors += 1;
    }
    if x + 2 < w && tiles[i + 1] == TileType::Wall {
        neighbors += 1;
    }
    if y > 0 && tiles[i - w] == TileType::Wall {
        neighbors += 1;
    }
    if y + 2 < h && tiles[i + w] == TileType::Wall {
        neighbors += 1;
    }
    neighbors
}

impl CaveDecorator {
    pub fn new() -> (r: CaveDecorator) {
        CaveDecorator {  }
    }

    /// Decorates every tile from its rolls, and marks the level as
    /// underground.
    pub fn decorate_from_rolls(build_data: &mut BuilderMap, rolls: &Vec<DecorationRolls>)
        requires
            old(build_data).wf(),
            rolls@.len() == old(build_data).map.tiles@.len(),
        ensures
            final(build_data).wf(),
            !final(build_data).map.outdoors,
            final(build_data).map.tiles@ == decorated_from(
                old(build_data).map.tiles@,
                old(build_data).width as int,
                old(build_data).height as int,
                rolls@,
            ),
            final(build_data).spawn_list == old(build_data).spawn_list,
            final(build_data).starting_position == old(build_data).starting_position,
            final(build_data).rooms == old(build_data).rooms,
            final(build_data).corridors == old(build_data).corridors,
            final(build_data).width == old(build_data).width,
            final(build_data).height == old(build_data).height,
    {
        let ghost b0 = *build_data;
        let ghost t = build_data.map.tiles@;
        let ghost wi = build_data.width as int;
        let ghost hi = build_data.height as int;
        let n = build_data.map.tiles.len();
        let wu = build_data.width as usize;
        let hu = build_data.height as usize;
        let old_tiles = crate::map::copy_vec(&build_data.map.tiles);
        let mut i: usize = 0;
        while i < n
            invariant
                build_data.wf(),
                build_data.same_layout(&b0),
                b0.map.tiles@ == t,
                old_tiles@ == t,
                n == t.len(),
                rolls@.len() == n,
                wi == wu,
                hi == hu,
                wi == build_data.width,
                hi == build_data.height,
                i <= n,
                forall|k: int| 0 <= k < i ==> #[trigger] build_data.map.tiles@[k] == decorated_from(t, wi, hi, rolls@)[k],
                forall|k: int| i <= k < n ==> #[trigger] build_data.map.tiles@[k] == t[k],
            decreases n - i,
        {
            let tile = old_tiles[i];
            let r = rolls[i];
            if tile == TileType::Floor {
                if r.0 == 1 {
                    build_data.map.tiles.set(i, TileType::Gravel);
                } else if r.1 == 1 {
                    build_data.map.tiles.set(i, TileType::ShallowWater);
                }
            } else if tile == TileType::Wall {
                let walls = side_walls_at(&old_tiles, wu, hu, i);
                if walls > 2 {
                    build_data.map.tiles.set(i, TileType::DeepWater);
                } else if walls == 1 {
                    if r.2 == 1 {
                        build_data.map.tiles.set(i, TileType::Stalactite);
                    } else if r.2 == 2 {
                        build_data.map.tiles.set(i, TileType::Stalagmite);
                    }
                }
            }
            i = i + 1;
        }
        proof {
            assert(build_data.map.tiles@ =~= decorated_from(t, wi, hi, rolls@));
        }
        build_data.take_snapshot();
        build_data.map.outdoors = false;
    }

    /// Draws the rolls each tile needs, in scan order, then decorates:
    /// walkability is kept, and the level is marked as underground.
    pub fn build(&mut self, rng: &mut rltk::RandomNumberGenerator, build_data: &mut BuilderMap)
        requires
            old(build_data).wf(),
        ensures
            final(build_data).wf(),
            !final(build_data).map.outdoors,
            exists|rolls: Seq<DecorationRolls>|
                #[trigger] rolls_in_range(old(build_data).map.tiles@, old(build_data).width as int, old(build_data).height as int, rolls)
                    && final(build_data).map.tiles@ == decorated_from(
                    old(build_data).map.tiles@,
                    old(build_data).width as int,
                    old(build_data).height as int,
                    rolls,
                ),
            forall|i: int|
                0 <= i < final(build_data).map.tiles@.len() ==> decorated(
                    old(build_data).map.tiles@[i],
                    #[trigger] final(build_data).map.tiles@[i],
                    side_walls(old(build_data).map.tiles@, old(build_data).width as int, old(build_data).height as int, i),
                ),
            forall|i: int|
                0 <= i < final(build_data).map.tiles@.len() ==> walkable(#[trigger] final(build_data).map.tiles@[i])
                    == walkable(old(build_data).map.tiles@[i]),
            final(build_data).spawn_list == old(build_data).spawn_list,
            final(build_data).starting_position == old(build_data).starting_position,
            final(build_data).rooms == old(build_data).rooms,
            final(build_data).corridors == old(build_data).corridors,
            final(build_data).width == old(build_data).width,
            final(build_data).height == old(build_data).height,
            final(build_data).map.tiles@.len() == old(build_data).map.tiles@.len(),
    {
        let ghost t = build_data.map.tiles@;
        let ghost wi = build_data.width as int;
        let ghost hi = build_data.height as int;
        let n = build_data.map.tiles.len();
        let wu = build_data.width as usize;
        let hu = build_data.height as usize;
        let mut rolls: Vec<DecorationRolls> = Vec::new();
        let mut i: usize = 0;
        while i < n
            invariant
                build_data.wf(),
                build_data.map.tiles@ == t,
                n == t.len(),
                wi == wu,
                hi == hu,
                wi == build_data.width,
                hi == build_data.height,
                i <= n,
                rolls@.len() == i,
                forall|k: int|
                    0 <= k < i ==> {
                        &&& (t[k] == TileType::Floor ==> 1 <= (#[trigger] rolls@[k]).0 <= 6 && (rolls@[k].0
                            != 1 ==> 1 <= rolls@[k].1 <= 10))
                        &&& (t[k] == TileType::Wall && side_walls(t, wi, hi, k) == 1 ==> 1 <= rolls@[k].2 <= 4)
                    },
            decreases n - i,
        {
            let tile = build_data.map.tiles[i];
            let mut r: DecorationRolls = (0, 0, 0);
            if tile == TileType::Floor {
                let gravel = rng.roll_dice(1, 6);
                let pool = if gravel == 1 {
                    0
                } else {
                    rng.roll_dice(1, 10)
                };
                r = (gravel, pool, 0);
            } else if tile == TileType::Wall {
                let walls = side_walls_at(&build_data.map.tiles, wu, hu, i);
                if walls == 1 {
                    r = (0, 0, rng.roll_dice(1, 4));
                }
            }
            rolls.push(r);
            i = i + 1;
        }
        proof {
            assert(rolls_in_range(t, wi, hi, rolls@));
        }
        CaveDecorator::decorate_from_rolls(build_data, &rolls);
        proof {
            assert forall|i: int| 0 <= i < t.len() implies decorated(
                t[i],
                #[trigger] build_data.map.tiles@[i],
                side_walls(t, wi, hi, i),
            ) && walkable(build_data.map.tiles@[i]) == walkable(t[i]) by {
                lemma_decorate_tile(t[i], side_walls(t, wi, hi, i), rolls@[i]);
            }
        }
    }
}

/// The spawn intent lies left of the middle column of a grid `w` wide.
pub open spec fn spawn_left(w: int) -> spec_fn((usize, String)) -> bool {
    |s: (usize, String)| (s.0 as int) % w < w / 2
}

/// The spawn intent lies right of the middle column of a grid `w` wide.
pub open spec fn spawn_right(w: int) -> spec_fn((usize, String)) -> bool {
    |s: (usize, String)| (s.0 as int) % w > w / 2
}

/// The grid whose right half (from the middle column on) comes from `r`,
/// and the rest from `l`.
pub open spec fn halves(l: Seq<TileType>, r: Seq<TileType>, w: int) -> Seq<TileType> {
    Seq::new(l.len(), |i: int| if i % w >= w / 2 { r[i] } else { l[i] })
}

pub proof fn lemma_filter_step(s: Seq<(usize, String)>, k: int, p: spec_fn((usize, String)) -> bool)
    requires
        0 <= k < s.len(),
    ensures
        s.subrange(0, k + 1).filter(p) == (if p(s[k]) {
            s.subrange(0, k).filter(p).push(s[k])
        } else {
            s.subrange(0, k).filter(p)
        }),
{
    reveal_with_fuel(Seq::filter, 1);
    assert(s.subrange(0, k + 1).drop_last() =~= s.subrange(0, k));
}

/// Moves onto the end of `dst` the entries of `src` that `keep` holds of,
/// in order.
fn move_spawns(dst: &mut Vec<(usize, String)>, src: Vec<(usize, String)>, w: usize, left: bool)
    requires
        w > 0,
    ensures
        final(dst)@ == old(dst)@ + src@.filter(
            if left {
                spawn_left(w as int)
            } else {
                spawn_right(w as int)
            },
        ),
{
    let ghost p = if left {
        spawn_left(w as int)
    } else {
        spawn_right(w as int)
    };
    let ghost d0 = dst@;
    let ghost s0 = src@;
    let mut rest = src;
    let ghost mut k: int = 0;
    proof {
        reveal_with_fuel(Seq::filter, 1);
        assert(s0.subrange(0, 0) =~= Seq::<(usize, String)>::empty());
        assert(d0 + s0.subrange(0, 0).filter(p) =~= d0);
    }
    while rest.len() > 0
        invariant
            0 <= k <= s0.len(),
            rest@ == s0.subrange(k, s0.len() as int),
            dst@ == d0 + s0.subrange(0, k).filter(p),
            w > 0,
            p == (if left {
                spawn_left(w as int)
            } else {
                spawn_right(w as int)
            }),
        decreases rest@.len(),
    {
        assert(k < s0.len());
        let s = rest.remove(0);
        proof {
            lemma_filter_step(s0, k, p);
            assert(s == s0[k]);
        }
        let x = s.0 % w;
        let keep = if left {
            x < w / 2
        } else {
            x > w / 2
        };
        assert(keep == p(s));
        if keep {
            dst.push(s);
        }
        proof {
            assert(dst@ =~= d0 + s0.subrange(0, k + 1).filter(p));
        }
        proof {
            k = k + 1;
        }
    }
    proof {
        assert(k == s0.len());
        assert(s0.subrange(0, s0.len() as int) =~= s0);
    }
}

/// Builds a transition level: the left half stays cave, the right half is
/// a level of rooms joined by corridors.
pub struct CaveTransition {
    pub table: RandomTable,
}

/// Depth of the transition level.
pub const TRANSITION_DEPTH: i32 = 5;

impl CaveTransition {
    pub fn new(table: RandomTable) -> (r: CaveTransition)
        ensures
            r.table == table,
    {
        CaveTransition { table }
    }

    /// Takes the right half of the tiles (from the middle column on) from
    /// `rooms`, keeps the spawn intents left of the middle column, and adds
    /// those of `rooms` right of it.
    pub fn merge(build_data: &mut BuilderMap, rooms: BuilderMap)
        requires
            old(build_data).wf(),
            rooms.wf(),
            rooms.width == old(build_data).width,
            rooms.height == old(build_data).height,
        ensures
            final(build_data).wf(),
            final(build_data).map.tiles@ == halves(
                old(build_data).map.tiles@,
                rooms.map.tiles@,
                old(build_data).width as int,
            ),
            final(build_data).spawn_list@ == old(build_data).spawn_list@.filter(
                spawn_left(old(build_data).width as int),
            ) + rooms.spawn_list@.filter(spawn_right(old(build_data).width as int)),
            final(build_data).starting_position == old(build_data).starting_position,
            final(build_data).rooms == old(build_data).rooms,
            final(build_data).corridors == old(build_data).corridors,
            final(build_data).width == old(build_data).width,
            final(build_data).height == old(build_data).height,
            final(build_data).map.depth == old(build_data).map.depth,
            final(build_data).map.outdoors == old(build_data).map.outdoors,
            final(build_data).history == old(build_data).history,
    {
        let ghost b0 = *build_data;
        let ghost t = build_data.map.tiles@;
        let ghost w = build_data.width as int;
        let n = build_data.map.tiles.len();
        let wu = build_data.width as usize;
        let mut i: usize = 0;
        while i < n
            invariant
                build_data.wf(),
                build_data.same_layout(&b0),
                build_data.history == b0.history,
                b0.map.tiles@ == t,
                rooms.wf(),
                rooms.map.tiles@.len() == n,
                n == t.len(),
                w == wu,
                w == build_data.width,
                wu > 0,
                i <= n,
                forall|k: int| 0 <= k < i ==> #[trigger] build_data.map.tiles@[k] == halves(t, rooms.map.tiles@, w)[k],
                forall|k: int| i <= k < n ==> #[trigger] build_data.map.tiles@[k] == t[k],
            decreases n - i,
        {
            if i % wu >= wu / 2 {
                build_data.map.tiles.set(i, rooms.map.tiles[i]);
            }
            i = i + 1;
        }
        proof {
            assert(build_data.map.tiles@ =~= halves(t, rooms.map.tiles@, w));
        }
        let mut kept: Vec<(usize, String)> = Vec::new();
        let mut old_list: Vec<(usize, String)> = Vec::new();
        std::mem::swap(&mut build_data.spawn_list, &mut old_list);
        move_spawns(&mut kept, old_list, wu, true);
        move_spawns(&mut kept, rooms.spawn_list, wu, false);
        proof {
            assert(kept@ =~= b0.spawn_list@.filter(spawn_left(w)) + rooms.spawn_list@.filter(spawn_right(w)));
        }
        build_data.spawn_list = kept;
    }

    /// Sets the transition depth, builds a level of rooms of the same size
    /// (scattered rooms, carved, joined to their nearest neighbours, with
    /// spawns in all rooms but the first), and merges its right half in.
    pub fn build(&self, rng: &mut rltk::RandomNumberGenerator, build_data: &mut BuilderMap)
        requires
            old(build_data).wf(),
            self.table.wf(),
        ensures
            final(build_data).wf(),
            final(build_data).map.depth == TRANSITION_DEPTH,
            final(build_data).starting_position == old(build_data).starting_position,
            final(build_data).rooms == old(build_data).rooms,
            final(build_data).corridors == old(build_data).corridors,
            final(build_data).width == old(build_data).width,
            final(build_data).height == old(build_data).height,
            final(build_data).map.outdoors == old(build_data).map.outdoors,
            exists|r: BuilderMap| #[trigger] room_level(r, old(build_data).width, old(build_data).height)
                && final(build_data).map.tiles@ == halves(
                old(build_data).map.tiles@,
                r.map.tiles@,
                old(build_data).width as int,
            ) && final(build_data).spawn_list@ == old(build_data).spawn_list@.filter(
                spawn_left(old(build_data).width as int),
            ) + r.spawn_list@.filter(spawn_right(old(build_data).width as int)) && ({
                let h0 = old(build_data).history@.len() as int;
                let k: int = if old(build_data).record_snapshots { 1 } else { 0 };
                &&& final(build_data).history@.len() == h0 + r.history@.len() + 2 * k
                &&& final(build_data).history@.subrange(0, h0) == old(build_data).history@
                &&& final(build_data).history@.subrange(h0 + k, h0 + k + r.history@.len()) == r.history@
            }),
    {
        build_data.map.depth = TRANSITION_DEPTH;
        build_data.take_snapshot();
        let mut rooms = BuilderMap::new(TRANSITION_DEPTH, build_data.width, build_data.height, "New Map");
        proof {
            assert(rooms.map.tiles@ =~= all_wall(rooms.map.tiles@.len()));
        }
        rooms.record_snapshots = build_data.record_snapshots;
        let ghost walls = rooms.map.tiles@;
        let mut scatter = SimpleMapBuilder::new();
        scatter.build(rng, &mut rooms);
        let ghost v = rooms.rooms.unwrap()@;
        let mut drawer = RoomDrawer::new();
        drawer.build(&mut rooms);
        let ghost carved = rooms.map.tiles@;
        let mut joiner = NearestCorridors::new();
        let ghost before_join = rooms;
        joiner.corridors(&mut rooms);
        let ghost joined = rooms;
        let table = self.table.copy();
        let spawner = RoomBasedSpawner::new(table);
        assert(spawns_ok(rooms));
        spawner.build(rng, &mut rooms);
        let ghost level = rooms;
        proof {
            let w = build_data.width as int;
            assert(carved == rooms_carved(walls, w, v));
            let targets = choose|targets: Seq<int>|
                #![trigger dug_corridors(before_join.map.tiles@, w, v, targets, targets.len())]
                targets.len() == (if v.len() == 0 { 0 } else { v.len() - 1 })
                    && (forall|i: int| 0 <= i < targets.len() ==> is_nearest(v, i, #[trigger] targets[i]))
                    && joined.map.tiles@ == dug_corridors(before_join.map.tiles@, w, v, targets, targets.len())
                    && (forall|i: int, c: int|
                    0 <= i < targets.len() && 0 <= c < joined.map.tiles@.len() && #[trigger] on_corridor(
                        center_x(v[i]),
                        center_y(v[i]),
                        center_x(v[targets[i]]),
                        center_y(v[targets[i]]),
                        c % w,
                        c / w,
                    ) ==> joined.map.tiles@[c] == TileType::Floor);
            assert(walls == all_wall(level.map.tiles@.len()));
            assert(level.map.tiles@ == joined_rooms(all_wall(level.map.tiles@.len()), w, v, targets));
            assert(room_level(level, build_data.width, build_data.height));
        }
        let ghost hist1 = build_data.history@;
        build_data.history.append(&mut rooms.history);
        let ghost hist2 = build_data.history@;
        build_data.take_snapshot();
        let ghost hist3 = build_data.history@;
        CaveTransition::merge(build_data, rooms);
        proof {
            let h0 = old(build_data).history@.len() as int;
            let k: int = if old(build_data).record_snapshots { 1 } else { 0 };
            assert(hist2 == hist1 + level.history@);
            assert(hist1.len() == h0 + k);
            assert(hist1.subrange(0, h0) == old(build_data).history@);
            if old(build_data).record_snapshots {
                assert(hist3.subrange(0, hist2.len() as int) == hist2);
            } else {
                assert(hist3 == hist2);
            }
            assert(build_data.history@ == hist3);
            assert(build_data.history@.subrange(0, h0) =~= old(build_data).history@);
            assert forall|j: int| 0 <= j < level.history@.len() implies #[trigger] hist3[h0 + k + j] == level.history@[j] by {
                assert(hist2[h0 + k + j] == level.history@[j]);
                if old(build_data).record_snapshots {
                    assert(hist3.subrange(0, hist2.len() as int)[h0 + k + j] == hist3[h0 + k + j]);
                }
            }
            assert(hist3.len() == h0 + level.history@.len() + 2 * k);
            let sub = hist3.subrange(h0 + k, h0 + k + level.history@.len());
            assert forall|j: int| 0 <= j < level.history@.len() implies sub[j] == level.history@[j] by {
                assert(sub[j] == hist3[h0 + k + j]);
            }
            assert(sub =~= level.history@);
        }
    }
}

/// A grid of `n` walls.
pub open spec fn all_wall(n: nat) -> Seq<TileType> {
    Seq::new(n, |i: int| TileType::Wall)
}

/// A room level of the given size: rooms six to nine cells a side, apart,
/// carved into an all-wall grid and each joined by a corridor to its
/// nearest later room; its spawn intents sit on walkable free cells.
pub open spec fn room_level(r: BuilderMap, w: i32, h: i32) -> bool {
    &&& r.wf()
    &&& r.width == w
    &&& r.height == h
    &&& spawns_ok(r)
    &&& r.rooms matches Some(v) && rooms_apart(v@) && (forall|k: int| 0 <= k < v@.len() ==> room_sized(#[trigger] v@[k]))
        && exists|targets: Seq<int>|
        targets.len() == (if v@.len() == 0 { 0 } else { v@.len() - 1 })
            && (forall|i: int| 0 <= i < targets.len() ==> is_nearest(v@, i, #[trigger] targets[i]))
            && r.map.tiles@ == joined_rooms(all_wall(r.map.tiles@.len()), w as int, v@, targets)
}

} // verus!
