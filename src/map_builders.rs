//! The builder chain: one initial algorithm, then modifiers in order.
use vstd::prelude::*;
use crate::builder_map::{BuilderMap, ChainError};
use crate::cellular_automata::CellularAutomataBuilder;
use crate::drunkard::DrunkardsWalkBuilder;
use crate::room_based::{
    SimpleMapBuilder, RoomDrawer, NearestCorridors, RoomBasedStartingPosition, RoomBasedStairs,
};
use crate::area_based::{
    AreaStartingPosition, AreaEndingPosition, CullUnreachable, DistantExit, XStart, YStart, XEnd,
    YEnd,
};
use crate::spawner::{RandomTable, RoomBasedSpawner, VoronoiSpawning};
use crate::limestone_cavern::{CaveDecorator, CaveTransition};
use crate::map::{MAX_TILES, idx_of};
use crate::prefab_builder::{
    shrine_tiles, PrefabBuilder, PrefabMode, is_vault_stage, is_fort_stage, stamped, first_vault_corner, anchor_x, anchor_y,
    under,
};
use crate::waveform_collapse::{
    WaveformCollapseBuilder, CHUNK_SIZE, lemma_uniform_grid_kept, sampled_from, assignment_ok, resynthesized, chunks_fit, chunk_cols,
    chunk_rows,
};
use crate::cellular_automata::{cave_from_rolls, ca_step};
use crate::drunkard::{off_border, DrunkardSettings, DrunkSpawnMode, Digger, dig_all, diggers_in_range, floors_in, MAX_DIGGERS};
use crate::room_based::{
    in_room, MAX_ROOMS, joins, draws_in_range, kept_rooms, rooms_apart, room_sized, rooms_carved, same_but_tiles_of, dug_corridors, is_nearest, on_corridor,
};
use crate::area_based::{
    start_error, culled, has_walkable, area_pick, x_third, y_third, x_end_third, y_end_third,
    has_other_reachable, farthest,
};
use crate::reach::is_distance_map;
use crate::grid::reachable;
use crate::connectivity::{lemma_unjoined_rooms_apart, roomy, center_idx, all_reachable, lemma_any_start_reaches_all, lemma_connected_kept, lemma_stairs_keep_walkability};
use crate::spawner::{only_spawns_added, spawns_ok, table_view, names_from, RegionDraw, rooms_spawned, regions_spawned, region_draw_ok, room_cells, region_cells, VORONOI_SEEDS};
use crate::limestone_cavern::{decorated, side_walls, rolls_in_range, decorated_from, DecorationRolls, room_level, halves, spawn_left, spawn_right, TRANSITION_DEPTH};
use crate::tile_type::{TileType, walkable};
use crate::rect::{center_x, center_y, rect_in, overlaps};
use crate::builder_map::{Position, pos_idx};

verus! {

/// An algorithm that builds a grid from nothing.
#[derive(Copy, Clone)]
pub enum InitialMapBuilder {
    CellularAutomata(CellularAutomataBuilder),
    DrunkardsWalk(DrunkardsWalkBuilder),
    Simple(SimpleMapBuilder),
}

/// An algorithm that reads and rewrites the state built so far.
pub enum MetaMapBuilder {
    CellularAutomata(CellularAutomataBuilder),
    AreaStartingPosition(AreaStartingPosition),
    AreaEndingPosition(AreaEndingPosition),
    CullUnreachable(CullUnreachable),
    DistantExit(DistantExit),
    RoomDrawer(RoomDrawer),
    NearestCorridors(NearestCorridors),
    RoomBasedStartingPosition(RoomBasedStartingPosition),
    RoomBasedStairs(RoomBasedStairs),
    RoomBasedSpawner(RoomBasedSpawner),
    VoronoiSpawning(VoronoiSpawning),
    CaveDecorator(CaveDecorator),
    CaveTransition(CaveTransition),
    WaveformCollapse(WaveformCollapseBuilder),
    Prefab(PrefabBuilder),
}

/// The settings of an initial algorithm are in range.
pub open spec fn initial_ok(b: InitialMapBuilder) -> bool {
    match b {
        InitialMapBuilder::DrunkardsWalk(d) => 0 <= d.settings.drunken_lifetime && 0
            <= d.settings.floor_percent <= 100,
        _ => true,
    }
}

/// The spawn tables a modifier carries are well formed.
pub open spec fn meta_ok(b: MetaMapBuilder) -> bool {
    match b {
        MetaMapBuilder::RoomBasedSpawner(s) => s.table.wf(),
        MetaMapBuilder::VoronoiSpawning(s) => s.table.wf(),
        MetaMapBuilder::CaveTransition(s) => s.table.wf(),
        MetaMapBuilder::WaveformCollapse(b) => b.chunk_size >= 1,
        MetaMapBuilder::Prefab(p) => p.prefab.wf() && (p.mode == PrefabMode::Vault ==> p.prefab.all_walkable()),
        _ => true,
    }
}


/// What an initial algorithm promises of the state it leaves.
#[verifier::opaque]
pub open spec fn initial_post(b: InitialMapBuilder, b0: BuilderMap, b1: BuilderMap) -> bool {
    match b {
        InitialMapBuilder::CellularAutomata(_c) => (b1.wf())
        && (b1.same_layout(&b0))
        && (exists|rolls: Seq<i32>|
                rolls.len() == b0.map.tiles@.len() && (forall|i: int|
                    0 <= i < rolls.len() ==> 1 <= #[trigger] rolls[i] <= 100)
                    && b1.map.tiles@ == cave_from_rolls(
                    b0.map.tiles@,
                    b0.width as int,
                    b0.height as int,
                    rolls,
                )),
        InitialMapBuilder::DrunkardsWalk(s) => (b1.wf())
        && (b1.same_layout(&b0))
        && (forall|i: int|
                0 <= i < b1.map.tiles@.len() ==> #[trigger] b1.map.tiles@[i]
                    == b0.map.tiles@[i] || (b1.map.tiles@[i] == TileType::Floor
                    && off_border(b0.width as int, b0.height as int, i)))
        && (b0.width < 3 || b0.height < 3 ==> b1.map.tiles@
                == b0.map.tiles@)
        && (b0.width >= 3 && b0.height >= 3 ==> {
                let w = b0.width as int;
                let h = b0.height as int;
                let t0 = b0.map.tiles@.update(idx_of(w, w / 2, h / 2), TileType::Floor);
                let n = b0.map.tiles@.len() as int;
                &&& b1.map.tiles@[idx_of(w, w / 2, h / 2)] == TileType::Floor
                &&& exists|diggers: Seq<Digger>|
                    #[trigger] diggers_in_range(diggers, w, h, s.settings) && b1.map.tiles@
                        == dig_all(t0, w, h, diggers, diggers.len()) && (floors_in(
                        b1.map.tiles@,
                        n,
                    ) >= n * s.settings.floor_percent / 100 || diggers.len() == MAX_DIGGERS)
            }),
        InitialMapBuilder::Simple(_s) => (b1.wf())
        && (b1.map == b0.map)
        && (b1.spawn_list == b0.spawn_list)
        && (b1.starting_position == b0.starting_position)
        && (b1.corridors == b0.corridors)
        && (b1.history == b0.history)
        && (b1.width == b0.width)
        && (b1.height == b0.height)
        && (b1.record_snapshots == b0.record_snapshots)
        && (b1.rooms matches Some(v) && rooms_apart(v@) && forall|k: int|
                0 <= k < v@.len() ==> room_sized(#[trigger] v@[k]))
        && (exists|draws: Seq<(i32, i32, i32, i32)>|
                #[trigger] draws_in_range(draws, b0.width as int, b0.height as int)
                    && draws.len() == MAX_ROOMS && b1.rooms.unwrap()@ == kept_rooms(
                    draws,
                    b0.width as int,
                    b0.height as int,
                    draws.len(),
                )),
    }
}

/// What a modifier promises of the state it leaves, and of its result.
#[verifier::opaque]
pub open spec fn meta_post(b: MetaMapBuilder, b0: BuilderMap, b1: BuilderMap, r: Result<(), ChainError>) -> bool {
    match b {
        MetaMapBuilder::CellularAutomata(_s) => (b1.wf())
        && (b1.same_layout(&b0))
        && (b1.map.tiles@ == ca_step(
                b0.map.tiles@,
                b0.width as int,
                b0.height as int,
            ))
        && (r == Ok::<(), ChainError>(())),
        MetaMapBuilder::AreaStartingPosition(s) => (b1.wf())
        && (r is Err <==> !has_walkable(b0.map.tiles@))
        && (r is Err ==> r == Err::<(), ChainError>(ChainError::NoWalkableTile)
                && b1 == b0)
        && (r is Ok ==> b1.starting_position is Some && area_pick(
                b0.map.tiles@,
                b0.width as int,
                b0.height as int,
                x_third(s.x),
                y_third(s.y),
                b1.start_idx(),
            ))
        && (r is Ok ==> b1.map == b0.map
                && b1.spawn_list == b0.spawn_list
                && b1.rooms == b0.rooms
                && b1.corridors == b0.corridors
                && b1.history == b0.history
                && b1.width == b0.width
                && b1.height == b0.height
                && b1.record_snapshots == b0.record_snapshots),
        MetaMapBuilder::AreaEndingPosition(s) => (b1.wf())
        && (r is Err <==> !has_walkable(b0.map.tiles@))
        && (r is Err ==> r == Err::<(), ChainError>(ChainError::NoWalkableTile)
                && b1 == b0)
        && (r is Ok ==> exists|e: int|
                area_pick(
                    b0.map.tiles@,
                    b0.width as int,
                    b0.height as int,
                    x_end_third(s.x),
                    y_end_third(s.y),
                    e,
                ) && b1.map.tiles@ == b0.map.tiles@.update(
                    e,
                    TileType::DownStairs,
                ))
        && (r is Ok ==> b1.same_but_tiles(&b0)),
        MetaMapBuilder::CullUnreachable(_s) => (b1.wf())
        && (r is Err <==> start_error(b0) is Some)
        && (r is Err ==> r == Err::<(), ChainError>(start_error(b0).unwrap())
                && b1 == b0)
        && (r is Ok ==> ({
                let b0 = b0;
                let b1 = b1;
                let w = b0.width as int;
                let h = b0.height as int;
                let s = b0.start_idx();
                &&& b1.map.tiles@ == culled(b0.map.tiles@, w, h, s)
                &&& forall|i: int|
                    0 <= i < b1.map.size() && walkable(#[trigger] b1.map.tiles@[i]) ==> reachable(
                        b1.map.tiles@,
                        w,
                        h,
                        s,
                        i,
                    )
                &&& walkable(b1.map.tiles@[s])
                &&& b1.same_but_tiles(&b0)
            })),
        MetaMapBuilder::DistantExit(_s) => (b1.wf())
        && (r is Err <==> start_error(b0) is Some || !has_other_reachable(
                b0.map.tiles@,
                b0.width as int,
                b0.height as int,
                b0.start_idx(),
            ))
        && (r is Err ==> b1 == b0)
        && (r is Err && start_error(b0) is Some ==> r == Err::<(), ChainError>(
                start_error(b0).unwrap(),
            ))
        && (r is Err && start_error(b0) is None ==> r == Err::<(), ChainError>(
                ChainError::NoExitTile,
            ))
        && (r is Ok ==> ({
                let t = b0.map.tiles@;
                let w = b0.width as int;
                let h = b0.height as int;
                let s = b0.start_idx();
                exists|dist: Seq<i32>, e: int|
                    is_distance_map(t, w, h, s, dist) && farthest(dist, e)
                        && b1.map.tiles@ == t.update(e, TileType::DownStairs)
            }))
        && (r is Ok ==> ({
                let t = b0.map.tiles@;
                let s = b0.start_idx();
                exists|e: int|
                    0 <= e < t.len() && e != s && b1.map.tiles@[e] == TileType::DownStairs
                        && walkable(b1.map.tiles@[e]) && walkable(
                        b1.map.tiles@[s],
                    ) && reachable(
                        t,
                        b0.width as int,
                        b0.height as int,
                        s,
                        e,
                    )
            }))
        && (r is Ok ==> b1.same_but_tiles(&b0)),
        MetaMapBuilder::RoomDrawer(_s) => (b1.wf())
        && (b1.same_layout(&b0)
                && b1.map.tiles@ == rooms_carved(
                b0.map.tiles@,
                b0.width as int,
                b0.rooms.unwrap()@,
            ))
        && (r == Ok::<(), ChainError>(())),
        MetaMapBuilder::NearestCorridors(_s) => (b1.wf())
        && (({
                let b0 = b0;
                let b1 = b1;
                let rooms = b0.rooms.unwrap()@;
                let w = b0.width as int;
                &&& b1.map.wf()
                &&& b1.spawn_list == b0.spawn_list
                &&& b1.starting_position == b0.starting_position
                &&& b1.rooms == b0.rooms
                &&& b1.width == b0.width
                &&& b1.height == b0.height
                &&& same_but_tiles_of(b1.map, b0.map)
                &&& b1.corridors is Some
                &&& b1.corridors.unwrap()@.len() == (if rooms.len() == 0 { 0 } else { rooms.len() - 1 })
                &&& exists|targets: Seq<int>|
                    #![trigger dug_corridors(b0.map.tiles@, w, rooms, targets, targets.len())]
                    targets.len() == (if rooms.len() == 0 { 0 } else { rooms.len() - 1 })
                        && (forall|i: int| 0 <= i < targets.len() ==> is_nearest(rooms, i, #[trigger] targets[i]))
                        && b1.map.tiles@ == dug_corridors(b0.map.tiles@, w, rooms, targets, targets.len())
                        && (forall|i: int, c: int|
                        0 <= i < targets.len() && 0 <= c < b1.map.tiles@.len() && #[trigger] on_corridor(
                            center_x(rooms[i]),
                            center_y(rooms[i]),
                            center_x(rooms[targets[i]]),
                            center_y(rooms[targets[i]]),
                            c % w,
                            c / w,
                        ) ==> b1.map.tiles@[c] == TileType::Floor)
                        && (forall|i: int| 0 <= i < targets.len() ==> #[trigger] joins(
                        b0.map.tiles@,
                        w,
                        rooms,
                        targets,
                        b1.corridors.unwrap()@[i]@,
                        i,
                    ))
            }))
        && (r == Ok::<(), ChainError>(())),
        MetaMapBuilder::RoomBasedStartingPosition(_s) => (b1.wf())
        && (({
                let first = b0.rooms.unwrap()@[0];
                b1.starting_position == Some(
                    Position { x: center_x(first) as i32, y: center_y(first) as i32 },
                )
            }))
        && (b1.map == b0.map
                && b1.spawn_list == b0.spawn_list
                && b1.rooms == b0.rooms
                && b1.corridors == b0.corridors
                && b1.history == b0.history
                && b1.width == b0.width
                && b1.height == b0.height
                && b1.record_snapshots == b0.record_snapshots)
        && (r == Ok::<(), ChainError>(())),
        MetaMapBuilder::RoomBasedStairs(_s) => (b1.wf())
        && (({
                let rooms = b0.rooms.unwrap()@;
                let last = rooms[rooms.len() - 1];
                b1.map.tiles@ == b0.map.tiles@.update(
                    pos_idx(b0.width as int, Position { x: center_x(last) as i32, y: center_y(last) as i32 }),
                    TileType::DownStairs,
                )
            }))
        && (b1.same_but_tiles(&b0))
        && (r == Ok::<(), ChainError>(())),
        MetaMapBuilder::RoomBasedSpawner(s) => (b1.wf())
        && (only_spawns_added(b1, b0))
        && (spawns_ok(b0) ==> spawns_ok(b1))
        && (names_from(s.table, b1.spawn_list@, b0.spawn_list@.len() as int))
        && (exists|draws: Seq<RegionDraw>|
                #[trigger] rooms_spawned(b0, b0.rooms.unwrap()@, draws, draws.len())
                    == b1.spawn_list@ && draws.len() == (if b0.rooms.unwrap()@.len()
                    == 0 { 0 } else { b0.rooms.unwrap()@.len() - 1 }) && forall|j: int|
                    0 <= j < draws.len() ==> region_draw_ok(
                        #[trigger] draws[j],
                        b0.map.depth as int,
                        room_cells(
                            b0.map.tiles@,
                            b0.width as int,
                            b0.rooms.unwrap()@[j + 1],
                            b0.map.tiles@.len(),
                        ).len() as int,
                        s.table,
                    ))
        && (r == Ok::<(), ChainError>(())),
        MetaMapBuilder::VoronoiSpawning(s) => (b1.wf())
        && (only_spawns_added(b1, b0))
        && (spawns_ok(b0) ==> spawns_ok(b1))
        && (names_from(s.table, b1.spawn_list@, b0.spawn_list@.len() as int))
        && (exists|seeds: Seq<(i32, i32)>, draws: Seq<RegionDraw>|
                #[trigger] regions_spawned(b0, seeds, draws, draws.len()) == b1.spawn_list@
                    && seeds.len() == VORONOI_SEEDS && draws.len() == VORONOI_SEEDS && (forall|k: int|
                    0 <= k < seeds.len() ==> 0 <= (#[trigger] seeds[k]).0 < b0.width && 0 <= seeds[k].1
                        < b0.height) && forall|j: int|
                    0 <= j < draws.len() ==> region_draw_ok(
                        #[trigger] draws[j],
                        b0.map.depth as int,
                        region_cells(
                            b0.map.tiles@,
                            b0.width as int,
                            seeds,
                            j,
                            b0.map.tiles@.len(),
                        ).len() as int,
                        s.table,
                    ))
        && (r == Ok::<(), ChainError>(())),
        MetaMapBuilder::CaveDecorator(_s) => (b1.wf())
        && (!b1.map.outdoors)
        && (exists|rolls: Seq<DecorationRolls>|
                #[trigger] rolls_in_range(b0.map.tiles@, b0.width as int, b0.height as int, rolls)
                    && b1.map.tiles@ == decorated_from(
                    b0.map.tiles@,
                    b0.width as int,
                    b0.height as int,
                    rolls,
                ))
        && (forall|i: int|
                0 <= i < b1.map.tiles@.len() ==> decorated(
                    b0.map.tiles@[i],
                    #[trigger] b1.map.tiles@[i],
                    side_walls(b0.map.tiles@, b0.width as int, b0.height as int, i),
                ))
        && (forall|i: int|
                0 <= i < b1.map.tiles@.len() ==> walkable(#[trigger] b1.map.tiles@[i])
                    == walkable(b0.map.tiles@[i]))
        && (b1.spawn_list == b0.spawn_list)
        && (b1.starting_position == b0.starting_position)
        && (b1.rooms == b0.rooms)
        && (b1.corridors == b0.corridors)
        && (b1.width == b0.width)
        && (b1.height == b0.height)
        && (b1.map.tiles@.len() == b0.map.tiles@.len())
        && (r == Ok::<(), ChainError>(())),
        MetaMapBuilder::CaveTransition(s) => (b1.wf())
        && (b1.map.depth == TRANSITION_DEPTH)
        && (b1.starting_position == b0.starting_position)
        && (b1.rooms == b0.rooms)
        && (b1.corridors == b0.corridors)
        && (b1.width == b0.width)
        && (b1.height == b0.height)
        && (b1.map.outdoors == b0.map.outdoors)
        && (exists|r: BuilderMap| #[trigger] room_level(r, b0.width, b0.height)
                && b1.map.tiles@ == halves(
                b0.map.tiles@,
                r.map.tiles@,
                b0.width as int,
            ) && b1.spawn_list@ == b0.spawn_list@.filter(
                spawn_left(b0.width as int),
            ) + r.spawn_list@.filter(spawn_right(b0.width as int)) && ({
                let h0 = b0.history@.len() as int;
                let k: int = if b0.record_snapshots { 1 } else { 0 };
                &&& b1.history@.len() == h0 + r.history@.len() + 2 * k
                &&& b1.history@.subrange(0, h0) == b0.history@
                &&& b1.history@.subrange(h0 + k, h0 + k + r.history@.len()) == r.history@
            }))
        && (r == Ok::<(), ChainError>(())),
        MetaMapBuilder::Prefab(s) => (b1.wf())
        && (b1.starting_position == b0.starting_position)
        && (b1.rooms == b0.rooms)
        && (b1.corridors == b0.corridors)
        && (b1.width == b0.width)
        && (b1.height == b0.height)
        && (b1.map.tiles@.len() == b0.map.tiles@.len())
        && (s.mode == PrefabMode::Vault && s.prefab.all_walkable() ==> forall|i: int|
                0 <= i < b1.map.tiles@.len() ==> walkable(#[trigger] b1.map.tiles@[i])
                    == walkable(b0.map.tiles@[i]))
        && (({
                let b0 = b0;
                let b1 = b1;
                let w = b0.width as int;
                let h = b0.height as int;
                let pw = s.prefab.width as int;
                let ph = s.prefab.height as int;
                let p = s.prefab.tiles@;
                match s.mode {
                    PrefabMode::Sectional { x, y } => if pw <= w && ph <= h {
                        let ax = anchor_x(x, w, pw);
                        let ay = anchor_y(y, h, ph);
                        &&& b1.map.tiles@ == stamped(b0.map.tiles@, w, p, pw, ph, ax, ay)
                        &&& b1.spawn_list@ == b0.spawn_list@.filter(
                            |s: (usize, String)| !under(w, ax, ay, pw, ph, s.0 as int),
                        )
                    } else {
                        b1.map.tiles@ == b0.map.tiles@ && b1.spawn_list == b0.spawn_list
                    },
                    PrefabMode::Vault => {
                        &&& b1.spawn_list == b0.spawn_list
                        &&& (forall|i: int| 0 <= i < b0.map.tiles@.len() ==> !#[trigger] first_vault_corner(b0, pw, ph, i))
                            ==> b1.map.tiles@ == b0.map.tiles@
                        &&& forall|i: int|
                            #[trigger] first_vault_corner(b0, pw, ph, i) ==> b1.map.tiles@ == stamped(
                                b0.map.tiles@,
                                w,
                                p,
                                pw,
                                ph,
                                i % w,
                                i / w,
                            )
                    },
                }
            }))
        && (r == Ok::<(), ChainError>(())),
        MetaMapBuilder::WaveformCollapse(s) => (r == Ok::<(), ChainError>(())) && (b1.wf()) && (b1 == b0 || ((exists|patterns: Seq<Seq<TileType>>, assign: Seq<int>|
                sampled_from(
                    b0.map.tiles@,
                    b0.width as int,
                    b0.height as int,
                    s.chunk_size as int,
                    patterns,
                ) && assignment_ok(
                    assign,
                    chunk_cols(b0.width as int, s.chunk_size as int) * chunk_rows(
                        b0.height as int,
                        s.chunk_size as int,
                    ),
                    patterns.len() as int,
                ) && b1.map.tiles@ == resynthesized(
                    b0.map.tiles@,
                    b0.width as int,
                    b0.height as int,
                    s.chunk_size as int,
                    patterns,
                    assign,
                ) && chunks_fit(
                    patterns,
                    assign,
                    chunk_cols(b0.width as int, s.chunk_size as int),
                    chunk_cols(b0.width as int, s.chunk_size as int) * chunk_rows(
                        b0.height as int,
                        s.chunk_size as int,
                    ),
                    s.chunk_size as int,
                ))
            && (b1.spawn_list@.len() == 0 && b1.rooms is None
                && b1.corridors is None
                && b1.starting_position == b0.starting_position
                && b1.width == b0.width
                && b1.height == b0.height))),
    }
}

/// Runs an initial algorithm.
pub fn run_initial(b: InitialMapBuilder, rng: &mut rltk::RandomNumberGenerator, build_data: &mut BuilderMap)
    requires
        old(build_data).wf(),
        initial_ok(b),
    ensures
        final(build_data).wf(),
        initial_post(b, *old(build_data), *final(build_data)),
{
    reveal(initial_post);
    match b {
        InitialMapBuilder::CellularAutomata(mut c) => c.build(rng, build_data),
        InitialMapBuilder::DrunkardsWalk(d) => d.build(rng, build_data),
        InitialMapBuilder::Simple(mut s) => s.build(rng, build_data),
    }
}

/// Runs a modifier. A room-based modifier on a state without rooms (or, for
/// those that use the first or last room, with none) does not run and
/// reports `RoomsRequired`.
pub fn run_meta(b: &MetaMapBuilder, rng: &mut rltk::RandomNumberGenerator, build_data: &mut BuilderMap) -> (r: Result<(), ChainError>)
    requires
        old(build_data).wf(),
        meta_ok(*b),
    ensures
        final(build_data).wf(),
        r == Err::<(), ChainError>(ChainError::RoomsRequired) ==> *final(build_data) == *old(build_data)
            && needs_rooms(*b) && !has_rooms(*old(build_data), *b),
        r != Err::<(), ChainError>(ChainError::RoomsRequired) ==> meta_post(*b, *old(build_data), *final(build_data), r),
        needs_rooms(*b) ==> (r == Err::<(), ChainError>(ChainError::RoomsRequired) <==> !has_rooms(*old(build_data), *b)),
{
    reveal(meta_post);
    if needs_rooms_exec(b) {
        let ok = match &build_data.rooms {
            None => false,
            Some(v) => v.len() > 0 || !needs_a_room_exec(b),
        };
        if !ok {
            return Err(ChainError::RoomsRequired);
        }
    }
    match b {
        MetaMapBuilder::CellularAutomata(_) => {
            let mut c = CellularAutomataBuilder::new();
            c.apply_iteration(build_data);
            Ok(())
        },
        MetaMapBuilder::AreaStartingPosition(a) => a.build(build_data),
        MetaMapBuilder::AreaEndingPosition(a) => a.build(build_data),
        MetaMapBuilder::CullUnreachable(_) => {
            let mut c = CullUnreachable::new();
            c.build(build_data)
        },
        MetaMapBuilder::DistantExit(_) => {
            let mut d = DistantExit::new();
            d.build(build_data)
        },
        MetaMapBuilder::RoomDrawer(_) => {
            let mut d = RoomDrawer::new();
            d.build(build_data);
            Ok(())
        },
        MetaMapBuilder::NearestCorridors(_) => {
            let mut c = NearestCorridors::new();
            c.corridors(build_data);
            Ok(())
        },
        MetaMapBuilder::RoomBasedStartingPosition(_) => {
            let mut s = RoomBasedStartingPosition::new();
            s.build(build_data);
            Ok(())
        },
        MetaMapBuilder::RoomBasedStairs(_) => {
            let mut s = RoomBasedStairs::new();
            s.build(build_data);
            Ok(())
        },
        MetaMapBuilder::RoomBasedSpawner(s) => {
            s.build(rng, build_data);
            Ok(())
        },
        MetaMapBuilder::VoronoiSpawning(s) => {
            s.build(rng, build_data);
            Ok(())
        },
        MetaMapBuilder::CaveDecorator(_) => {
            let mut d = CaveDecorator::new();
            d.build(rng, build_data);
            Ok(())
        },
        MetaMapBuilder::CaveTransition(t) => {
            t.build(rng, build_data);
            Ok(())
        },
        MetaMapBuilder::WaveformCollapse(w) => {
            let _ = w.build(rng, build_data);
            Ok(())
        },
        MetaMapBuilder::Prefab(p) => {
            p.build(build_data);
            Ok(())
        },
    }
}

/// The modifier works on the rooms.
pub open spec fn needs_rooms(b: MetaMapBuilder) -> bool {
    b is RoomDrawer || b is NearestCorridors || b is RoomBasedStartingPosition || b is RoomBasedStairs
        || b is RoomBasedSpawner
}

/// The modifier uses the first or the last room.
pub open spec fn needs_a_room(b: MetaMapBuilder) -> bool {
    b is RoomBasedStartingPosition || b is RoomBasedStairs
}

/// The state holds the rooms the modifier needs.
pub open spec fn has_rooms(d: BuilderMap, b: MetaMapBuilder) -> bool {
    d.rooms matches Some(v) && (v@.len() > 0 || !needs_a_room(b))
}

fn needs_rooms_exec(b: &MetaMapBuilder) -> (r: bool)
    ensures
        r == needs_rooms(*b),
{
    match b {
        MetaMapBuilder::RoomDrawer(_) | MetaMapBuilder::NearestCorridors(_)
        | MetaMapBuilder::RoomBasedStartingPosition(_) | MetaMapBuilder::RoomBasedStairs(_)
        | MetaMapBuilder::RoomBasedSpawner(_) => true,
        _ => false,
    }
}

fn needs_a_room_exec(b: &MetaMapBuilder) -> (r: bool)
    ensures
        r == needs_a_room(*b),
{
    match b {
        MetaMapBuilder::RoomBasedStartingPosition(_) | MetaMapBuilder::RoomBasedStairs(_) => true,
        _ => false,
    }
}

/// The first `k` modifiers ran after the initial algorithm, each without
/// error: `states[0]` is the state before the run, `states[1]` the state the
/// initial algorithm left, `states[i + 2]` the state modifier `i` left.
pub open spec fn stages_ran(
    st: InitialMapBuilder,
    mods: Seq<MetaMapBuilder>,
    states: Seq<BuilderMap>,
    k: int,
) -> bool {
    &&& 0 <= k <= mods.len()
    &&& states.len() == k + 2
    &&& initial_post(st, states[0], states[1])
    &&& forall|i: int| 0 <= i < k ==> #[trigger] meta_post(mods[i], states[i + 1], states[i + 2], Ok(()))
}

/// A run of the recipe from `d0` to `d1` with result `r`: the initial
/// algorithm, then the modifiers in order until the first error, which ends
/// the run with the state left as it was.
pub open spec fn chain_ran(
    st: InitialMapBuilder,
    mods: Seq<MetaMapBuilder>,
    d0: BuilderMap,
    d1: BuilderMap,
    r: Result<(), ChainError>,
) -> bool {
    exists|states: Seq<BuilderMap>, k: int|
        #[trigger] stages_ran(st, mods, states, k) && states[0] == d0 && ((r is Ok && k == mods.len()
            && d1 == states[k + 1]) || (r is Err && k < mods.len() && (if r == Err::<(), ChainError>(
            ChainError::RoomsRequired,
        ) {
            d1 == states[k + 1] && needs_rooms(mods[k]) && !has_rooms(states[k + 1], mods[k])
        } else {
            meta_post(mods[k], states[k + 1], d1, r)
        })))
}

/// A recipe and the state it builds: one initial algorithm, then modifiers
/// in the order they were added.
pub struct BuilderChain {
    starter: Option<InitialMapBuilder>,
    builders: Vec<MetaMapBuilder>,
    pub build_data: BuilderMap,
}

impl BuilderChain {
    pub closed spec fn wf(&self) -> bool {
        &&& self.build_data.wf()
        &&& (self.starter matches Some(s) ==> initial_ok(s))
        &&& forall|k: int| 0 <= k < self.builders@.len() ==> meta_ok(#[trigger] self.builders@[k])
    }

    /// The generation state.
    pub closed spec fn data(&self) -> BuilderMap {
        self.build_data
    }

    /// The initial algorithm, once set.
    pub closed spec fn starter_view(&self) -> Option<InitialMapBuilder> {
        self.starter
    }

    /// The modifiers, in order.
    pub closed spec fn modifiers(&self) -> Seq<MetaMapBuilder> {
        self.builders@
    }

    /// An initial algorithm has been set.
    pub open spec fn has_starter(&self) -> bool {
        self.starter_view() is Some
    }

    /// Whether an initial algorithm has been set.
    pub fn is_started(&self) -> (r: bool)
        ensures
            r == self.has_starter(),
    {
        self.starter.is_some()
    }

    /// An empty recipe around an all-wall grid.
    pub fn new(new_depth: i32, width: i32, height: i32, name: &str) -> (c: BuilderChain)
        requires
            0 < width,
            0 < height,
            width * height <= MAX_TILES,
        ensures
            c.wf(),
            c.starter_view() is None,
            c.modifiers() == Seq::<MetaMapBuilder>::empty(),
            c.data().wf(),
            c.data().width == width,
            c.data().height == height,
            c.data().map.depth == new_depth,
            c.data().map.name@ == name@,
            forall|i: int| 0 <= i < c.data().map.tiles@.len() ==> #[trigger] c.data().map.tiles@[i] == TileType::Wall,
            c.data().spawn_list@.len() == 0,
            c.data().starting_position is None,
            c.data().rooms is None,
            c.data().corridors is None,
            c.data().history@.len() == 0,
            !c.data().record_snapshots,
    {
        BuilderChain { starter: None, builders: Vec::new(), build_data: BuilderMap::new(new_depth, width, height, name) }
    }

    /// Sets the initial algorithm; a recipe has exactly one, and setting a
    /// second is a configuration error.
    pub fn start_with(&mut self, starter: InitialMapBuilder)
        requires
            old(self).wf(),
            !old(self).has_starter(),
            initial_ok(starter),
        ensures
            final(self).wf(),
            final(self).starter_view() == Some(starter),
            final(self).modifiers() == old(self).modifiers(),
            final(self).data() == old(self).data(),
    {
        self.starter = Some(starter);
    }

    /// Appends a modifier.
    pub fn with(&mut self, meta_builder: MetaMapBuilder)
        requires
            old(self).wf(),
            meta_ok(meta_builder),
        ensures
            final(self).wf(),
            final(self).starter_view() == old(self).starter_view(),
            final(self).modifiers() == old(self).modifiers().push(meta_builder),
            final(self).data() == old(self).data(),
    {
        self.builders.push(meta_builder);
    }

    /// Runs the initial algorithm, then each modifier in order, stopping at
    /// the first that cannot run. Running a recipe without an initial
    /// algorithm is a configuration error.
    pub fn build_map(&mut self, rng: &mut rltk::RandomNumberGenerator) -> (r: Result<(), ChainError>)
        requires
            old(self).wf(),
            old(self).has_starter(),
        ensures
            final(self).wf(),
            final(self).starter_view() == old(self).starter_view(),
            final(self).modifiers() == old(self).modifiers(),
            chain_ran(old(self).starter_view().unwrap(), old(self).modifiers(), old(self).data(), final(self).data(), r),
    {
        let starter = match self.starter {
            None => {
                return Ok(());
            },
            Some(s) => s,
        };
        let ghost d0 = self.build_data;
        let ghost mods = self.builders@;
        run_initial(starter, rng, &mut self.build_data);
        let ghost mut states: Seq<BuilderMap> = seq![d0, self.build_data];
        let mut i: usize = 0;
        while i < self.builders.len()
            invariant
                self.wf(),
                self.starter == old(self).starter,
                self.starter == Some(starter),
                self.builders@ == mods,
                mods == old(self).builders@,
                d0 == old(self).build_data,
                i <= mods.len(),
                stages_ran(starter, mods, states, i as int),
                states[0] == d0,
                states[i + 1] == self.build_data,
            decreases mods.len() - i,
        {
            let ghost before = self.build_data;
            assert(meta_ok(mods[i as int]));
            let r = run_meta(&self.builders[i], rng, &mut self.build_data);
            if r.is_err() {
                proof {
                    assert(stages_ran(starter, mods, states, i as int));
                }
                return r;
            }
            proof {
                let s2 = states.push(self.build_data);
                assert forall|j: int| 0 <= j < i + 1 implies #[trigger] meta_post(mods[j], s2[j + 1], s2[j + 2], Ok(())) by {
                    if j < i {
                        assert(meta_post(mods[j], states[j + 1], states[j + 2], Ok(())));
                    } else {
                        assert(s2[j + 1] == before);
                        assert(s2[j + 2] == self.build_data);
                        let u = r->Ok_0;
                        assert(u == ());
                        assert(r == Ok::<(), ChainError>(u));
                        assert(meta_post(mods[j], before, self.build_data, r));
                    }
                }
                states = s2;
            }
            i = i + 1;
        }
        proof {
            assert(stages_ran(starter, mods, states, i as int));
        }
        Ok(())
    }
}

/// The winding-passages digger: short-lived walkers from anywhere until two
/// fifths of the grid is floor.
pub open spec fn winding_passages_spec() -> DrunkardsWalkBuilder {
    DrunkardsWalkBuilder {
        settings: DrunkardSettings { spawn_mode: DrunkSpawnMode::Random, drunken_lifetime: 100, floor_percent: 40 },
    }
}

pub open spec fn area_start(x: XStart, y: YStart) -> MetaMapBuilder {
    MetaMapBuilder::AreaStartingPosition(AreaStartingPosition { x, y })
}

pub open spec fn cull() -> MetaMapBuilder {
    MetaMapBuilder::CullUnreachable(CullUnreachable {  })
}

/// The modifiers of the limestone caverns.
pub open spec fn cavern_recipe(table: RandomTable) -> Seq<MetaMapBuilder> {
    seq![
        area_start(XStart::Center, YStart::Center),
        cull(),
        area_start(XStart::Left, YStart::Center),
        MetaMapBuilder::VoronoiSpawning(VoronoiSpawning { table }),
        MetaMapBuilder::DistantExit(DistantExit {  }),
        MetaMapBuilder::CaveDecorator(CaveDecorator {  }),
    ]
}

/// The modifiers of the cavern-to-fortress transition.
pub open spec fn transition_recipe(voronoi_table: RandomTable, room_table: RandomTable) -> Seq<MetaMapBuilder> {
    seq![
        area_start(XStart::Center, YStart::Center),
        cull(),
        area_start(XStart::Left, YStart::Center),
        MetaMapBuilder::VoronoiSpawning(VoronoiSpawning { table: voronoi_table }),
        MetaMapBuilder::CaveDecorator(CaveDecorator {  }),
        MetaMapBuilder::CaveTransition(CaveTransition { table: room_table }),
        area_start(XStart::Left, YStart::Center),
        cull(),
        MetaMapBuilder::AreaEndingPosition(AreaEndingPosition { x: XEnd::Right, y: YEnd::Center }),
    ]
}

/// The modifiers of a random recipe, after a start that leaves rooms or
/// not: room starts get their rooms drawn and joined, spawns, stairs and a
/// start; other starts get, in order, optional resynthesis, an optional
/// section, a central start, culling, spawns by region and a distant exit.
/// Every recipe ends by laying the vault.
pub open spec fn random_recipe(
    rooms: bool,
    resynthesis: bool,
    section: Option<MetaMapBuilder>,
    vault: MetaMapBuilder,
    table: RandomTable,
) -> Seq<MetaMapBuilder> {
    if rooms {
        seq![
            MetaMapBuilder::RoomDrawer(RoomDrawer {  }),
            MetaMapBuilder::NearestCorridors(NearestCorridors {  }),
            MetaMapBuilder::RoomBasedSpawner(RoomBasedSpawner { table }),
            MetaMapBuilder::RoomBasedStairs(RoomBasedStairs {  }),
            MetaMapBuilder::RoomBasedStartingPosition(RoomBasedStartingPosition {  }),
            vault,
        ]
    } else {
        let placement = seq![
            area_start(XStart::Center, YStart::Center),
            cull(),
            MetaMapBuilder::VoronoiSpawning(VoronoiSpawning { table }),
            MetaMapBuilder::DistantExit(DistantExit {  }),
            vault,
        ];
        let resynth: Seq<MetaMapBuilder> = if resynthesis {
            seq![MetaMapBuilder::WaveformCollapse(WaveformCollapseBuilder { chunk_size: CHUNK_SIZE })]
        } else {
            seq![]
        };
        let sect: Seq<MetaMapBuilder> = match section {
            Some(m) => seq![m],
            None => seq![],
        };
        resynth + sect + placement
    }
}

/// The modifier lays the shrine vault.
pub open spec fn vault_modifier(m: MetaMapBuilder) -> bool {
    m matches MetaMapBuilder::Prefab(p) && is_vault_stage(p)
}

/// The modifier lays the fort section.
pub open spec fn fort_modifier(m: MetaMapBuilder) -> bool {
    m matches MetaMapBuilder::Prefab(p) && is_fort_stage(p)
}

/// The initial algorithm for a roll of `1..=5`, and whether it leaves rooms.
pub open spec fn initial_for_roll(roll: int) -> (InitialMapBuilder, bool) {
    if roll == 1 {
        (InitialMapBuilder::Simple(SimpleMapBuilder {  }), true)
    } else if roll == 2 {
        (InitialMapBuilder::CellularAutomata(CellularAutomataBuilder {  }), false)
    } else if roll == 3 {
        (
            InitialMapBuilder::DrunkardsWalk(
                DrunkardsWalkBuilder {
                    settings: DrunkardSettings {
                        spawn_mode: DrunkSpawnMode::StartingPoint,
                        drunken_lifetime: 400,
                        floor_percent: 50,
                    },
                },
            ),
            false,
        )
    } else if roll == 4 {
        (
            InitialMapBuilder::DrunkardsWalk(
                DrunkardsWalkBuilder {
                    settings: DrunkardSettings { spawn_mode: DrunkSpawnMode::Random, drunken_lifetime: 400, floor_percent: 50 },
                },
            ),
            false,
        )
    } else {
        (InitialMapBuilder::DrunkardsWalk(winding_passages_spec()), false)
    }
}

/// The limestone caverns: winding passages culled to what the centre
/// reaches, a start on the left, spawns by region, the exit farthest away,
/// and cave decoration.
pub fn limestone_cavern_builder(
    new_depth: i32,
    _rng: &mut rltk::RandomNumberGenerator,
    width: i32,
    height: i32,
    table: RandomTable,
) -> (c: BuilderChain)
    requires
        0 < width,
        0 < height,
        width * height <= MAX_TILES,
        table.wf(),
    ensures
        c.wf(),
        c.starter_view() == Some(InitialMapBuilder::DrunkardsWalk(winding_passages_spec())),
        c.modifiers() == cavern_recipe(table),
        fresh_level(c.data(), new_depth, width, height, "Limestone Caverns"@),
        *final(_rng) == *old(_rng),
{
    let mut chain = BuilderChain::new(new_depth, width, height, "Limestone Caverns");
    chain.start_with(InitialMapBuilder::DrunkardsWalk(DrunkardsWalkBuilder::winding_passages()));
    chain.with(MetaMapBuilder::AreaStartingPosition(AreaStartingPosition::new(XStart::Center, YStart::Center)));
    chain.with(MetaMapBuilder::CullUnreachable(CullUnreachable::new()));
    chain.with(MetaMapBuilder::AreaStartingPosition(AreaStartingPosition::new(XStart::Left, YStart::Center)));
    chain.with(MetaMapBuilder::VoronoiSpawning(VoronoiSpawning::new(table)));
    chain.with(MetaMapBuilder::DistantExit(DistantExit::new()));
    chain.with(MetaMapBuilder::CaveDecorator(CaveDecorator::new()));
    assert(chain.modifiers() =~= cavern_recipe(table));
    chain
}

/// A fresh state: an all-wall grid of the given size, depth and name, and
/// nothing else yet.
pub open spec fn fresh_level(d: BuilderMap, depth: i32, width: i32, height: i32, name: Seq<char>) -> bool {
    &&& d.wf()
    &&& d.width == width
    &&& d.height == height
    &&& d.map.depth == depth
    &&& d.map.name@ == name
    &&& forall|i: int| 0 <= i < d.map.tiles@.len() ==> #[trigger] d.map.tiles@[i] == TileType::Wall
    &&& d.spawn_list@.len() == 0
    &&& d.starting_position is None
    &&& d.rooms is None
    &&& d.corridors is None
    &&& d.history@.len() == 0
}

/// The transition from caverns to the fortress: a cave on the left, rooms
/// on the right, the start on the left and the exit in the middle of the
/// right third.
pub fn limestone_transition_builder(
    new_depth: i32,
    _rng: &mut rltk::RandomNumberGenerator,
    width: i32,
    height: i32,
    table: RandomTable,
) -> (c: BuilderChain)
    requires
        0 < width,
        0 < height,
        width * height <= MAX_TILES,
        table.wf(),
    ensures
        c.wf(),
        c.starter_view() == Some(InitialMapBuilder::CellularAutomata(CellularAutomataBuilder {  })),
        exists|t: RandomTable|
            t.wf() && table_view(t.entries@) == table_view(table.entries@) && c.modifiers()
                == transition_recipe(t, table),
        fresh_level(c.data(), new_depth, width, height, "Dwarf Fort - Upper Reaches"@),
        *final(_rng) == *old(_rng),
{
    let mut chain = BuilderChain::new(new_depth, width, height, "Dwarf Fort - Upper Reaches");
    chain.start_with(InitialMapBuilder::CellularAutomata(CellularAutomataBuilder::new()));
    chain.with(MetaMapBuilder::AreaStartingPosition(AreaStartingPosition::new(XStart::Center, YStart::Center)));
    chain.with(MetaMapBuilder::CullUnreachable(CullUnreachable::new()));
    chain.with(MetaMapBuilder::AreaStartingPosition(AreaStartingPosition::new(XStart::Left, YStart::Center)));
    let voronoi_table = table.copy();
    let ghost vt = voronoi_table;
    chain.with(MetaMapBuilder::VoronoiSpawning(VoronoiSpawning::new(voronoi_table)));
    chain.with(MetaMapBuilder::CaveDecorator(CaveDecorator::new()));
    chain.with(MetaMapBuilder::CaveTransition(CaveTransition::new(table)));
    chain.with(MetaMapBuilder::AreaStartingPosition(AreaStartingPosition::new(XStart::Left, YStart::Center)));
    chain.with(MetaMapBuilder::CullUnreachable(CullUnreachable::new()));
    chain.with(MetaMapBuilder::AreaEndingPosition(AreaEndingPosition::new(XEnd::Right, YEnd::Center)));
    assert(chain.modifiers() =~= transition_recipe(vt, table));
    chain
}

/// Picks an initial algorithm from a roll of `1..=5`, and whether it
/// leaves rooms behind.
pub fn initial_builder_for_roll(roll: i32) -> (r: (InitialMapBuilder, bool))
    ensures
        r == initial_for_roll(roll as int),
        initial_ok(r.0),
{
    if roll == 1 {
        (InitialMapBuilder::Simple(SimpleMapBuilder::new()), true)
    } else if roll == 2 {
        (InitialMapBuilder::CellularAutomata(CellularAutomataBuilder::new()), false)
    } else if roll == 3 {
        (InitialMapBuilder::DrunkardsWalk(DrunkardsWalkBuilder::open_area()), false)
    } else if roll == 4 {
        (InitialMapBuilder::DrunkardsWalk(DrunkardsWalkBuilder::open_halls()), false)
    } else {
        (InitialMapBuilder::DrunkardsWalk(DrunkardsWalkBuilder::winding_passages()), false)
    }
}

/// A random recipe: a roll of `1..=5` picks the initial algorithm. Starts
/// that leave rooms get them drawn and joined, spawns in the rooms, stairs
/// in the last room and the start in the first; the others are
/// resynthesized from their own chunks on one roll in three, then get a
/// central start, culling, spawns by region and the exit farthest away.
pub fn random_builder(
    new_depth: i32,
    rng: &mut rltk::RandomNumberGenerator,
    width: i32,
    height: i32,
    table: RandomTable,
) -> (c: BuilderChain)
    requires
        0 < width,
        0 < height,
        width * height <= MAX_TILES,
        table.wf(),
    ensures
        c.wf(),
        exists|roll: int, resynthesis: bool, section: Option<MetaMapBuilder>, vault: MetaMapBuilder|
            1 <= roll <= 5 && c.starter_view() == Some(initial_for_roll(roll).0) && c.modifiers()
                == #[trigger] random_recipe(initial_for_roll(roll).1, resynthesis, section, vault, table)
                && (initial_for_roll(roll).1 ==> !resynthesis && section is None) && vault_modifier(vault)
                && (section matches Some(m) ==> fort_modifier(m)),
        fresh_level(c.data(), new_depth, width, height, "New Map"@),
{
    let mut builder = BuilderChain::new(new_depth, width, height, "New Map");
    let roll = rng.roll_dice(1, 5);
    let (starter, has_rooms) = initial_builder_for_roll(roll);
    builder.start_with(starter);
    let mut resynthesis = false;
    let ghost mut section: Option<MetaMapBuilder> = None;
    if has_rooms {
        builder.with(MetaMapBuilder::RoomDrawer(RoomDrawer::new()));
        builder.with(MetaMapBuilder::NearestCorridors(NearestCorridors::new()));
        builder.with(MetaMapBuilder::RoomBasedSpawner(RoomBasedSpawner::new(table)));
        builder.with(MetaMapBuilder::RoomBasedStairs(RoomBasedStairs::new()));
        builder.with(MetaMapBuilder::RoomBasedStartingPosition(RoomBasedStartingPosition::new()));
    } else {
        if rng.roll_dice(1, 3) == 1 {
            resynthesis = true;
            builder.with(MetaMapBuilder::WaveformCollapse(WaveformCollapseBuilder::new()));
        }
        if rng.roll_dice(1, 20) == 1 {
            let fort = MetaMapBuilder::Prefab(PrefabBuilder::sectional());
            proof {
                section = Some(fort);
            }
            builder.with(fort);
        }
        builder.with(MetaMapBuilder::AreaStartingPosition(AreaStartingPosition::new(XStart::Center, YStart::Center)));
        builder.with(MetaMapBuilder::CullUnreachable(CullUnreachable::new()));
        builder.with(MetaMapBuilder::VoronoiSpawning(VoronoiSpawning::new(table)));
        builder.with(MetaMapBuilder::DistantExit(DistantExit::new()));
    }
    let vault = MetaMapBuilder::Prefab(PrefabBuilder::vaults());
    let ghost vg = vault;
    builder.with(vault);
    assert(builder.modifiers() =~= random_recipe(has_rooms, resynthesis, section, vg, table));
    assert(1 <= roll <= 5 && builder.starter_view() == Some(initial_for_roll(roll as int).0));
    builder
}

/// The recipe for a depth: the limestone caverns at depth 3, the transition
/// level at depth 5, and a random recipe at every other depth.
pub fn level_builder(
    new_depth: i32,
    rng: &mut rltk::RandomNumberGenerator,
    width: i32,
    height: i32,
    table: RandomTable,
) -> (c: BuilderChain)
    requires
        0 < width,
        0 < height,
        width * height <= MAX_TILES,
        table.wf(),
    ensures
        c.wf(),
        c.has_starter(),
        new_depth == 3 ==> c.starter_view() == Some(InitialMapBuilder::DrunkardsWalk(winding_passages_spec()))
            && c.modifiers() == cavern_recipe(table) && fresh_level(c.data(), new_depth, width, height, "Limestone Caverns"@),
        new_depth == 5 ==> c.starter_view() == Some(InitialMapBuilder::CellularAutomata(CellularAutomataBuilder {  }))
            && (exists|t: RandomTable|
            t.wf() && table_view(t.entries@) == table_view(table.entries@) && c.modifiers()
                == transition_recipe(t, table)) && fresh_level(c.data(), new_depth, width, height, "Dwarf Fort - Upper Reaches"@),
        new_depth != 3 && new_depth != 5 ==> (exists|roll: int, resynthesis: bool, section: Option<MetaMapBuilder>, vault: MetaMapBuilder|
            1 <= roll <= 5 && c.starter_view() == Some(initial_for_roll(roll).0) && c.modifiers()
                == #[trigger] random_recipe(initial_for_roll(roll).1, resynthesis, section, vault, table)
                && (initial_for_roll(roll).1 ==> !resynthesis && section is None) && vault_modifier(vault)
                && (section matches Some(m) ==> fort_modifier(m))) && fresh_level(c.data(), new_depth, width, height, "New Map"@),
{
    if new_depth == 3 {
        limestone_cavern_builder(new_depth, rng, width, height, table)
    } else if new_depth == 5 {
        limestone_transition_builder(new_depth, rng, width, height, table)
    } else {
        random_builder(new_depth, rng, width, height, table)
    }
}

/// Below the first level, the start is where the player arrives from above:
/// its tile becomes up stairs.
pub fn mark_up_stairs(build_data: &mut BuilderMap, new_depth: i32)
    requires
        old(build_data).wf(),
    ensures
        final(build_data).wf(),
        final(build_data).same_but_tiles(old(build_data)),
        new_depth > 1 && old(build_data).starting_position is Some ==> final(build_data).map.tiles@
            == old(build_data).map.tiles@.update(old(build_data).start_idx(), crate::tile_type::TileType::UpStairs),
        !(new_depth > 1 && old(build_data).starting_position is Some) ==> *final(build_data) == *old(build_data),
{
    if new_depth > 1 {
        if let Some(p) = build_data.starting_position {
            let idx = build_data.map.xy_idx(p.x, p.y);
            build_data.map.tiles.set(idx, crate::tile_type::TileType::UpStairs);
        }
    }
}

/// A limestone-cavern level, once built: every walkable cell can be walked
/// to from the start; the start is the cell that an area-based placement
/// picks in the left third and middle third of the culled grid; the exit
/// (down stairs) lies on the farthest cell that can be reached from it,
/// apart from it; and the spawn intents sit on distinct walkable cells off
/// the start.
#[verifier::rlimit(100)]
pub proof fn lemma_cavern_level(table: RandomTable, d0: BuilderMap, d1: BuilderMap)
    requires
        chain_ran(
            InitialMapBuilder::DrunkardsWalk(winding_passages_spec()),
            cavern_recipe(table),
            d0,
            d1,
            Ok(()),
        ),
        d0.spawn_list@.len() == 0,
    ensures
        d1.starting_position is Some,
        all_reachable(d1.map.tiles@, d1.width as int, d1.height as int, d1.start_idx()),
        walkable(d1.map.tiles@[d1.start_idx()]),
        exists|g: Seq<TileType>, dist: Seq<i32>, e: int|
            area_pick(g, d1.width as int, d1.height as int, 0, 1, d1.start_idx())
                && #[trigger] is_distance_map(g, d1.width as int, d1.height as int, d1.start_idx(), dist)
                && #[trigger] farthest(dist, e) && e != d1.start_idx() && d1.map.tiles@[e] == TileType::DownStairs,
        spawns_ok(d1),
{
    let st = InitialMapBuilder::DrunkardsWalk(winding_passages_spec());
    let mods = cavern_recipe(table);
    let r = Ok::<(), ChainError>(());
    let (states, k) = choose|states: Seq<BuilderMap>, k: int|
        #[trigger] stages_ran(st, mods, states, k) && states[0] == d0 && ((r is Ok && k == mods.len()
            && d1 == states[k + 1]) || (r is Err && k < mods.len() && (if r == Err::<(), ChainError>(
            ChainError::RoomsRequired,
        ) {
            d1 == states[k + 1] && needs_rooms(mods[k]) && !has_rooms(states[k + 1], mods[k])
        } else {
            meta_post(mods[k], states[k + 1], d1, r)
        })));
    assert(k == 6 && d1 == states[7]);
    assert(meta_post(mods[0], states[0int + 1], states[0int + 2], Ok(())));
    assert(meta_post(mods[1], states[1int + 1], states[1int + 2], Ok(())));
    assert(meta_post(mods[2], states[2int + 1], states[2int + 2], Ok(())));
    assert(meta_post(mods[3], states[3int + 1], states[3int + 2], Ok(())));
    assert(meta_post(mods[4], states[4int + 1], states[4int + 2], Ok(())));
    assert(meta_post(mods[5], states[5int + 1], states[5int + 2], Ok(())));
    let b3 = states[3];
    let b4 = states[4];
    let b5 = states[5];
    let b6 = states[6];
    let b7 = states[7];
    lemma_cull_step(states[2], b3);
    lemma_area_start_step(XStart::Left, YStart::Center, b3, b4);
    lemma_voronoi_step(table, b4, b5);
    lemma_exit_step(b5, b6);
    lemma_decorator_step(b6, b7);
    let w = b3.width as int;
    let h = b3.height as int;
    let g = b3.map.tiles@;
    let s = b4.start_idx();
    assert(0 <= s < g.len() && walkable(g[s]));
    lemma_any_start_reaches_all(g, w, h, b3.start_idx(), s);
    let (dist, e) = choose|dist: Seq<i32>, e: int|
        is_distance_map(g, w, h, s, dist) && farthest(dist, e) && b6.map.tiles@ == g.update(e, TileType::DownStairs);
    assert(0 <= e < g.len() && dist[e] > 0);
    assert(e != s);
    assert(walkable(g[e]));
    lemma_stairs_keep_walkability(g, e);
    lemma_connected_kept(g, b6.map.tiles@, w, h, s);
    lemma_connected_kept(b6.map.tiles@, b7.map.tiles@, w, h, s);
    assert(decorated(b6.map.tiles@[e], b7.map.tiles@[e], side_walls(b6.map.tiles@, w, h, e)));
    assert(b7.map.tiles@[e] == TileType::DownStairs);
    assert(is_distance_map(g, w, h, s, dist) && farthest(dist, e));
    lemma_spawns_to_empty(d0, states, 4);
    assert forall|k: int| 0 <= k < b6.spawn_list@.len() implies #[trigger] b6.spawn_list@[k].0 < b6.map.tiles@.len()
        && walkable(b6.map.tiles@[b6.spawn_list@[k].0 as int]) && (b6.starting_position is Some
        ==> b6.spawn_list@[k].0 != b6.start_idx()) by {
        assert(b5.spawn_list@[k].0 < b5.map.tiles@.len());
        assert(walkable(g[b5.spawn_list@[k].0 as int]));
    }
    assert forall|k: int| 0 <= k < b7.spawn_list@.len() implies #[trigger] b7.spawn_list@[k].0 < b7.map.tiles@.len()
        && walkable(b7.map.tiles@[b7.spawn_list@[k].0 as int]) && (b7.starting_position is Some
        ==> b7.spawn_list@[k].0 != b7.start_idx()) by {
        assert(walkable(b6.map.tiles@[b6.spawn_list@[k].0 as int]));
    }
}

proof fn lemma_cull_step(b0: BuilderMap, b1: BuilderMap)
    requires
        meta_post(cull(), b0, b1, Ok(())),
    ensures
        b1.wf(),
        b1.starting_position is Some,
        all_reachable(b1.map.tiles@, b1.width as int, b1.height as int, b1.start_idx()),
        b1.spawn_list == b0.spawn_list,
{
    reveal(meta_post);
}

proof fn lemma_area_start_step(x: XStart, y: YStart, b0: BuilderMap, b1: BuilderMap)
    requires
        meta_post(area_start(x, y), b0, b1, Ok(())),
    ensures
        b1.wf(),
        b1.starting_position is Some,
        area_pick(b0.map.tiles@, b0.width as int, b0.height as int, x_third(x), y_third(y), b1.start_idx()),
        b1.map == b0.map,
        b1.spawn_list == b0.spawn_list,
        b1.width == b0.width,
        b1.height == b0.height,
{
    reveal(meta_post);
}

proof fn lemma_voronoi_step(table: RandomTable, b0: BuilderMap, b1: BuilderMap)
    requires
        meta_post(MetaMapBuilder::VoronoiSpawning(VoronoiSpawning { table }), b0, b1, Ok(())),
    ensures
        b1.wf(),
        b1.map == b0.map,
        b1.starting_position == b0.starting_position,
        b1.width == b0.width,
        b1.height == b0.height,
        spawns_ok(b0) ==> spawns_ok(b1),
{
    reveal(meta_post);
}

proof fn lemma_exit_step(b0: BuilderMap, b1: BuilderMap)
    requires
        meta_post(MetaMapBuilder::DistantExit(DistantExit {  }), b0, b1, Ok(())),
    ensures
        b1.wf(),
        b0.starting_position is Some,
        exists|dist: Seq<i32>, e: int|
            is_distance_map(b0.map.tiles@, b0.width as int, b0.height as int, b0.start_idx(), dist)
                && farthest(dist, e) && b1.map.tiles@ == b0.map.tiles@.update(e, TileType::DownStairs),
        b1.same_but_tiles(&b0),
{
    reveal(meta_post);
}

proof fn lemma_decorator_step(b0: BuilderMap, b1: BuilderMap)
    requires
        meta_post(MetaMapBuilder::CaveDecorator(CaveDecorator {  }), b0, b1, Ok(())),
    ensures
        b1.wf(),
        forall|i: int|
            0 <= i < b1.map.tiles@.len() ==> decorated(
                b0.map.tiles@[i],
                #[trigger] b1.map.tiles@[i],
                side_walls(b0.map.tiles@, b0.width as int, b0.height as int, i),
            ),
        forall|i: int|
            0 <= i < b1.map.tiles@.len() ==> walkable(#[trigger] b1.map.tiles@[i]) == walkable(b0.map.tiles@[i]),
        b1.map.tiles@.len() == b0.map.tiles@.len(),
        b1.spawn_list == b0.spawn_list,
        b1.starting_position == b0.starting_position,
        b1.width == b0.width,
        b1.height == b0.height,
{
    reveal(meta_post);
}

/// No stage before the spawner of the cavern recipe adds spawn intents.
proof fn lemma_spawns_to_empty(d0: BuilderMap, states: Seq<BuilderMap>, k: int)
    requires
        states.len() == 8,
        states[0] == d0,
        d0.spawn_list@.len() == 0,
        initial_post(InitialMapBuilder::DrunkardsWalk(winding_passages_spec()), states[0], states[1]),
        meta_post(area_start(XStart::Center, YStart::Center), states[1], states[2], Ok(())),
        meta_post(cull(), states[2], states[3], Ok(())),
        meta_post(area_start(XStart::Left, YStart::Center), states[3], states[4], Ok(())),
        k == 4,
    ensures
        states[k].spawn_list@.len() == 0,
        spawns_ok(states[k]),
{
    reveal(initial_post);
    reveal(meta_post);
}

/// A resynthesis stage in a recipe, run on a grid of one tile type, leaves
/// the tiles as they were, whether it resynthesized or fell back.
pub proof fn lemma_resynthesis_stage_keeps_uniform(
    s: WaveformCollapseBuilder,
    b0: BuilderMap,
    b1: BuilderMap,
    tile: TileType,
)
    requires
        b0.wf(),
        s.chunk_size >= 1,
        meta_post(MetaMapBuilder::WaveformCollapse(s), b0, b1, Ok(())),
        forall|i: int| 0 <= i < b0.map.tiles@.len() ==> #[trigger] b0.map.tiles@[i] == tile,
    ensures
        b1.map.tiles@ == b0.map.tiles@,
        b1.width == b0.width,
        b1.height == b0.height,
{
    reveal(meta_post);
    if b1 != b0 {
        let (patterns, assign) = choose|patterns: Seq<Seq<TileType>>, assign: Seq<int>|
            sampled_from(b0.map.tiles@, b0.width as int, b0.height as int, s.chunk_size as int, patterns)
                && assignment_ok(
                assign,
                chunk_cols(b0.width as int, s.chunk_size as int) * chunk_rows(b0.height as int, s.chunk_size as int),
                patterns.len() as int,
            ) && b1.map.tiles@ == resynthesized(
                b0.map.tiles@,
                b0.width as int,
                b0.height as int,
                s.chunk_size as int,
                patterns,
                assign,
            ) && chunks_fit(
                patterns,
                assign,
                chunk_cols(b0.width as int, s.chunk_size as int),
                chunk_cols(b0.width as int, s.chunk_size as int) * chunk_rows(b0.height as int, s.chunk_size as int),
                s.chunk_size as int,
            );
        lemma_uniform_grid_kept(
            b0.map.tiles@,
            b0.width as int,
            b0.height as int,
            s.chunk_size as int,
            patterns,
            assign,
            tile,
        );
    }
}

/// A level from a random recipe whose start leaves no rooms, once built:
/// every walkable cell can be walked to from the start; the exit (down
/// stairs) lies on the first farthest cell reachable from it in the grid
/// before the exit and vault, apart from it; and the spawn intents sit on
/// distinct walkable cells off the start.
#[verifier::rlimit(100)]
pub proof fn lemma_open_random_level(
    st: InitialMapBuilder,
    resynthesis: bool,
    section: Option<MetaMapBuilder>,
    vault: MetaMapBuilder,
    table: RandomTable,
    d0: BuilderMap,
    d1: BuilderMap,
)
    requires
        chain_ran(st, random_recipe(false, resynthesis, section, vault, table), d0, d1, Ok(())),
        vault_modifier(vault),
        section matches Some(m) ==> fort_modifier(m),
        d0.spawn_list@.len() == 0,
    ensures
        d1.starting_position is Some,
        all_reachable(d1.map.tiles@, d1.width as int, d1.height as int, d1.start_idx()),
        walkable(d1.map.tiles@[d1.start_idx()]),
        exists|g: Seq<TileType>, dist: Seq<i32>, e: int|
            #[trigger] is_distance_map(g, d1.width as int, d1.height as int, d1.start_idx(), dist)
                && #[trigger] farthest(dist, e) && e != d1.start_idx() && d1.map.tiles@[e] == TileType::DownStairs,
        spawns_ok(d1),
{
    let mods = random_recipe(false, resynthesis, section, vault, table);
    let r = Ok::<(), ChainError>(());
    let (states, k) = choose|states: Seq<BuilderMap>, k: int|
        #[trigger] stages_ran(st, mods, states, k) && states[0] == d0 && ((r is Ok && k == mods.len()
            && d1 == states[k + 1]) || (r is Err && k < mods.len() && (if r == Err::<(), ChainError>(
            ChainError::RoomsRequired,
        ) {
            d1 == states[k + 1] && needs_rooms(mods[k]) && !has_rooms(states[k + 1], mods[k])
        } else {
            meta_post(mods[k], states[k + 1], d1, r)
        })));
    let a: int = if resynthesis { 1 } else { 0 };
    let o: int = a + if section is Some { 1int } else { 0 };
    assert(mods.len() == o + 5);
    assert(k == o + 5 && d1 == states[o + 6]);
    // spawn intents: none until the spawner
    lemma_initial_keeps_spawns(st, states[0], states[1]);
    if resynthesis {
        assert(mods[0] == MetaMapBuilder::WaveformCollapse(WaveformCollapseBuilder { chunk_size: CHUNK_SIZE }));
        lemma_stage_at(st, mods, states, k, 0);
        lemma_resynthesis_spawns(WaveformCollapseBuilder { chunk_size: CHUNK_SIZE }, states[1], states[2]);
    }
    if section is Some {
        let m = section.unwrap();
        assert(mods[a] == m);
        lemma_stage_at(st, mods, states, k, a);
        lemma_section_spawns(m, states[a + 1], states[a + 2]);
    }
    assert(states[o + 1].spawn_list@.len() == 0);
    assert(mods[o] == area_start(XStart::Center, YStart::Center));
    assert(mods[o + 1] == cull());
    assert(mods[o + 2] == MetaMapBuilder::VoronoiSpawning(VoronoiSpawning { table }));
    assert(mods[o + 3] == MetaMapBuilder::DistantExit(DistantExit {  }));
    assert(mods[o + 4] == vault);
    lemma_stage_at(st, mods, states, k, o);
    lemma_stage_at(st, mods, states, k, o + 1);
    lemma_stage_at(st, mods, states, k, o + 2);
    lemma_stage_at(st, mods, states, k, o + 3);
    lemma_stage_at(st, mods, states, k, o + 4);
    let b2 = states[o + 2];
    let b3 = states[o + 3];
    let b4 = states[o + 4];
    let b5 = states[o + 5];
    let b6 = states[o + 6];
    lemma_area_start_step(XStart::Center, YStart::Center, states[o + 1], b2);
    lemma_cull_step(b2, b3);
    lemma_voronoi_step(table, b3, b4);
    lemma_exit_step(b4, b5);
    lemma_vault_step(vault, b5, b6);
    let w = b3.width as int;
    let h = b3.height as int;
    let g = b3.map.tiles@;
    let s = b3.start_idx();
    assert(b4.map == b3.map);
    assert(b4.start_idx() == s);
    let (dist, e) = choose|dist: Seq<i32>, e: int|
        is_distance_map(g, w, h, s, dist) && farthest(dist, e) && b5.map.tiles@ == g.update(e, TileType::DownStairs);
    assert(0 <= e < g.len() && dist[e] > 0);
    assert(e != s);
    assert(walkable(g[e]));
    lemma_stairs_keep_walkability(g, e);
    lemma_connected_kept(g, b5.map.tiles@, w, h, s);
    lemma_connected_kept(b5.map.tiles@, b6.map.tiles@, w, h, s);
    assert(b5.map.tiles@[e] == TileType::DownStairs);
    assert(b6.map.tiles@[e] == TileType::DownStairs);
    assert(is_distance_map(g, w, h, s, dist) && farthest(dist, e));
    assert(spawns_ok(b3));
    assert(spawns_ok(b4));
    assert forall|q: int| 0 <= q < b5.spawn_list@.len() implies #[trigger] b5.spawn_list@[q].0 < b5.map.tiles@.len()
        && walkable(b5.map.tiles@[b5.spawn_list@[q].0 as int]) && (b5.starting_position is Some
        ==> b5.spawn_list@[q].0 != b5.start_idx()) by {
        assert(b4.spawn_list@[q].0 < b4.map.tiles@.len());
        assert(walkable(g[b4.spawn_list@[q].0 as int]));
    }
    assert forall|q: int| 0 <= q < b6.spawn_list@.len() implies #[trigger] b6.spawn_list@[q].0 < b6.map.tiles@.len()
        && walkable(b6.map.tiles@[b6.spawn_list@[q].0 as int]) && (b6.starting_position is Some
        ==> b6.spawn_list@[q].0 != b6.start_idx()) by {
        assert(walkable(b5.map.tiles@[b5.spawn_list@[q].0 as int]));
    }
}

proof fn lemma_stage_at(st: InitialMapBuilder, mods: Seq<MetaMapBuilder>, states: Seq<BuilderMap>, k: int, i: int)
    requires
        stages_ran(st, mods, states, k),
        0 <= i < k,
    ensures
        meta_post(mods[i], states[i + 1], states[i + 2], Ok(())),
        states.len() == k + 2,
{
}

proof fn lemma_initial_keeps_spawns(st: InitialMapBuilder, b0: BuilderMap, b1: BuilderMap)
    requires
        initial_post(st, b0, b1),
    ensures
        b1.spawn_list == b0.spawn_list,
        b1.wf(),
{
    reveal(initial_post);
}

proof fn lemma_resynthesis_spawns(s: WaveformCollapseBuilder, b0: BuilderMap, b1: BuilderMap)
    requires
        meta_post(MetaMapBuilder::WaveformCollapse(s), b0, b1, Ok(())),
        b0.spawn_list@.len() == 0,
    ensures
        b1.spawn_list@.len() == 0,
{
    reveal(meta_post);
}

proof fn lemma_section_spawns(m: MetaMapBuilder, b0: BuilderMap, b1: BuilderMap)
    requires
        fort_modifier(m),
        meta_post(m, b0, b1, Ok(())),
        b0.spawn_list@.len() == 0,
    ensures
        b1.spawn_list@.len() == 0,
{
    reveal(meta_post);
    reveal_with_fuel(Seq::filter, 1);
}

proof fn lemma_vault_step(m: MetaMapBuilder, b0: BuilderMap, b1: BuilderMap)
    requires
        vault_modifier(m),
        meta_post(m, b0, b1, Ok(())),
    ensures
        b1.wf(),
        b1.spawn_list == b0.spawn_list,
        b1.starting_position == b0.starting_position,
        b1.rooms == b0.rooms,
        b1.width == b0.width,
        b1.height == b0.height,
        b1.map.tiles@.len() == b0.map.tiles@.len(),
        forall|i: int| 0 <= i < b1.map.tiles@.len() ==> walkable(#[trigger] b1.map.tiles@[i]) == walkable(b0.map.tiles@[i]),
        forall|i: int| 0 <= i < b1.map.tiles@.len() && b0.map.tiles@[i] != TileType::Floor ==> #[trigger] b1.map.tiles@[i] == b0.map.tiles@[i],
{
    reveal(meta_post);
    let p = m->Prefab_0;
    assert(p.prefab.wf() && p.prefab.all_walkable()) by {
        assert(p.prefab.tiles@ == shrine_tiles());
        assert forall|k: int| 0 <= k < p.prefab.tiles@.len() implies walkable(#[trigger] p.prefab.tiles@[k]) by {
            assert(p.prefab.tiles@[k] == TileType::Gravel || p.prefab.tiles@[k] == TileType::ShallowWater);
        }
    }
    let w = b0.width as int;
    assert forall|i: int| 0 <= i < b1.map.tiles@.len() && b0.map.tiles@[i] != TileType::Floor implies #[trigger] b1.map.tiles@[i]
        == b0.map.tiles@[i] by {
        if exists|c: int| #[trigger] first_vault_corner(b0, 3, 3, c) {
            let c = choose|c: int| #[trigger] first_vault_corner(b0, 3, 3, c);
            if under(w, c % w, c / w, 3, 3, i) {
                assert(crate::prefab_builder::cell_free(b0, i));
            }
        }
    }
}

/// A recipe that resynthesizes what its initial algorithm built: the
/// resynthesis stage either leaves that exemplar as it was or replaces it by
/// a consistent tiling of its own chunks, and an exemplar of one tile type
/// comes back unchanged.
pub proof fn lemma_resynthesis_recipe(
    st: InitialMapBuilder,
    s: WaveformCollapseBuilder,
    d0: BuilderMap,
    d1: BuilderMap,
    tile: TileType,
)
    requires
        chain_ran(st, seq![MetaMapBuilder::WaveformCollapse(s)], d0, d1, Ok(())),
        s.chunk_size >= 1,
    ensures
        exists|e: BuilderMap|
            #[trigger] initial_post(st, d0, e) && meta_post(MetaMapBuilder::WaveformCollapse(s), e, d1, Ok(()))
                && ((forall|i: int| 0 <= i < e.map.tiles@.len() ==> #[trigger] e.map.tiles@[i] == tile)
                ==> d1.map.tiles@ == e.map.tiles@),
{
    let mods = seq![MetaMapBuilder::WaveformCollapse(s)];
    let r = Ok::<(), ChainError>(());
    let (states, k) = choose|states: Seq<BuilderMap>, k: int|
        #[trigger] stages_ran(st, mods, states, k) && states[0] == d0 && ((r is Ok && k == mods.len()
            && d1 == states[k + 1]) || (r is Err && k < mods.len() && (if r == Err::<(), ChainError>(
            ChainError::RoomsRequired,
        ) {
            d1 == states[k + 1] && needs_rooms(mods[k]) && !has_rooms(states[k + 1], mods[k])
        } else {
            meta_post(mods[k], states[k + 1], d1, r)
        })));
    assert(k == 1 && d1 == states[2]);
    lemma_stage_at(st, mods, states, k, 0);
    let e = states[1];
    lemma_initial_keeps_spawns(st, d0, e);
    if forall|i: int| 0 <= i < e.map.tiles@.len() ==> #[trigger] e.map.tiles@[i] == tile {
        lemma_resynthesis_stage_keeps_uniform(s, e, d1, tile);
    }
    assert(initial_post(st, d0, e));
}

/// A level from a random recipe whose start leaves rooms, once built with
/// at least two rooms: the start, at the centre of the first room, is
/// walkable, and the exit (down stairs, at the centre of the last room) lies
/// elsewhere.
#[verifier::rlimit(100)]
pub proof fn lemma_room_random_level(
    vault: MetaMapBuilder,
    table: RandomTable,
    d0: BuilderMap,
    d1: BuilderMap,
)
    requires
        chain_ran(
            InitialMapBuilder::Simple(SimpleMapBuilder {  }),
            random_recipe(true, false, None, vault, table),
            d0,
            d1,
            Ok(()),
        ),
        vault_modifier(vault),
        d1.rooms matches Some(v) && v@.len() >= 2,
    ensures
        d1.starting_position is Some,
        walkable(d1.map.tiles@[d1.start_idx()]),
        exists|e: int| 0 <= e < d1.map.tiles@.len() && e != d1.start_idx() && #[trigger] d1.map.tiles@[e] == TileType::DownStairs,
{
    let st = InitialMapBuilder::Simple(SimpleMapBuilder {  });
    let mods = random_recipe(true, false, None, vault, table);
    let r = Ok::<(), ChainError>(());
    let (states, k) = choose|states: Seq<BuilderMap>, k: int|
        #[trigger] stages_ran(st, mods, states, k) && states[0] == d0 && ((r is Ok && k == mods.len()
            && d1 == states[k + 1]) || (r is Err && k < mods.len() && (if r == Err::<(), ChainError>(
            ChainError::RoomsRequired,
        ) {
            d1 == states[k + 1] && needs_rooms(mods[k]) && !has_rooms(states[k + 1], mods[k])
        } else {
            meta_post(mods[k], states[k + 1], d1, r)
        })));
    assert(k == 6 && d1 == states[7]);
    let b1 = states[1];
    lemma_simple_step(d0, b1);
    lemma_stage_at(st, mods, states, k, 0);
    lemma_stage_at(st, mods, states, k, 1);
    lemma_stage_at(st, mods, states, k, 2);
    lemma_stage_at(st, mods, states, k, 3);
    lemma_stage_at(st, mods, states, k, 4);
    lemma_stage_at(st, mods, states, k, 5);
    let b2 = states[2];
    let b3 = states[3];
    let b4 = states[4];
    let b5 = states[5];
    let b6 = states[6];
    let b7 = states[7];
    lemma_rooms_steps(table, b1, b2, b3, b4, b5, b6);
    lemma_vault_step(vault, b6, b7);
    let v = b1.rooms.unwrap()@;
    let w = b1.width as int;
    let h = b1.height as int;
    assert(v.len() >= 2);
    assert(rect_in(w, h, v[0]) && room_sized(v[0]));
    assert(rect_in(w, h, v[v.len() - 1]) && room_sized(v[v.len() - 1]));
    let first = v[0];
    let last = v[v.len() - 1];
    assert(rect_in(w, h, first) && rect_in(w, h, last));
    assert(room_sized(first) && room_sized(last));
    assert(!overlaps(v[0], v[v.len() - 1]));
    let s = center_y(first) * w + center_x(first);
    let e = center_y(last) * w + center_x(last);
    crate::grid::lemma_index_of(w, h, center_x(first), center_y(first));
    crate::grid::lemma_index_of(w, h, center_x(last), center_y(last));
    assert(s != e);
    // the first room's centre is carved floor, kept by the corridors
    assert(in_room(first, center_x(first), center_y(first)));
    assert(b2.map.tiles@[s] == TileType::Floor);
    assert(b3.map.tiles@[s] == TileType::Floor);
    assert(b4.map.tiles@[s] == TileType::Floor);
    assert(pos_idx(b4.width as int, Position { x: center_x(last) as i32, y: center_y(last) as i32 }) == e);
    assert(b5.map.tiles@[s] == TileType::Floor);
    assert(b6.map.tiles@[s] == TileType::Floor);
    assert(b6.map.tiles@[e] == TileType::DownStairs);
    assert(d1.start_idx() == s);
    assert(d1.map.tiles@[e] == TileType::DownStairs);
}

proof fn lemma_simple_step(b0: BuilderMap, b1: BuilderMap)
    requires
        initial_post(InitialMapBuilder::Simple(SimpleMapBuilder {  }), b0, b1),
    ensures
        b1.wf(),
        b1.rooms matches Some(v) && rooms_apart(v@) && forall|k: int| 0 <= k < v@.len() ==> room_sized(#[trigger] v@[k]),
{
    reveal(initial_post);
}

/// The five room stages of the random room recipe.
proof fn lemma_rooms_steps(table: RandomTable, b1: BuilderMap, b2: BuilderMap, b3: BuilderMap, b4: BuilderMap, b5: BuilderMap, b6: BuilderMap)
    requires
        b1.wf(),
        meta_post(MetaMapBuilder::RoomDrawer(RoomDrawer {  }), b1, b2, Ok(())),
        meta_post(MetaMapBuilder::NearestCorridors(NearestCorridors {  }), b2, b3, Ok(())),
        meta_post(MetaMapBuilder::RoomBasedSpawner(RoomBasedSpawner { table }), b3, b4, Ok(())),
        meta_post(MetaMapBuilder::RoomBasedStairs(RoomBasedStairs {  }), b4, b5, Ok(())),
        meta_post(MetaMapBuilder::RoomBasedStartingPosition(RoomBasedStartingPosition {  }), b5, b6, Ok(())),
    ensures
        b6.wf(),
        b2.map.tiles@ == rooms_carved(b1.map.tiles@, b1.width as int, b1.rooms.unwrap()@),
        b6.rooms == b1.rooms,
        b6.width == b1.width,
        b6.height == b1.height,
        b2.width == b1.width,
        b2.map.tiles@.len() == b1.map.tiles@.len(),
        b3.map.tiles@.len() == b2.map.tiles@.len(),
        forall|c: int| 0 <= c < b2.map.tiles@.len() && b2.map.tiles@[c] == TileType::Floor ==> #[trigger] b3.map.tiles@[c] == TileType::Floor,
        b4.map == b3.map,
        b1.rooms matches Some(v) && v@.len() > 0 ==> ({
            let v = b1.rooms.unwrap()@;
            let last = v[v.len() - 1];
            let first = v[0];
            &&& b5.map.tiles@ == b4.map.tiles@.update(
                pos_idx(b4.width as int, Position { x: center_x(last) as i32, y: center_y(last) as i32 }),
                TileType::DownStairs,
            )
            &&& b6.starting_position == Some(Position { x: center_x(first) as i32, y: center_y(first) as i32 })
            &&& b6.map == b5.map
        }),
        b4.width == b1.width,
{
    reveal(meta_post);
    let v = b2.rooms.unwrap()@;
    let w = b2.width as int;
    let targets = choose|targets: Seq<int>|
        #![trigger dug_corridors(b2.map.tiles@, w, v, targets, targets.len())]
        targets.len() == (if v.len() == 0 { 0 } else { v.len() - 1 })
            && (forall|i: int| 0 <= i < targets.len() ==> is_nearest(v, i, #[trigger] targets[i]))
            && b3.map.tiles@ == dug_corridors(b2.map.tiles@, w, v, targets, targets.len())
            && (forall|i: int, c: int|
            0 <= i < targets.len() && 0 <= c < b3.map.tiles@.len() && #[trigger] on_corridor(
                center_x(v[i]),
                center_y(v[i]),
                center_x(v[targets[i]]),
                center_y(v[targets[i]]),
                c % w,
                c / w,
            ) ==> b3.map.tiles@[c] == TileType::Floor)
            && (forall|i: int| 0 <= i < targets.len() ==> #[trigger] joins(
            b2.map.tiles@,
            w,
            v,
            targets,
            b3.corridors.unwrap()@[i]@,
            i,
        ));
    assert forall|c: int| 0 <= c < b2.map.tiles@.len() && b2.map.tiles@[c] == TileType::Floor implies #[trigger] b3.map.tiles@[c] == TileType::Floor by {
        crate::connectivity::lemma_dug_keeps_floor(b2.map.tiles@, w, v, targets, targets.len(), c);
    }
}

/// A room recipe with no corridor stage (rooms scattered and carved,
/// spawns in the rooms, the start in the first room) runs through, with
/// the spawner placing its intents, yet leaves its rooms cut off from each
/// other: no walk leads from one room's centre to another's.
pub proof fn lemma_rooms_without_corridors(table: RandomTable, d0: BuilderMap, d1: BuilderMap)
    requires
        chain_ran(
            InitialMapBuilder::Simple(SimpleMapBuilder {  }),
            seq![
                MetaMapBuilder::RoomDrawer(RoomDrawer {  }),
                MetaMapBuilder::RoomBasedSpawner(RoomBasedSpawner { table }),
                MetaMapBuilder::RoomBasedStartingPosition(RoomBasedStartingPosition {  }),
            ],
            d0,
            d1,
            Ok(()),
        ),
        d0.wf(),
        forall|c: int| 0 <= c < d0.map.tiles@.len() ==> #[trigger] d0.map.tiles@[c] == TileType::Wall,
    ensures
        d1.rooms matches Some(v) && forall|i: int, j: int|
            0 <= i < v@.len() && 0 <= j < v@.len() && i != j ==> !reachable(
                d1.map.tiles@,
                d1.width as int,
                d1.height as int,
                #[trigger] center_idx(d1.width as int, v@[i]),
                #[trigger] center_idx(d1.width as int, v@[j]),
            ),
        d1.starting_position is Some,
{
    let st = InitialMapBuilder::Simple(SimpleMapBuilder {  });
    let mods = seq![
        MetaMapBuilder::RoomDrawer(RoomDrawer {  }),
        MetaMapBuilder::RoomBasedSpawner(RoomBasedSpawner { table }),
        MetaMapBuilder::RoomBasedStartingPosition(RoomBasedStartingPosition {  }),
    ];
    let r = Ok::<(), ChainError>(());
    let (states, k) = choose|states: Seq<BuilderMap>, k: int|
        #[trigger] stages_ran(st, mods, states, k) && states[0] == d0 && ((r is Ok && k == mods.len()
            && d1 == states[k + 1]) || (r is Err && k < mods.len() && (if r == Err::<(), ChainError>(
            ChainError::RoomsRequired,
        ) {
            d1 == states[k + 1] && needs_rooms(mods[k]) && !has_rooms(states[k + 1], mods[k])
        } else {
            meta_post(mods[k], states[k + 1], d1, r)
        })));
    assert(k == 3 && d1 == states[4]);
    lemma_stage_at(st, mods, states, k, 0);
    lemma_stage_at(st, mods, states, k, 1);
    lemma_stage_at(st, mods, states, k, 2);
    lemma_unjoined_steps(table, d0, states[1], states[2], states[3], states[4]);
    let b1 = states[1];
    let v = b1.rooms.unwrap()@;
    let w = b1.width as int;
    let h = b1.height as int;
    assert forall|i: int, j: int|
        0 <= i < v.len() && 0 <= j < v.len() && i != j implies !reachable(
            d1.map.tiles@,
            d1.width as int,
            d1.height as int,
            #[trigger] center_idx(d1.width as int, v[i]),
            #[trigger] center_idx(d1.width as int, v[j]),
        ) by {
        assert forall|q: int| 0 <= q < v.len() implies rect_in(w, h, #[trigger] v[q]) && roomy(v[q]) by {
            assert(rect_in(w, h, v[q]) && room_sized(v[q]));
        }
        lemma_unjoined_rooms_apart(d0.map.tiles@, w, h, v, i, j);
    }
}

proof fn lemma_unjoined_steps(table: RandomTable, b0: BuilderMap, b1: BuilderMap, b2: BuilderMap, b3: BuilderMap, b4: BuilderMap)
    requires
        initial_post(InitialMapBuilder::Simple(SimpleMapBuilder {  }), b0, b1),
        meta_post(MetaMapBuilder::RoomDrawer(RoomDrawer {  }), b1, b2, Ok(())),
        meta_post(MetaMapBuilder::RoomBasedSpawner(RoomBasedSpawner { table }), b2, b3, Ok(())),
        meta_post(MetaMapBuilder::RoomBasedStartingPosition(RoomBasedStartingPosition {  }), b3, b4, Ok(())),
    ensures
        b1.wf(),
        b1.map == b0.map,
        b1.rooms matches Some(v) && rooms_apart(v@) && forall|k: int| 0 <= k < v@.len() ==> room_sized(#[trigger] v@[k]),
        b4.map.tiles@ == rooms_carved(b0.map.tiles@, b1.width as int, b1.rooms.unwrap()@),
        b4.rooms == b1.rooms,
        b4.width == b1.width,
        b4.height == b1.height,
        b4.starting_position is Some,
{
    reveal(initial_post);
    reveal(meta_post);
}

} // verus!
