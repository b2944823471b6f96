use dungeon_gen::area_based::{
    find_area_tile, start_index, AreaEndingPosition, AreaStartingPosition, CullUnreachable,
    DistantExit, XEnd, XStart, YEnd, YStart,
};
use dungeon_gen::builder_map::{BuilderMap, ChainError, Position};
use dungeon_gen::cellular_automata::CellularAutomataBuilder;
use dungeon_gen::drunkard::{count_floor, DrunkardsWalkBuilder};
use dungeon_gen::limestone_cavern::{CaveDecorator, CaveTransition};
use dungeon_gen::reach::distance_map;
use dungeon_gen::rect::Rect;
use dungeon_gen::room_based::{
    rooms_from_draws,
    add_room_if_apart, draw_corridor, NearestCorridors, RoomBasedStairs,
    RoomBasedStartingPosition, RoomDrawer, SimpleMapBuilder,
};
use dungeon_gen::tile_type::{is_tile_walkable, TileType};
use rltk::RandomNumberGenerator;

fn set_floor(b: &mut BuilderMap, cells: &[(i32, i32)]) {
    for &(x, y) in cells {
        let idx = b.map.xy_idx(x, y);
        b.map.tiles[idx] = TileType::Floor;
    }
}

fn two_islands() -> BuilderMap {
    // 8 wide, 3 high: floor at columns 1..=2 and 5..=6 of row 1
    let mut b = BuilderMap::new(1, 8, 3, "islands");
    set_floor(&mut b, &[(1, 1), (2, 1), (5, 1), (6, 1)]);
    b
}

#[test]
fn cull_removes_unreachable_floor() {
    let mut b = two_islands();
    b.starting_position = Some(Position { x: 1, y: 1 });
    let mut c = CullUnreachable::new();
    assert_eq!(c.build(&mut b), Ok(()));
    assert_eq!(b.map.tiles[9], TileType::Floor);
    assert_eq!(b.map.tiles[10], TileType::Floor);
    assert_eq!(b.map.tiles[13], TileType::Wall);
    assert_eq!(b.map.tiles[14], TileType::Wall);
}

#[test]
fn cull_needs_a_walkable_start() {
    let mut b = two_islands();
    let mut c = CullUnreachable::new();
    assert_eq!(c.build(&mut b), Err(ChainError::NoStartingPosition));
    b.starting_position = Some(Position { x: 0, y: 0 });
    assert_eq!(c.build(&mut b), Err(ChainError::StartNotWalkable));
    assert_eq!(b.map.tiles[13], TileType::Floor);
}

#[test]
fn start_index_checks_the_start() {
    let mut b = two_islands();
    b.starting_position = Some(Position { x: 2, y: 1 });
    assert_eq!(start_index(&b), Ok(10));
}

#[test]
fn area_start_takes_first_walkable_in_region() {
    // 9 wide, 9 high; floor at (7,1) and (1,4), (2,4)
    let mut b = BuilderMap::new(1, 9, 9, "area");
    set_floor(&mut b, &[(7, 1), (2, 4), (1, 4)]);
    let s = AreaStartingPosition::new(XStart::Left, YStart::Center);
    assert_eq!(s.build(&mut b), Ok(()));
    assert_eq!(b.starting_position, Some(Position { x: 1, y: 4 }));
    assert_eq!(find_area_tile(&b.map, 2, 0), Some(16));
}

#[test]
fn area_start_falls_back_to_first_walkable() {
    let mut b = BuilderMap::new(1, 9, 9, "area");
    set_floor(&mut b, &[(7, 1)]);
    let s = AreaStartingPosition::new(XStart::Left, YStart::Bottom);
    assert_eq!(s.build(&mut b), Ok(()));
    assert_eq!(b.starting_position, Some(Position { x: 7, y: 1 }));
}

#[test]
fn area_start_without_floor_fails() {
    let mut b = BuilderMap::new(1, 9, 9, "area");
    let s = AreaStartingPosition::new(XStart::Center, YStart::Center);
    assert_eq!(s.build(&mut b), Err(ChainError::NoWalkableTile));
    assert_eq!(b.starting_position, None);
}

#[test]
fn area_ending_places_stairs() {
    let mut b = BuilderMap::new(1, 9, 9, "end");
    set_floor(&mut b, &[(1, 1), (7, 4), (8, 4)]);
    let e = AreaEndingPosition::new(XEnd::Right, YEnd::Center);
    assert_eq!(e.build(&mut b), Ok(()));
    assert_eq!(b.map.tiles[43], TileType::DownStairs);
    assert_eq!(b.map.tiles[44], TileType::Floor);
}

#[test]
fn distant_exit_is_farthest_and_distinct() {
    let mut b = two_islands();
    set_floor(&mut b, &[(3, 1), (4, 1)]);
    b.starting_position = Some(Position { x: 1, y: 1 });
    let mut d = DistantExit::new();
    assert_eq!(d.build(&mut b), Ok(()));
    assert_eq!(b.map.tiles[14], TileType::DownStairs);
    assert_eq!(b.map.tiles[9], TileType::Floor);
    assert_eq!(b.map.tiles.iter().filter(|t| **t == TileType::DownStairs).count(), 1);
}

#[test]
fn distant_exit_first_of_equal_distance() {
    // start in the middle of a 5-cell row: both ends are two steps away
    let mut b = BuilderMap::new(1, 7, 3, "tie");
    set_floor(&mut b, &[(1, 1), (2, 1), (3, 1), (4, 1), (5, 1)]);
    b.starting_position = Some(Position { x: 3, y: 1 });
    let mut d = DistantExit::new();
    assert_eq!(d.build(&mut b), Ok(()));
    assert_eq!(b.map.tiles[8], TileType::DownStairs);
    assert_eq!(b.map.tiles[12], TileType::Floor);
}

#[test]
fn distant_exit_needs_another_reachable_tile() {
    let mut b = BuilderMap::new(1, 5, 5, "lonely");
    set_floor(&mut b, &[(2, 2)]);
    b.starting_position = Some(Position { x: 2, y: 2 });
    let mut d = DistantExit::new();
    assert_eq!(d.build(&mut b), Err(ChainError::NoExitTile));
    assert_eq!(b.map.tiles[12], TileType::Floor);
}

#[test]
fn automata_pass_on_an_open_square() {
    // 5 by 5, border wall, 3 by 3 floor inside
    let mut b = BuilderMap::new(1, 5, 5, "ca");
    for y in 1..4 {
        for x in 1..4 {
            set_floor(&mut b, &[(x, y)]);
        }
    }
    let mut ca = CellularAutomataBuilder::new();
    ca.apply_iteration(&mut b);
    let at = |b: &BuilderMap, x: i32, y: i32| b.map.tiles[(y * 5 + x) as usize];
    // corners see five walls, edge middles three, the centre none
    assert_eq!(at(&b, 1, 1), TileType::Wall);
    assert_eq!(at(&b, 3, 3), TileType::Wall);
    assert_eq!(at(&b, 2, 1), TileType::Floor);
    assert_eq!(at(&b, 1, 2), TileType::Floor);
    assert_eq!(at(&b, 2, 2), TileType::Wall);
    assert_eq!(at(&b, 0, 0), TileType::Wall);
}

#[test]
fn automata_seed_from_rolls() {
    // all rolls high: every interior cell is seeded floor, then smoothed
    let mut a = BuilderMap::new(1, 12, 10, "ca");
    let mut b = BuilderMap::new(1, 12, 10, "ca");
    let rolls: Vec<i32> = (0..120).map(|i| if i % 3 == 0 { 30 } else { 90 }).collect();
    CellularAutomataBuilder::new().build_from_rolls(&mut a, &rolls);
    CellularAutomataBuilder::new().build_from_rolls(&mut b, &rolls);
    assert!(a.map.tiles == b.map.tiles);
    for x in 0..12 {
        assert_eq!(a.map.tiles[x], TileType::Wall);
    }
}

#[test]
fn automata_replay_with_same_seed() {
    let mut a = BuilderMap::new(1, 80, 50, "ca");
    let mut b = BuilderMap::new(1, 80, 50, "ca");
    let mut ra = RandomNumberGenerator::seeded(42);
    let mut rb = RandomNumberGenerator::seeded(42);
    CellularAutomataBuilder::new().build(&mut ra, &mut a);
    CellularAutomataBuilder::new().build(&mut rb, &mut b);
    assert!(a.map.tiles == b.map.tiles);
    // the rolls reached the grid: some cave floor was grown
    assert!(a.map.tiles.iter().any(|t| *t == TileType::Floor));
}

#[test]
fn corridor_goes_along_the_row_then_the_column() {
    let mut b = BuilderMap::new(1, 6, 5, "c");
    let corridor = draw_corridor(&mut b.map, 1, 1, 4, 3);
    assert_eq!(corridor, vec![8, 9, 10, 16, 22]);
    assert_eq!(b.map.tiles[7], TileType::Wall);
    assert_eq!(b.map.tiles[22], TileType::Floor);
    let again = draw_corridor(&mut b.map, 1, 1, 4, 3);
    assert!(again.is_empty());
}

#[test]
fn rooms_are_carved_inside_their_border() {
    let mut b = BuilderMap::new(1, 10, 10, "r");
    b.rooms = Some(vec![Rect::new(1, 1, 3, 2)]);
    let mut d = RoomDrawer::new();
    d.build(&mut b);
    let floors: Vec<usize> = (0..100).filter(|i| b.map.tiles[*i] == TileType::Floor).collect();
    assert_eq!(floors, vec![22, 23, 24, 32, 33, 34]);
}


#[test]
fn room_start_and_stairs_use_centres() {
    let mut b = BuilderMap::new(1, 20, 20, "r");
    b.rooms = Some(vec![Rect::new(1, 1, 4, 4), Rect::new(10, 10, 6, 4)]);
    RoomBasedStartingPosition::new().build(&mut b);
    assert_eq!(b.starting_position, Some(Position { x: 3, y: 3 }));
    RoomBasedStairs::new().build(&mut b);
    assert_eq!(b.map.tiles[12 * 20 + 13], TileType::DownStairs);
}

#[test]
fn rooms_apart_only() {
    let mut rooms = vec![Rect::new(1, 1, 4, 4)];
    assert!(!add_room_if_apart(&mut rooms, Rect::new(5, 5, 3, 3)));
    assert!(add_room_if_apart(&mut rooms, Rect::new(6, 6, 3, 3)));
    assert_eq!(rooms.len(), 2);
}

#[test]
fn nearest_corridors_join_each_room_forward() {
    let mut b = BuilderMap::new(1, 30, 12, "n");
    // centres (3,3), (23,3), (8,8)
    b.rooms = Some(vec![Rect::new(1, 1, 4, 4), Rect::new(21, 1, 4, 4), Rect::new(6, 6, 4, 4)]);
    RoomDrawer::new().build(&mut b);
    NearestCorridors::new().corridors(&mut b);
    let corridors = b.corridors.as_ref().unwrap();
    assert_eq!(corridors.len(), 2);
    b.starting_position = Some(Position { x: 3, y: 3 });
    let d = distance_map(&b.map, 3 * 30 + 3);
    assert!(d[3 * 30 + 23] >= 0);
    assert!(d[8 * 30 + 8] >= 0);
    // room 0 goes to room 2 (nearer than room 1): cell (8, 3) is on that corridor
    assert_eq!(b.map.tiles[3 * 30 + 8], TileType::Floor);
}

#[test]
fn scattered_rooms_do_not_overlap() {
    let mut b = BuilderMap::new(1, 80, 50, "s");
    let mut rng = RandomNumberGenerator::seeded(7);
    SimpleMapBuilder::new().build(&mut rng, &mut b);
    let rooms = b.rooms.as_ref().unwrap();
    assert!(!rooms.is_empty());
    for (i, a) in rooms.iter().enumerate() {
        assert!(a.x1 >= 0 && a.x2 < 80 && a.y1 >= 0 && a.y2 < 50 && a.x1 < a.x2 && a.y1 < a.y2);
        for c in rooms.iter().skip(i + 1) {
            assert!(!a.intersect(c));
        }
    }
}

#[test]
fn decoration_keeps_walkability() {
    let mut b = BuilderMap::new(1, 40, 30, "deco");
    let mut rng = RandomNumberGenerator::seeded(3);
    CellularAutomataBuilder::new().build(&mut rng, &mut b);
    let before: Vec<bool> = b.map.tiles.iter().map(|t| is_tile_walkable(*t)).collect();
    CaveDecorator::new().build(&mut rng, &mut b);
    let after: Vec<bool> = b.map.tiles.iter().map(|t| is_tile_walkable(*t)).collect();
    assert_eq!(before, after);
    assert!(!b.map.outdoors);
}

#[test]
fn deep_water_where_walls_crowd() {
    // a solid wall block: inner walls with three or more walls beside them
    let mut b = BuilderMap::new(1, 6, 6, "deep");
    let mut rng = RandomNumberGenerator::seeded(1);
    CaveDecorator::new().build(&mut rng, &mut b);
    assert_eq!(b.map.tiles[7], TileType::DeepWater);
    // the bottom-right corner counts no right or lower neighbour
    assert_eq!(b.map.tiles[35], TileType::Wall);
}

#[test]
fn transition_merges_halves() {
    let mut cave = BuilderMap::new(1, 6, 2, "cave");
    set_floor(&mut cave, &[(0, 0), (1, 0), (4, 0)]);
    cave.spawn_list = vec![(1, "Rat".to_string()), (4, "Bat".to_string())];
    let mut rooms = BuilderMap::new(5, 6, 2, "rooms");
    set_floor(&mut rooms, &[(3, 1), (5, 1), (0, 1)]);
    rooms.spawn_list = vec![(11, "Orc".to_string()), (6, "Imp".to_string()), (9, "Kobold".to_string())];
    CaveTransition::merge(&mut cave, rooms);
    let floors: Vec<usize> = (0..12).filter(|i| cave.map.tiles[*i] == TileType::Floor).collect();
    assert_eq!(floors, vec![0, 1, 9, 11]);
    assert_eq!(cave.spawn_list, vec![(1, "Rat".to_string()), (11, "Orc".to_string())]);
}

#[test]
fn winding_passages_carve_floor_inside() {
    let mut b = BuilderMap::new(1, 80, 50, "walk");
    let mut rng = RandomNumberGenerator::seeded(11);
    DrunkardsWalkBuilder::winding_passages().build(&mut rng, &mut b);
    assert_eq!(b.map.tiles[25 * 80 + 40], TileType::Floor);
    assert!(count_floor(&b.map.tiles) >= 1600);
    for x in 0..80 {
        assert_eq!(b.map.tiles[x], TileType::Wall);
        assert_eq!(b.map.tiles[49 * 80 + x], TileType::Wall);
    }
}

#[test]
fn walker_leaves_tiny_grids_alone() {
    let mut b = BuilderMap::new(1, 2, 2, "tiny");
    let mut rng = RandomNumberGenerator::seeded(1);
    DrunkardsWalkBuilder::open_area().build(&mut rng, &mut b);
    assert!(b.map.tiles.iter().all(|t| *t == TileType::Wall));
}

#[test]
fn rooms_kept_from_draws() {
    // the second overlaps the first, the third does not fit, the fourth is kept
    let draws = vec![(6, 6, 1, 1), (7, 6, 5, 5), (9, 9, 25, 1), (6, 7, 12, 1)];
    let rooms = rooms_from_draws(&draws, 30, 20);
    assert_eq!(rooms, vec![Rect::new(1, 1, 6, 6), Rect::new(12, 1, 6, 7)]);
    let none = rooms_from_draws(&vec![(6, 6, -1, -1)], 30, 20);
    assert!(none.is_empty());
}

#[test]
fn side_walls_skip_the_last_two_columns() {
    // walls left, above and right, floor below; the right neighbour lies in
    // the last column and is not counted: two walls, so it stays wall
    let mut b = BuilderMap::new(1, 4, 3, "edge");
    set_floor(&mut b, &[(2, 2)]);
    let mut rng = RandomNumberGenerator::seeded(2);
    CaveDecorator::new().build(&mut rng, &mut b);
    assert_eq!(b.map.tiles[6], TileType::Wall);
}

#[test]
fn decoration_from_given_rolls() {
    // row of 4 by 3: floor at (1,1) and (2,1)
    let mut b = BuilderMap::new(1, 4, 3, "deco");
    set_floor(&mut b, &[(1, 1), (2, 1)]);
    let mut rolls = vec![(0, 0, 0); 12];
    rolls[5] = (1, 0, 0); // gravel
    rolls[6] = (3, 1, 0); // pool
    CaveDecorator::decorate_from_rolls(&mut b, &rolls);
    assert_eq!(b.map.tiles[5], TileType::Gravel);
    assert_eq!(b.map.tiles[6], TileType::ShallowWater);
    // (0,0) has walls right and below: two, so it stays wall
    assert_eq!(b.map.tiles[0], TileType::Wall);
    // (1,0) has walls left and right, floor below: two, stays wall
    assert_eq!(b.map.tiles[1], TileType::Wall);
    assert!(!b.map.outdoors);
}

#[test]
fn walker_digs_where_it_stands_then_moves() {
    let mut b = BuilderMap::new(1, 7, 7, "walk");
    let dug_wall = dungeon_gen::drunkard::dig_walk(&mut b, 3, 3, &vec![2, 2, 4]);
    assert!(dug_wall);
    let floors: Vec<usize> = (0..49).filter(|i| b.map.tiles[*i] == TileType::Floor).collect();
    assert_eq!(floors, vec![24, 25, 26]);
}
