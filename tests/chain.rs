use dungeon_gen::area_based::{AreaStartingPosition, CullUnreachable, DistantExit, XStart, YStart};
use dungeon_gen::builder_map::ChainError;
use dungeon_gen::cellular_automata::CellularAutomataBuilder;
use dungeon_gen::drunkard::DrunkardsWalkBuilder;
use dungeon_gen::builder_map::{BuilderMap, Position};
use dungeon_gen::map_builders::{
    initial_builder_for_roll, level_builder, limestone_cavern_builder,
    limestone_transition_builder, mark_up_stairs, random_builder, BuilderChain,
    InitialMapBuilder, MetaMapBuilder,
};
use dungeon_gen::room_based::NearestCorridors;
use dungeon_gen::reach::distance_map;
use dungeon_gen::room_based::{RoomBasedStartingPosition, RoomDrawer, SimpleMapBuilder};
use dungeon_gen::spawner::{RandomTable, RoomBasedSpawner, VoronoiSpawning};
use dungeon_gen::tile_type::{is_tile_walkable, TileType};
use rltk::RandomNumberGenerator;

fn table() -> RandomTable {
    RandomTable::new().add("Goblin".to_string(), 10).add("Orc".to_string(), 5)
}

fn start_idx(c: &BuilderChain) -> usize {
    let p = c.build_data.starting_position.unwrap();
    (p.y * c.build_data.width + p.x) as usize
}

#[test]
fn a_started_recipe_takes_no_second_starter() {
    // a second start_with is ruled out by its precondition: callers test
    // is_started first and treat a started recipe as a configuration error
    let mut c = BuilderChain::new(1, 20, 20, "twice");
    assert!(!c.is_started());
    c.start_with(InitialMapBuilder::CellularAutomata(CellularAutomataBuilder::new()));
    assert!(c.is_started());
    assert!(c.build_data.map.tiles.iter().all(|t| *t == TileType::Wall));
}

#[test]
fn a_fresh_recipe_is_not_started() {
    let mut c = BuilderChain::new(1, 20, 20, "none");
    c.with(MetaMapBuilder::CullUnreachable(CullUnreachable::new()));
    assert!(!c.is_started());
    assert!(c.build_data.rooms.is_none());
    assert!(c.build_data.history.is_empty());
}

#[test]
fn winding_passages_recipe_scenario() {
    let mut c = BuilderChain::new(3, 80, 50, "scenario");
    c.start_with(InitialMapBuilder::DrunkardsWalk(DrunkardsWalkBuilder::winding_passages()));
    c.with(MetaMapBuilder::AreaStartingPosition(AreaStartingPosition::new(XStart::Center, YStart::Center)));
    c.with(MetaMapBuilder::CullUnreachable(CullUnreachable::new()));
    c.with(MetaMapBuilder::AreaStartingPosition(AreaStartingPosition::new(XStart::Left, YStart::Center)));
    c.with(MetaMapBuilder::VoronoiSpawning(VoronoiSpawning::new(table())));
    c.with(MetaMapBuilder::DistantExit(DistantExit::new()));
    let mut rng = RandomNumberGenerator::seeded(2024);
    assert_eq!(c.build_map(&mut rng), Ok(()));
    let p = c.build_data.starting_position.unwrap();
    assert!(p.x < 80 / 3);
    assert!(p.y >= 50 / 3 && p.y < 100 / 3);
    let s = start_idx(&c);
    let tiles = &c.build_data.map.tiles;
    assert!(is_tile_walkable(tiles[s]));
    let d = distance_map(&c.build_data.map, s);
    for i in 0..tiles.len() {
        if is_tile_walkable(tiles[i]) {
            assert!(d[i] >= 0);
        }
    }
    let exits: Vec<usize> = (0..tiles.len()).filter(|i| tiles[*i] == TileType::DownStairs).collect();
    assert_eq!(exits.len(), 1);
    let e = exits[0];
    assert_ne!(e, s);
    assert_eq!(d[e], *d.iter().max().unwrap());
    for (idx, _) in c.build_data.spawn_list.iter() {
        assert_ne!(*idx, s);
        assert!(is_tile_walkable(tiles[*idx]));
    }
}

#[test]
fn rooms_without_corridors_are_not_connected() {
    let mut c = BuilderChain::new(1, 80, 50, "rooms");
    c.start_with(InitialMapBuilder::Simple(SimpleMapBuilder::new()));
    c.with(MetaMapBuilder::RoomDrawer(RoomDrawer::new()));
    c.with(MetaMapBuilder::RoomBasedSpawner(RoomBasedSpawner::new(table())));
    c.with(MetaMapBuilder::RoomBasedStartingPosition(RoomBasedStartingPosition::new()));
    let mut rng = RandomNumberGenerator::seeded(77);
    assert_eq!(c.build_map(&mut rng), Ok(()));
    let rooms = c.build_data.rooms.as_ref().unwrap();
    assert!(rooms.len() >= 2);
    let s = start_idx(&c);
    let d = distance_map(&c.build_data.map, s);
    let tiles = &c.build_data.map.tiles;
    let unreached = (0..tiles.len()).filter(|i| is_tile_walkable(tiles[*i]) && d[*i] < 0).count();
    assert!(unreached > 0);
}

#[test]
fn room_recipe_fails_on_a_roomless_start() {
    let mut c = BuilderChain::new(1, 40, 30, "bad");
    c.start_with(InitialMapBuilder::CellularAutomata(CellularAutomataBuilder::new()));
    c.with(MetaMapBuilder::RoomBasedStartingPosition(RoomBasedStartingPosition::new()));
    let mut rng = RandomNumberGenerator::seeded(3);
    assert_eq!(c.build_map(&mut rng), Err(ChainError::RoomsRequired));
}

#[test]
fn limestone_caverns_build() {
    let mut rng = RandomNumberGenerator::seeded(31);
    let mut c = limestone_cavern_builder(3, &mut rng, 80, 50, table());
    assert_eq!(c.build_map(&mut rng), Ok(()));
    assert!(!c.build_data.map.outdoors);
    assert_eq!(c.build_data.map.name, "Limestone Caverns");
    assert!(c.build_data.map.tiles.iter().any(|t| *t == TileType::DownStairs));
    let s = start_idx(&c);
    let tiles = &c.build_data.map.tiles;
    assert!(is_tile_walkable(tiles[s]));
    let d = distance_map(&c.build_data.map, s);
    for i in 0..tiles.len() {
        if is_tile_walkable(tiles[i]) {
            assert!(d[i] >= 0);
        }
    }
    let exit = (0..tiles.len()).find(|i| tiles[*i] == TileType::DownStairs).unwrap();
    assert_ne!(exit, s);
}

#[test]
fn transition_level_builds() {
    let mut rng = RandomNumberGenerator::seeded(5);
    let mut c = limestone_transition_builder(4, &mut rng, 80, 50, table());
    assert_eq!(c.build_map(&mut rng), Ok(()));
    assert_eq!(c.build_data.map.depth, 5);
    let tiles = &c.build_data.map.tiles;
    assert_eq!(tiles.iter().filter(|t| **t == TileType::DownStairs).count(), 1);
    let s = start_idx(&c);
    let d = distance_map(&c.build_data.map, s);
    for i in 0..tiles.len() {
        if is_tile_walkable(tiles[i]) {
            assert!(d[i] >= 0);
        }
    }
}

#[test]
fn random_recipes_build() {
    for seed in 0..6 {
        let mut rng = RandomNumberGenerator::seeded(seed);
        let mut c = random_builder(2, &mut rng, 80, 50, table());
        assert_eq!(c.build_map(&mut rng), Ok(()));
        assert!(c.build_data.starting_position.is_some());
        let s = start_idx(&c);
        assert!(is_tile_walkable(c.build_data.map.tiles[s]));
    }
}

#[test]
fn initial_builders_by_roll() {
    assert!(initial_builder_for_roll(1).1);
    assert!(matches!(initial_builder_for_roll(1).0, InitialMapBuilder::Simple(_)));
    assert!(matches!(initial_builder_for_roll(2).0, InitialMapBuilder::CellularAutomata(_)));
    assert!(!initial_builder_for_roll(5).1);
    assert!(matches!(initial_builder_for_roll(5).0, InitialMapBuilder::DrunkardsWalk(_)));
}

#[test]
fn joined_rooms_are_all_connected() {
    for seed in [1, 2, 3] {
        let mut c = BuilderChain::new(1, 80, 50, "joined");
        c.start_with(InitialMapBuilder::Simple(SimpleMapBuilder::new()));
        c.with(MetaMapBuilder::RoomDrawer(RoomDrawer::new()));
        c.with(MetaMapBuilder::NearestCorridors(NearestCorridors::new()));
        let mut rng = RandomNumberGenerator::seeded(seed);
        assert_eq!(c.build_map(&mut rng), Ok(()));
        let rooms = c.build_data.rooms.clone().unwrap();
        let (cx, cy) = rooms[0].center();
        let d = distance_map(&c.build_data.map, (cy * 80 + cx) as usize);
        for r in rooms.iter() {
            let (x, y) = r.center();
            assert!(d[(y * 80 + x) as usize] >= 0);
        }
    }
}

#[test]
fn level_selector_by_depth() {
    let mut rng = RandomNumberGenerator::seeded(12);
    let c3 = level_builder(3, &mut rng, 80, 50, table());
    assert_eq!(c3.build_data.map.name, "Limestone Caverns");
    let c5 = level_builder(5, &mut rng, 80, 50, table());
    assert_eq!(c5.build_data.map.name, "Dwarf Fort - Upper Reaches");
    let c7 = level_builder(7, &mut rng, 80, 50, table());
    assert_eq!(c7.build_data.map.name, "New Map");
    assert_eq!(c7.build_data.map.depth, 7);
}

#[test]
fn up_stairs_below_the_first_level() {
    let mut b = BuilderMap::new(2, 5, 5, "up");
    b.map.tiles[12] = TileType::Floor;
    b.starting_position = Some(Position { x: 2, y: 2 });
    mark_up_stairs(&mut b, 1);
    assert_eq!(b.map.tiles[12], TileType::Floor);
    mark_up_stairs(&mut b, 2);
    assert_eq!(b.map.tiles[12], TileType::UpStairs);
}

#[test]
fn same_seed_same_level() {
    for depth in [2, 3, 5] {
        let mut ra = RandomNumberGenerator::seeded(99);
        let mut rb = RandomNumberGenerator::seeded(99);
        let mut a = level_builder(depth, &mut ra, 80, 50, table());
        let mut b = level_builder(depth, &mut rb, 80, 50, table());
        assert_eq!(a.build_map(&mut ra), b.build_map(&mut rb));
        assert!(a.build_data.map.tiles == b.build_data.map.tiles);
        assert_eq!(a.build_data.spawn_list, b.build_data.spawn_list);
        assert_eq!(a.build_data.starting_position, b.build_data.starting_position);
    }
}

#[test]
fn snapshots_do_not_change_the_level() {
    let mut ra = RandomNumberGenerator::seeded(17);
    let mut rb = RandomNumberGenerator::seeded(17);
    let mut a = limestone_cavern_builder(3, &mut ra, 80, 50, table());
    let mut b = limestone_cavern_builder(3, &mut rb, 80, 50, table());
    b.build_data.record_snapshots = true;
    assert_eq!(a.build_map(&mut ra), b.build_map(&mut rb));
    assert!(a.build_data.map.tiles == b.build_data.map.tiles);
    assert!(a.build_data.history.is_empty());
    assert!(!b.build_data.history.is_empty());
}

#[test]
fn random_recipes_end_with_the_vault() {
    for seed in 0..4 {
        let mut rng = RandomNumberGenerator::seeded(seed);
        let mut c = random_builder(2, &mut rng, 80, 50, table());
        assert_eq!(c.build_map(&mut rng), Ok(()));
        let shrine = c.build_data.map.tiles.iter().filter(|t| **t == TileType::ShallowWater).count();
        let gravel = c.build_data.map.tiles.iter().filter(|t| **t == TileType::Gravel).count();
        // the shrine's gravel ring and pool are laid wherever free floor allows
        assert!(shrine == 0 || gravel >= 8);
    }
}
