use dungeon_gen::builder_map::{BuilderMap, Position};
use dungeon_gen::cellular_automata::CellularAutomataBuilder;
use dungeon_gen::rect::Rect;
use dungeon_gen::room_based::RoomDrawer;
use dungeon_gen::spawner::{
    find_nearest_seed, get_spawn_table_for_depth, spawn_region, try_add_spawn, RandomTable,
    RoomBasedSpawner, SpawnTableEntry, VoronoiSpawning,
};
use dungeon_gen::tile_type::{is_tile_walkable, TileType};
use rltk::RandomNumberGenerator;

fn table() -> RandomTable {
    RandomTable::new().add("Goblin".to_string(), 10).add("Orc".to_string(), 5)
}

fn check_spawns(b: &BuilderMap) {
    let start = b.starting_position.map(|p| (p.y * b.width + p.x) as usize);
    for (i, (idx, _)) in b.spawn_list.iter().enumerate() {
        assert!(*idx < b.map.tiles.len());
        assert!(is_tile_walkable(b.map.tiles[*idx]));
        assert_ne!(Some(*idx), start);
        for (other, _) in b.spawn_list.iter().skip(i + 1) {
            assert_ne!(idx, other);
        }
    }
}

#[test]
fn table_picks_by_share() {
    let t = RandomTable::new().add("a".to_string(), 3).add("b".to_string(), 5);
    assert_eq!(t.total_weight, 8);
    assert_eq!(t.pick(0), Some(0));
    assert_eq!(t.pick(2), Some(0));
    assert_eq!(t.pick(3), Some(1));
    assert_eq!(t.pick(7), Some(1));
    assert_eq!(t.pick(8), None);
    assert_eq!(t.pick(-1), None);
}

#[test]
fn table_ignores_weightless_entries() {
    let t = RandomTable::new().add("a".to_string(), 0).add("b".to_string(), -2);
    assert_eq!(t.entries.len(), 0);
    let mut rng = RandomNumberGenerator::seeded(5);
    assert_eq!(t.roll(&mut rng), None);
}

#[test]
fn table_rolls_a_listed_name() {
    let t = table();
    let mut rng = RandomNumberGenerator::seeded(9);
    for _ in 0..20 {
        let n = t.roll(&mut rng).unwrap();
        assert!(n == "Goblin" || n == "Orc");
    }
}

#[test]
fn depth_table_filters_and_scales() {
    let entries = vec![
        SpawnTableEntry { name: "Rat".to_string(), weight: 10, min_depth: 0, max_depth: 2, add_map_depth_to_weight: false },
        SpawnTableEntry { name: "Orc".to_string(), weight: 1, min_depth: 2, max_depth: 100, add_map_depth_to_weight: true },
        SpawnTableEntry { name: "Dragon".to_string(), weight: 1, min_depth: 10, max_depth: 100, add_map_depth_to_weight: false },
    ];
    let t = get_spawn_table_for_depth(&entries, 3);
    assert_eq!(t.entries.len(), 1);
    assert_eq!(t.entries[0].name, "Orc");
    assert_eq!(t.entries[0].weight, 4);
    let t2 = get_spawn_table_for_depth(&entries, 2);
    assert_eq!(t2.entries.len(), 2);
    assert_eq!(t2.total_weight, 13);
}

#[test]
fn spawn_intents_only_on_free_floor() {
    let mut b = BuilderMap::new(1, 5, 5, "s");
    for idx in [6, 7, 8] {
        b.map.tiles[idx] = TileType::Floor;
    }
    b.starting_position = Some(Position { x: 1, y: 1 });
    assert!(!try_add_spawn(&mut b, 0, "Rat".to_string()));
    assert!(!try_add_spawn(&mut b, 6, "Rat".to_string()));
    assert!(!try_add_spawn(&mut b, 99, "Rat".to_string()));
    assert!(try_add_spawn(&mut b, 7, "Rat".to_string()));
    assert!(!try_add_spawn(&mut b, 7, "Bat".to_string()));
    assert_eq!(b.spawn_list, vec![(7, "Rat".to_string())]);
}

#[test]
fn region_spawns_stay_in_the_region() {
    let mut b = BuilderMap::new(9, 10, 10, "r");
    for idx in 0..100 {
        b.map.tiles[idx] = TileType::Floor;
    }
    let mut rng = RandomNumberGenerator::seeded(2);
    let area: Vec<usize> = vec![11, 12, 13, 14, 15];
    spawn_region(&mut b, &mut rng, area.clone(), &table());
    assert!(!b.spawn_list.is_empty());
    assert!(b.spawn_list.iter().all(|(i, _)| area.contains(i)));
    check_spawns(&b);
}

#[test]
fn room_spawner_skips_the_first_room() {
    let mut b = BuilderMap::new(20, 30, 12, "rooms");
    b.rooms = Some(vec![Rect::new(1, 1, 6, 6), Rect::new(15, 1, 6, 6)]);
    RoomDrawer::new().build(&mut b);
    b.starting_position = Some(Position { x: 4, y: 4 });
    let mut rng = RandomNumberGenerator::seeded(4);
    let s = RoomBasedSpawner::new(table());
    s.build(&mut rng, &mut b);
    assert!(!b.spawn_list.is_empty());
    assert!(b.spawn_list.iter().all(|(i, _)| i % 30 > 15));
    check_spawns(&b);
}

#[test]
fn voronoi_spawns_are_valid() {
    let mut b = BuilderMap::new(5, 80, 50, "v");
    let mut rng = RandomNumberGenerator::seeded(8);
    CellularAutomataBuilder::new().build(&mut rng, &mut b);
    let first = b.map.tiles.iter().position(|t| is_tile_walkable(*t)).unwrap();
    b.starting_position = Some(Position { x: (first % 80) as i32, y: (first / 80) as i32 });
    VoronoiSpawning::new(table()).build(&mut rng, &mut b);
    assert!(!b.spawn_list.is_empty());
    check_spawns(&b);
}

#[test]
fn nearest_seed_first_on_ties() {
    let seeds = vec![(0, 0), (4, 0), (2, 5)];
    assert_eq!(find_nearest_seed(&seeds, 2, 0), 0);
    assert_eq!(find_nearest_seed(&seeds, 3, 0), 1);
    assert_eq!(find_nearest_seed(&seeds, 2, 4), 2);
}

#[test]
fn spawned_names_come_from_the_table() {
    let mut b = BuilderMap::new(9, 10, 10, "names");
    for idx in 0..100 {
        b.map.tiles[idx] = TileType::Floor;
    }
    let mut rng = RandomNumberGenerator::seeded(12);
    spawn_region(&mut b, &mut rng, (0..100).collect(), &table());
    assert!(!b.spawn_list.is_empty());
    assert!(b.spawn_list.iter().all(|(_, n)| n == "Goblin" || n == "Orc"));
}

#[test]
fn spawns_from_given_draws() {
    let mut b = BuilderMap::new(1, 5, 5, "draws");
    for idx in [6, 7, 8] {
        b.map.tiles[idx] = TileType::Floor;
    }
    b.starting_position = Some(Position { x: 1, y: 1 });
    // the first draw lands on the start, the second places B on cell 8, the
    // third drew no name
    dungeon_gen::spawner::spawn_from_draws(
        &mut b,
        vec![6, 7, 8],
        &vec![0, 1, 0],
        vec![Some("A".to_string()), Some("B".to_string()), None],
    );
    assert_eq!(b.spawn_list, vec![(8, "B".to_string())]);
}
