use dungeon_gen::builder_map::{BuilderMap, Position};
use dungeon_gen::grid::neighbor;
use dungeon_gen::map::GameMap;
use dungeon_gen::reach::distance_map;
use dungeon_gen::rect::Rect;
use dungeon_gen::systems::RightWalker;
use dungeon_gen::tile_type::{get_tile_cost_tenths, is_tile_opaque, is_tile_walkable, TileType};

fn floor_row_map() -> GameMap {
    // 5 wide, 3 high, with the middle row floor from column 1 to 3
    let mut m = GameMap::new(1, 5, 3, "test");
    for x in 1..4 {
        let idx = m.xy_idx(x, 1);
        m.tiles[idx] = TileType::Floor;
    }
    m
}

#[test]
fn tile_classification() {
    assert!(is_tile_walkable(TileType::Floor));
    assert!(is_tile_walkable(TileType::DownStairs));
    assert!(is_tile_walkable(TileType::Gravel));
    assert!(is_tile_walkable(TileType::ShallowWater));
    assert!(!is_tile_walkable(TileType::Wall));
    assert!(!is_tile_walkable(TileType::DeepWater));
    assert!(!is_tile_walkable(TileType::Stalactite));
    assert!(is_tile_opaque(TileType::Wall));
    assert!(is_tile_opaque(TileType::Stalagmite));
    assert!(!is_tile_opaque(TileType::Floor));
    assert!(!is_tile_opaque(TileType::DeepWater));
}

#[test]
fn tile_costs_in_tenths() {
    assert_eq!(get_tile_cost_tenths(TileType::Road), 8);
    assert_eq!(get_tile_cost_tenths(TileType::Grass), 11);
    assert_eq!(get_tile_cost_tenths(TileType::ShallowWater), 12);
    assert_eq!(get_tile_cost_tenths(TileType::Floor), 10);
}

#[test]
fn new_map_is_all_wall() {
    let m = GameMap::new(3, 80, 50, "Limestone Caverns");
    assert_eq!(m.tiles.len(), 4000);
    assert!(m.tiles.iter().all(|t| *t == TileType::Wall));
    assert!(m.revealed_tiles.iter().all(|b| !*b));
    assert_eq!(m.depth, 3);
    assert_eq!(m.name, "Limestone Caverns");
    assert!(m.outdoors);
}

#[test]
fn xy_idx_is_row_major() {
    let m = GameMap::new(1, 10, 4, "x");
    assert_eq!(m.xy_idx(3, 2), 23);
    assert_eq!(m.xy_idx(0, 0), 0);
    assert_eq!(m.xy_idx(9, 3), 39);
}

#[test]
fn populate_blocked_follows_walkability() {
    let mut m = floor_row_map();
    m.populate_blocked();
    assert!(m.blocked[0]);
    assert!(!m.blocked[6]);
    m.clear_content_index();
    assert!(m.blocked.iter().all(|b| !*b));
}

#[test]
fn exits_need_an_unblocked_cell_off_the_top_left_edges() {
    let mut m = floor_row_map();
    m.populate_blocked();
    assert!(m.is_exit_valid(1, 1));
    assert!(!m.is_exit_valid(0, 1));
    assert!(!m.is_exit_valid(1, 0));
    assert!(!m.is_exit_valid(4, 1));
    assert!(!m.is_exit_valid(5, 1));
    assert!(!m.is_exit_valid(1, 2));
}

#[test]
fn neighbors_stay_on_the_grid() {
    assert_eq!(neighbor(3, 3, 0, 0), None);
    assert_eq!(neighbor(3, 3, 0, 4), Some(1));
    assert_eq!(neighbor(3, 3, 0, 7), Some(4));
    assert_eq!(neighbor(3, 3, 4, 0), Some(0));
    assert_eq!(neighbor(3, 3, 8, 7), None);
}

#[test]
fn distances_along_a_corridor() {
    let m = floor_row_map();
    let d = distance_map(&m, 6);
    assert_eq!(d[6], 0);
    assert_eq!(d[7], 1);
    assert_eq!(d[8], 2);
    assert_eq!(d[0], -1);
    assert_eq!(d[13], -1);
}

#[test]
fn distances_count_diagonal_steps_once() {
    let mut m = GameMap::new(1, 4, 4, "d");
    for (x, y) in [(1, 1), (2, 2)] {
        let idx = m.xy_idx(x, y);
        m.tiles[idx] = TileType::Floor;
    }
    let d = distance_map(&m, 5);
    assert_eq!(d[10], 1);
}

#[test]
fn rect_center_and_intersection() {
    let a = Rect::new(2, 3, 6, 4);
    assert_eq!((a.x1, a.y1, a.x2, a.y2), (2, 3, 8, 7));
    assert_eq!(a.center(), (5, 5));
    let b = Rect::new(8, 7, 2, 2);
    assert!(a.intersect(&b));
    let c = Rect::new(9, 0, 2, 2);
    assert!(!a.intersect(&c));
}

#[test]
fn snapshots_only_when_recording() {
    let mut b = BuilderMap::new(1, 4, 4, "s");
    b.take_snapshot();
    assert_eq!(b.history.len(), 0);
    b.record_snapshots = true;
    b.take_snapshot();
    assert_eq!(b.history.len(), 1);
    assert!(b.history[0].revealed_tiles.iter().all(|r| *r));
    assert!(b.map.revealed_tiles.iter().all(|r| !*r));
}

#[test]
fn right_walker_wraps_at_the_last_column() {
    let mut w = RightWalker::new();
    let mut ps = vec![Position { x: 5, y: 2 }, Position { x: 79, y: 7 }];
    w.run(&mut ps);
    assert_eq!(ps, vec![Position { x: 6, y: 2 }, Position { x: 0, y: 7 }]);
}
