use dungeon_gen::builder_map::{BuilderMap, Position};
use dungeon_gen::prefab_builder::{find_vault_corner, PrefabBuilder};
use dungeon_gen::tile_type::TileType;

fn open_room() -> BuilderMap {
    // 8 by 6, floor inside a wall border
    let mut b = BuilderMap::new(1, 8, 6, "room");
    for y in 1..5 {
        for x in 1..7 {
            let i = b.map.xy_idx(x, y);
            b.map.tiles[i] = TileType::Floor;
        }
    }
    b
}

#[test]
fn vault_goes_in_the_first_free_floor() {
    let mut b = open_room();
    b.starting_position = Some(Position { x: 1, y: 1 });
    // the start rules out corners covering (1,1): the first fit is (2,1)
    assert_eq!(find_vault_corner(&b, 3, 3), Some(10));
    PrefabBuilder::vaults().build(&mut b);
    assert_eq!(b.map.tiles[9], TileType::Floor);
    assert_eq!(b.map.tiles[10], TileType::Gravel);
    assert_eq!(b.map.tiles[19], TileType::ShallowWater);
    assert_eq!(b.map.tiles[28], TileType::Gravel);
}

#[test]
fn vault_skipped_without_free_floor() {
    let mut b = open_room();
    b.spawn_list = vec![(19, "Rat".to_string()), (20, "Rat".to_string())];
    b.starting_position = Some(Position { x: 3, y: 3 });
    let before = b.map.tiles.clone();
    PrefabBuilder::vaults().build(&mut b);
    // every 3 by 3 stretch of the 6 by 4 floor covers the start or a spawn
    assert!(b.map.tiles == before);
    assert_eq!(b.spawn_list.len(), 2);
}

#[test]
fn section_anchored_right_and_centred() {
    let mut b = BuilderMap::new(1, 10, 9, "fort");
    for t in b.map.tiles.iter_mut() {
        *t = TileType::Floor;
    }
    b.spawn_list = vec![(0, "Rat".to_string()), (4 * 10 + 6, "Orc".to_string())];
    PrefabBuilder::sectional().build(&mut b);
    // 7 by 5 at corner (3, 2): its gate row is row 4
    assert_eq!(b.map.tiles[2 * 10 + 3], TileType::Wall);
    assert_eq!(b.map.tiles[2 * 10 + 6], TileType::Floor);
    assert_eq!(b.map.tiles[4 * 10 + 5], TileType::Wall);
    assert_eq!(b.map.tiles[1 * 10 + 3], TileType::Floor);
    assert_eq!(b.spawn_list, vec![(0, "Rat".to_string())]);
}

#[test]
fn section_too_large_is_skipped() {
    let mut b = BuilderMap::new(1, 5, 5, "small");
    let before = b.map.tiles.clone();
    PrefabBuilder::sectional().build(&mut b);
    assert!(b.map.tiles == before);
}
