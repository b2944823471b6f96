use dungeon_gen::builder_map::BuilderMap;
use dungeon_gen::cellular_automata::CellularAutomataBuilder;
use dungeon_gen::tile_type::TileType;
use dungeon_gen::waveform_collapse::{
    compatibility, count_candidates, extract_patterns, nth_candidate, WaveformCollapseBuilder,
};
use rltk::RandomNumberGenerator;

fn chunk(tiles: &[TileType], w: usize, n: usize, cx: usize, cy: usize) -> Vec<TileType> {
    let mut v = Vec::new();
    for y in 0..n {
        for x in 0..n {
            v.push(tiles[(cy * n + y) * w + cx * n + x]);
        }
    }
    v
}

#[test]
fn uniform_grid_resynthesizes_to_itself() {
    let mut b = BuilderMap::new(1, 16, 12, "uniform");
    for t in b.map.tiles.iter_mut() {
        *t = TileType::Floor;
    }
    let before = b.map.tiles.clone();
    let mut rng = RandomNumberGenerator::seeded(6);
    assert!(WaveformCollapseBuilder::with_chunk_size(4).build(&mut rng, &mut b));
    assert!(b.map.tiles == before);
}

#[test]
fn contradiction_keeps_the_grid() {
    // columns alternate floor and wall: the one chunk pattern cannot stand
    // beside itself
    let mut b = BuilderMap::new(1, 4, 2, "stripes");
    for i in [0, 2, 4, 6] {
        b.map.tiles[i] = TileType::Floor;
    }
    b.spawn_list = vec![(0, "Rat".to_string())];
    let before = b.map.tiles.clone();
    let mut rng = RandomNumberGenerator::seeded(6);
    assert!(!WaveformCollapseBuilder::with_chunk_size(2).build(&mut rng, &mut b));
    assert!(b.map.tiles == before);
    assert_eq!(b.spawn_list.len(), 1);
}

#[test]
fn resynthesized_chunks_come_from_the_grid() {
    let mut b = BuilderMap::new(1, 40, 32, "cave");
    let mut rng = RandomNumberGenerator::seeded(21);
    CellularAutomataBuilder::new().build(&mut rng, &mut b);
    let before = b.map.tiles.clone();
    let n = 8;
    let mut sources: Vec<Vec<TileType>> = Vec::new();
    for cy in 0..4 {
        for cx in 0..5 {
            sources.push(chunk(&before, 40, n, cx, cy));
        }
    }
    if WaveformCollapseBuilder::new().build(&mut rng, &mut b) {
        for cy in 0..4 {
            for cx in 0..5 {
                assert!(sources.contains(&chunk(&b.map.tiles, 40, n, cx, cy)));
            }
        }
        // neighbouring chunks agree along their shared edges
        for cy in 0..4 {
            for cx in 0..4 {
                let a = chunk(&b.map.tiles, 40, n, cx, cy);
                let c = chunk(&b.map.tiles, 40, n, cx + 1, cy);
                for j in 0..n {
                    assert_eq!(a[j * n + n - 1], c[j * n]);
                }
            }
        }
        for cy in 0..3 {
            for cx in 0..5 {
                let a = chunk(&b.map.tiles, 40, n, cx, cy);
                let c = chunk(&b.map.tiles, 40, n, cx, cy + 1);
                for i in 0..n {
                    assert_eq!(a[(n - 1) * n + i], c[i]);
                }
            }
        }
        assert!(b.spawn_list.is_empty());
    } else {
        assert!(b.map.tiles == before);
    }
}

#[test]
fn patterns_are_distinct_chunks() {
    let mut b = BuilderMap::new(1, 4, 2, "p");
    b.map.tiles[0] = TileType::Floor;
    let p = extract_patterns(&b, 2);
    assert_eq!(p.len(), 2);
    assert_eq!(p[0], vec![TileType::Floor, TileType::Wall, TileType::Wall, TileType::Wall]);
    assert_eq!(p[1], vec![TileType::Wall; 4]);
    let (right, below) = compatibility(&p, 2);
    assert!(!right[0][0]);
    assert!(right[0][1]);
    assert!(right[1][1]);
    assert!(!below[1][0]);
    assert!(below[0][1]);
}

#[test]
fn candidates_counted_and_picked() {
    let v = vec![false, true, true, false, true];
    assert_eq!(count_candidates(&v), 3);
    assert_eq!(nth_candidate(&v, 1), Some(1));
    assert_eq!(nth_candidate(&v, 3), Some(4));
    assert_eq!(nth_candidate(&v, 4), None);
}
