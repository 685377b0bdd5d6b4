use bracket_random::prelude::RandomNumberGenerator;
use rustlike::cellular_automata::{random_fill, smooth_tiles};
use rustlike::{BuilderMap, CellularAutomataBuilder, TileMap, TileType};

fn is_border(map: &TileMap, idx: usize) -> bool {
    let p = map.idx_xy(idx);
    p.x == 0 || p.y == 0 || p.x == map.width - 1 || p.y == map.height - 1
}

#[test]
fn highest_rolls_fill_with_walls() {
    let mut map = TileMap::new(1, 10, 8);
    for t in map.tiles.iter_mut() {
        *t = TileType::Floor;
    }
    let rolls = vec![100; 80];
    random_fill(&mut map, &rolls);
    for i in 0..80 {
        if is_border(&map, i) {
            assert_eq!(map.tiles[i], TileType::Floor);
        } else {
            assert_eq!(map.tiles[i], TileType::Wall);
        }
    }
    let mut fresh = TileMap::new(1, 10, 8);
    random_fill(&mut fresh, &rolls);
    assert!(fresh.tiles.iter().all(|t| *t == TileType::Wall));
}

#[test]
fn lowest_rolls_fill_interior_with_floor() {
    let mut map = TileMap::new(1, 10, 8);
    let rolls = vec![1; 80];
    random_fill(&mut map, &rolls);
    for i in 0..80 {
        if is_border(&map, i) {
            assert_eq!(map.tiles[i], TileType::Wall);
        } else {
            assert_eq!(map.tiles[i], TileType::Floor);
        }
    }
}

#[test]
fn fill_threshold_is_forty_five() {
    let mut map = TileMap::new(1, 4, 3);
    let mut rolls = vec![0; 12];
    rolls[5] = 45;
    rolls[6] = 46;
    random_fill(&mut map, &rolls);
    assert_eq!(map.tiles[5], TileType::Floor);
    assert_eq!(map.tiles[6], TileType::Wall);
}

#[test]
fn smoothing_applies_neighbour_rule() {
    // a 3x3 open room inside a 5x5 map
    let mut tiles = vec![TileType::Wall; 25];
    for y in 1..4 {
        for x in 1..4 {
            tiles[y * 5 + x] = TileType::Floor;
        }
    }
    let out = smooth_tiles(&tiles, 5, 5);
    // corners of the room see five walls, the centre sees none: both become wall
    assert_eq!(out[6], TileType::Wall);
    assert_eq!(out[8], TileType::Wall);
    assert_eq!(out[16], TileType::Wall);
    assert_eq!(out[18], TileType::Wall);
    assert_eq!(out[12], TileType::Wall);
    // edge midpoints see three walls and stay floor
    assert_eq!(out[7], TileType::Floor);
    assert_eq!(out[11], TileType::Floor);
    assert_eq!(out[13], TileType::Floor);
    assert_eq!(out[17], TileType::Floor);
    // the border is untouched
    assert_eq!(out[0], TileType::Wall);
    assert_eq!(out[24], TileType::Wall);
}

#[test]
fn smoothing_turns_crowded_floor_into_wall() {
    let mut tiles = vec![TileType::Wall; 25];
    tiles[12] = TileType::Floor;
    tiles[7] = TileType::Floor;
    let out = smooth_tiles(&tiles, 5, 5);
    // (2,2) sees seven walls, (2,1) sees seven walls
    assert_eq!(out[12], TileType::Wall);
    assert_eq!(out[7], TileType::Wall);
    let mut open = vec![TileType::Floor; 25];
    open[6] = TileType::Wall;
    open[8] = TileType::Wall;
    let out = smooth_tiles(&open, 5, 5);
    // (2,1) sees two walls and stays floor; (2,2) sees two and stays floor
    assert_eq!(out[7], TileType::Floor);
    assert_eq!(out[12], TileType::Floor);
    // (1,2) sees one wall
    assert_eq!(out[11], TileType::Floor);
    // (3,3) sees no wall and becomes wall
    assert_eq!(out[18], TileType::Wall);
}

#[test]
fn generator_takes_a_snapshot_per_pass() {
    let mut ctx = BuilderMap::new(1, 20, 15);
    let rolls: Vec<i32> = (0..300).map(|i| ((i * 37) % 100 + 1) as i32).collect();
    let cave = CellularAutomataBuilder::new();
    cave.build_from_rolls(&mut ctx, &rolls);
    assert_eq!(ctx.history.len(), 16);
    let mut filled = TileMap::new(1, 20, 15);
    random_fill(&mut filled, &rolls);
    assert_eq!(ctx.history[0].tiles, filled.tiles);
    let mut expected = filled.tiles.clone();
    for _ in 0..15 {
        expected = smooth_tiles(&expected, 20, 15);
    }
    assert_eq!(ctx.map.tiles, expected);
    assert!(ctx.history.iter().all(|m| m.revealed_tiles.iter().all(|r| *r)));
}

#[test]
fn same_seed_gives_same_cave() {
    let mut a = BuilderMap::new(1, 40, 30);
    let mut b = BuilderMap::new(1, 40, 30);
    let mut rng_a = RandomNumberGenerator::seeded(1234);
    let mut rng_b = RandomNumberGenerator::seeded(1234);
    CellularAutomataBuilder::new().build_map(&mut rng_a, &mut a);
    CellularAutomataBuilder::new().build_map(&mut rng_b, &mut b);
    assert_eq!(a.map.tiles, b.map.tiles);
    assert_eq!(a.history.len(), b.history.len());
    // the border stays wall and the interior holds some floor
    for i in 0..a.map.tiles.len() {
        let p = a.map.idx_xy(i);
        if p.x == 0 || p.y == 0 || p.x == 39 || p.y == 29 {
            assert_eq!(a.map.tiles[i], TileType::Wall);
        }
    }
    assert!(a.map.tiles.iter().any(|t| *t == TileType::Floor));
}
