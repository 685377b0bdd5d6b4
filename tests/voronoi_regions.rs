use bracket_random::prelude::RandomNumberGenerator;
use rustlike::voronoi::{nearest_seed_exec, voronoi_regions, voronoi_regions_from_seeds};
use rustlike::{TileMap, TileType};

fn all_floor(w: i32, h: i32) -> TileMap {
    let mut map = TileMap::new(1, w, h);
    for t in map.tiles.iter_mut() {
        *t = TileType::Floor;
    }
    map
}

fn check_partition(map: &TileMap, regions: &[(usize, Vec<usize>)]) {
    let mut all: Vec<usize> = regions.iter().flat_map(|r| r.1.iter().cloned()).collect();
    let total = all.len();
    all.sort();
    all.dedup();
    assert_eq!(all.len(), total, "a tile is in two regions");
    let floors: Vec<usize> = (0..map.tiles.len()).filter(|i| map.tiles[*i] == TileType::Floor).collect();
    assert_eq!(all, floors);
    for r in regions {
        assert!(!r.1.is_empty());
    }
}

#[test]
fn single_centred_seed_takes_every_floor_tile() {
    let map = all_floor(9, 9);
    let regions = voronoi_regions_from_seeds(&map, &vec![40]);
    assert_eq!(regions.len(), 1);
    assert_eq!(regions[0].0, 0);
    assert_eq!(regions[0].1, (0..81).collect::<Vec<usize>>());
}

#[test]
fn walls_are_left_out_of_regions() {
    let mut map = all_floor(9, 9);
    for x in 0..9 {
        let top = map.xy_idx(x, 0);
        let bottom = map.xy_idx(x, 8);
        map.tiles[top] = TileType::Wall;
        map.tiles[bottom] = TileType::Wall;
    }
    for y in 0..9 {
        let left = map.xy_idx(0, y);
        let right = map.xy_idx(8, y);
        map.tiles[left] = TileType::Wall;
        map.tiles[right] = TileType::Wall;
    }
    let regions = voronoi_regions_from_seeds(&map, &vec![40]);
    assert_eq!(regions.len(), 1);
    assert_eq!(regions[0].1.len(), 49);
    check_partition(&map, &regions);
}

#[test]
fn ties_go_to_the_earlier_seed() {
    let seeds = vec![0usize, 4];
    assert_eq!(nearest_seed_exec(5, &seeds, 1), 0);
    assert_eq!(nearest_seed_exec(5, &seeds, 2), 0);
    assert_eq!(nearest_seed_exec(5, &seeds, 3), 1);
    // Chebyshev distance on a 5-wide grid: tile 6 is (1,1), one step from (0,0)
    let far = vec![4usize, 0];
    assert_eq!(nearest_seed_exec(5, &far, 6), 1);
}

#[test]
fn seeds_split_a_strip_into_regions() {
    let map = all_floor(6, 1);
    let regions = voronoi_regions_from_seeds(&map, &vec![0, 5]);
    assert_eq!(regions, vec![(0, vec![0, 1, 2]), (1, vec![3, 4, 5])]);
}

#[test]
fn empty_regions_are_omitted() {
    let map = all_floor(6, 1);
    let regions = voronoi_regions_from_seeds(&map, &vec![0, 0, 5]);
    assert_eq!(regions, vec![(0, vec![0, 1, 2]), (2, vec![3, 4, 5])]);
}

#[test]
fn random_regions_partition_the_floor() {
    let mut map = all_floor(20, 12);
    for i in (0..map.tiles.len()).step_by(7) {
        map.tiles[i] = TileType::Wall;
    }
    map.tiles[3] = TileType::DownStairs;
    let mut rng = RandomNumberGenerator::seeded(11);
    let regions = voronoi_regions(&map, 6, &mut rng);
    assert!(!regions.is_empty());
    assert!(regions.len() <= 6);
    for r in &regions {
        assert!(r.0 < 6);
    }
    check_partition(&map, &regions);
}

#[test]
fn no_seeds_or_no_floor_gives_no_regions() {
    let map = all_floor(5, 5);
    let mut rng = RandomNumberGenerator::seeded(3);
    assert!(voronoi_regions(&map, 0, &mut rng).is_empty());
    let walls = TileMap::new(1, 5, 5);
    assert!(voronoi_regions(&walls, 4, &mut rng).is_empty());
}
