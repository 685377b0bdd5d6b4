use rustlike::{Position, TileMap, TileType};

#[test]
fn new_map_is_all_wall_with_cleared_fog() {
    let map = TileMap::new(3, 10, 5);
    assert_eq!(map.width, 10);
    assert_eq!(map.height, 5);
    assert_eq!(map.depth, 3);
    assert_eq!(map.tiles.len(), 50);
    assert_eq!(map.revealed_tiles.len(), 50);
    assert_eq!(map.visible_tiles.len(), 50);
    assert!(map.tiles.iter().all(|t| *t == TileType::Wall));
    assert!(map.revealed_tiles.iter().all(|r| !*r));
    assert!(map.visible_tiles.iter().all(|v| !*v));
}

#[test]
fn coordinate_index_mapping_round_trips() {
    let map = TileMap::new(1, 10, 5);
    let mut seen = vec![false; 50];
    for y in 0..5 {
        for x in 0..10 {
            let idx = map.xy_idx(x, y);
            assert_eq!(idx, (y * 10 + x) as usize);
            assert!(idx < 50);
            assert!(!seen[idx]);
            seen[idx] = true;
            assert_eq!(map.idx_xy(idx), Position { x, y });
        }
    }
    assert!(seen.iter().all(|s| *s));
}

#[test]
fn corner_indices() {
    let map = TileMap::new(1, 80, 43);
    assert_eq!(map.xy_idx(0, 0), 0);
    assert_eq!(map.xy_idx(79, 0), 79);
    assert_eq!(map.xy_idx(0, 1), 80);
    assert_eq!(map.xy_idx(79, 42), 80 * 43 - 1);
    assert_eq!(map.idx_xy(81), Position { x: 1, y: 1 });
}

#[test]
fn opacity_and_blocking_follow_tile_kind() {
    let mut map = TileMap::new(1, 3, 1);
    map.tiles[0] = TileType::Floor;
    map.tiles[1] = TileType::DownStairs;
    assert!(!map.is_opaque(0));
    assert!(!map.is_blocking(0));
    assert!(!map.is_opaque(1));
    assert!(!map.is_blocking(1));
    assert!(map.is_opaque(2));
    assert!(map.is_blocking(2));
}

#[test]
fn revealed_copy_is_deep_and_revealed() {
    let mut map = TileMap::new(2, 4, 3);
    map.tiles[5] = TileType::Floor;
    let copy = map.revealed_copy();
    map.tiles[5] = TileType::DownStairs;
    assert_eq!(copy.tiles[5], TileType::Floor);
    assert!(copy.revealed_tiles.iter().all(|r| *r));
    assert_eq!(copy.width, 4);
    assert_eq!(copy.height, 3);
    assert_eq!(copy.depth, 2);
}
