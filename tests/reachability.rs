use rustlike::exits::{find_start_from_centre, most_distant, most_distant_reachable, place_distant_exit};
use rustlike::reach::distance_field;
use rustlike::{TileMap, TileType};

fn map_from(rows: &[&str]) -> TileMap {
    let h = rows.len() as i32;
    let w = rows[0].len() as i32;
    let mut map = TileMap::new(1, w, h);
    for (y, row) in rows.iter().enumerate() {
        for (x, c) in row.chars().enumerate() {
            let idx = y * w as usize + x;
            map.tiles[idx] = match c {
                '.' => TileType::Floor,
                '>' => TileType::DownStairs,
                _ => TileType::Wall,
            };
        }
    }
    map
}

#[test]
fn distance_field_counts_steps_through_floor() {
    let map = map_from(&["#####", "#...#", "#####"]);
    let dist = distance_field(&map, 6);
    assert_eq!(dist[6], Some(0));
    assert_eq!(dist[7], Some(1));
    assert_eq!(dist[8], Some(2));
    assert_eq!(dist[0], None);
    assert_eq!(dist[12], None);
}

#[test]
fn distance_field_walks_around_walls() {
    let map = map_from(&["#######", "#.#...#", "#...#.#", "#######"]);
    let start = map.xy_idx(1, 1);
    let dist = distance_field(&map, start);
    let target = map.xy_idx(5, 2);
    // (1,1) (1,2) (2,2) (3,2) (3,1) (4,1) (5,1) (5,2)
    assert_eq!(dist[target], Some(7));
    assert_eq!(dist[map.xy_idx(2, 1)], None);
}

#[test]
fn most_distant_is_farthest_reachable_tile() {
    let mut map = map_from(&["#######", "#.#...#", "#...#.#", "#######"]);
    let start = map.xy_idx(1, 1);
    let far = most_distant_reachable(&mut map, start, false);
    assert_eq!(far, map.xy_idx(5, 2));
}

#[test]
fn most_distant_picks_a_maximum() {
    let dist = vec![Some(0), None, Some(3), Some(1), Some(3)];
    let r = most_distant(&dist, 0);
    assert_eq!(dist[r], Some(3));
}

#[test]
fn isolated_start_is_its_own_most_distant_tile() {
    let mut map = map_from(&["###", "#.#", "###"]);
    let start = map.xy_idx(1, 1);
    assert_eq!(most_distant_reachable(&mut map, start, true), start);
}

#[test]
fn excluding_unreachable_culls_isolated_pockets() {
    let rows = ["#######", "#..#..#", "#######"];
    let mut keep = map_from(&rows);
    let start = keep.xy_idx(1, 1);
    most_distant_reachable(&mut keep, start, false);
    assert_eq!(keep.tiles[keep.xy_idx(4, 1)], TileType::Floor);

    let mut cull = map_from(&rows);
    let far = most_distant_reachable(&mut cull, start, true);
    assert_eq!(far, cull.xy_idx(2, 1));
    assert_eq!(cull.tiles[cull.xy_idx(4, 1)], TileType::Wall);
    assert_eq!(cull.tiles[cull.xy_idx(5, 1)], TileType::Wall);
    assert_eq!(cull.tiles[cull.xy_idx(1, 1)], TileType::Floor);
    assert_eq!(cull.tiles[cull.xy_idx(2, 1)], TileType::Floor);
}

#[test]
fn placed_exit_is_reachable_from_start() {
    let mut map = map_from(&["########", "#......#", "#.####.#", "#.#..#.#", "########"]);
    let start = map.xy_idx(1, 1);
    let exit = place_distant_exit(&mut map, start);
    assert_eq!(map.tiles[exit], TileType::DownStairs);
    assert_eq!(map.tiles.iter().filter(|t| **t == TileType::DownStairs).count(), 1);
    assert_eq!(exit, map.xy_idx(6, 3));
    let dist = distance_field(&map, start);
    assert_eq!(dist[exit], Some(7));
    // the pocket at (3,3)-(4,3) was unreachable and is now wall
    assert_eq!(map.tiles[map.xy_idx(3, 3)], TileType::Wall);
}

#[test]
fn start_search_walks_left_from_centre() {
    let map = map_from(&["#########", "#########", "##.######", "#########", "#########"]);
    assert_eq!(find_start_from_centre(&map), Some(map.xy_idx(2, 2)));
    let walls = map_from(&["#####", "#####", "#####"]);
    assert_eq!(find_start_from_centre(&walls), None);
    let right_only = map_from(&["#####", "####.", "#####"]);
    assert_eq!(find_start_from_centre(&right_only), None);
}
