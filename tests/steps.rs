use bracket_random::prelude::RandomNumberGenerator;
use rustlike::random::{roll, roll_many};
use rustlike::transforms::{area_starting_position, distant_exit, voronoi_spawning};
use rustlike::{BuildError, BuilderMap, Position, TileType};

#[test]
fn rolls_stay_on_the_die() {
    let mut rng = RandomNumberGenerator::seeded(77);
    let rolls: Vec<i32> = (0..200).map(|_| roll(&mut rng, 6)).collect();
    assert!(rolls.iter().all(|r| (1..=6).contains(r)));
    assert!(rolls.iter().any(|r| *r != 6));
    assert!(rolls.iter().any(|r| *r == 1));
    let many = roll_many(&mut rng, 50, 100);
    assert_eq!(many.len(), 50);
    assert!(many.iter().all(|r| (1..=100).contains(r)));
    assert!(many.iter().any(|r| *r != 100));
}

#[test]
fn exit_needs_a_starting_position() {
    let mut ctx = BuilderMap::new(1, 5, 5);
    assert_eq!(distant_exit(&mut ctx), Err(BuildError::NoStartingPosition));
    ctx.starting_position = Some(Position { x: 7, y: 1 });
    assert_eq!(distant_exit(&mut ctx), Err(BuildError::NoStartingPosition));
}

#[test]
fn start_and_exit_on_an_open_room() {
    let mut ctx = BuilderMap::new(1, 7, 5);
    for y in 1..4 {
        for x in 1..6 {
            let idx = ctx.map.xy_idx(x, y);
            ctx.map.tiles[idx] = TileType::Floor;
        }
    }
    assert_eq!(area_starting_position(&mut ctx), Ok(()));
    assert_eq!(ctx.starting_position, Some(Position { x: 3, y: 2 }));
    let exit = distant_exit(&mut ctx).unwrap();
    assert_eq!(ctx.map.tiles[exit], TileType::DownStairs);
    // the farthest corners are three steps away in both axes
    let p = ctx.map.idx_xy(exit);
    assert_eq!((p.x - 3).abs() + (p.y - 2).abs(), 3);
}

#[test]
fn existing_start_is_kept() {
    let mut ctx = BuilderMap::new(1, 7, 5);
    ctx.starting_position = Some(Position { x: 1, y: 1 });
    assert_eq!(area_starting_position(&mut ctx), Ok(()));
    assert_eq!(ctx.starting_position, Some(Position { x: 1, y: 1 }));
}

#[test]
fn spawn_regions_need_a_map() {
    let mut ctx = BuilderMap::new(1, 0, 5);
    let mut rng = RandomNumberGenerator::seeded(2);
    assert_eq!(voronoi_spawning(&mut ctx, 4, &mut rng), Err(BuildError::MapTooSmall));
    let mut open = BuilderMap::new(1, 6, 6);
    for t in open.map.tiles.iter_mut() {
        *t = TileType::Floor;
    }
    assert_eq!(voronoi_spawning(&mut open, 4, &mut rng), Ok(()));
    let total: usize = open.spawn_regions.iter().map(|r| r.1.len()).sum();
    assert_eq!(total, 36);
}

#[test]
fn no_seeds_give_no_spawn_regions() {
    let mut open = BuilderMap::new(1, 6, 6);
    for t in open.map.tiles.iter_mut() {
        *t = TileType::Floor;
    }
    let mut rng = RandomNumberGenerator::seeded(9);
    assert_eq!(voronoi_spawning(&mut open, 0, &mut rng), Ok(()));
    assert!(open.spawn_regions.is_empty());
}
