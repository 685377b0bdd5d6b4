use bracket_random::prelude::RandomNumberGenerator;
use rustlike::{BuildError, BuilderMap, Rect, RoomDrawer, SimpleMapBuilder, TileType};

#[test]
fn rects_that_touch_intersect() {
    let a = Rect::new(0, 0, 4, 4);
    assert_eq!(a, Rect { x1: 0, y1: 0, x2: 4, y2: 4 });
    assert!(a.intersect(&Rect::new(4, 0, 2, 2)));
    assert!(a.intersect(&Rect::new(2, 2, 5, 5)));
    assert!(!a.intersect(&Rect::new(5, 0, 2, 2)));
    assert!(!a.intersect(&Rect::new(0, 5, 2, 2)));
}

#[test]
fn generated_rooms_fit_and_do_not_touch() {
    let mut ctx = BuilderMap::new(1, 80, 50);
    let mut rng = RandomNumberGenerator::seeded(99);
    SimpleMapBuilder::new().build_map(&mut rng, &mut ctx);
    let rooms = ctx.rooms.clone().unwrap();
    assert!(!rooms.is_empty());
    assert!(rooms.len() <= 30);
    for (i, a) in rooms.iter().enumerate() {
        assert!(a.x1 >= 0 && a.y1 >= 0);
        assert!(a.x2 <= 78 && a.y2 <= 48);
        assert!((6..=10).contains(&(a.x2 - a.x1)));
        assert!((6..=10).contains(&(a.y2 - a.y1)));
        for b in rooms.iter().skip(i + 1) {
            assert!(!a.intersect(b));
        }
    }
    assert!(ctx.map.tiles.iter().all(|t| *t == TileType::Wall));
}

#[test]
fn tiny_map_gets_no_rooms() {
    let mut ctx = BuilderMap::new(1, 6, 6);
    let mut rng = RandomNumberGenerator::seeded(5);
    SimpleMapBuilder::new().build_map(&mut rng, &mut ctx);
    assert_eq!(ctx.rooms, Some(vec![]));
}

#[test]
fn drawing_without_rooms_fails() {
    let mut ctx = BuilderMap::new(1, 10, 10);
    assert_eq!(RoomDrawer::new().build_map(&mut ctx), Err(BuildError::NoRooms));
    assert!(ctx.map.tiles.iter().all(|t| *t == TileType::Wall));
}

#[test]
fn drawing_fills_only_room_interiors() {
    let mut ctx = BuilderMap::new(1, 10, 8);
    ctx.rooms = Some(vec![Rect::new(1, 1, 4, 3), Rect::new(6, 4, 5, 5)]);
    assert_eq!(RoomDrawer::new().build_map(&mut ctx), Ok(()));
    let mut floor: Vec<(i32, i32)> = Vec::new();
    for i in 0..80 {
        if ctx.map.tiles[i] == TileType::Floor {
            let p = ctx.map.idx_xy(i);
            floor.push((p.x, p.y));
        }
    }
    let mut expected = Vec::new();
    for y in 0..8 {
        for x in 0..10 {
            let in_first = x > 1 && x < 5 && y > 1 && y < 4;
            let in_second = x > 6 && x < 11 && y > 4 && y < 9;
            if in_first || in_second {
                expected.push((x, y));
            }
        }
    }
    assert_eq!(floor, expected);
    assert_eq!(ctx.history.len(), 2);
}

#[test]
fn drawing_an_empty_room_list_fails() {
    let mut ctx = BuilderMap::new(1, 10, 10);
    ctx.rooms = Some(Vec::new());
    assert_eq!(RoomDrawer::new().build_map(&mut ctx), Err(BuildError::NoRooms));
    assert!(ctx.history.is_empty());
}

#[test]
fn proposals_that_touch_a_kept_room_are_dropped() {
    let a = Rect::new(1, 1, 6, 6);
    let touching = Rect::new(7, 1, 6, 6);
    let apart = Rect::new(9, 1, 6, 6);
    let overlapping = Rect::new(3, 3, 6, 6);
    let kept = rustlike::simple_map::keep_rooms(&vec![a, touching, overlapping, apart]);
    assert_eq!(kept, vec![a, apart]);
}
