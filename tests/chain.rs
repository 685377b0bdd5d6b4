use bracket_random::prelude::RandomNumberGenerator;
use rustlike::reach::distance_field;
use rustlike::{
    generate_level, level_builder, BuildError, BuilderChain, CellularAutomataBuilder, InitialBuilder, MetaBuilder,
    PrefabBuilder, PrefabMode, SimpleMapBuilder, TileMap, TileType,
};

fn stairs_of(map: &TileMap) -> Vec<usize> {
    (0..map.tiles.len()).filter(|i| map.tiles[*i] == TileType::DownStairs).collect()
}

#[test]
fn generated_level_has_reachable_stairs() {
    for seed in [1u64, 2, 3, 42] {
        let mut rng = RandomNumberGenerator::seeded(seed);
        match generate_level(3, &mut rng, 80, 43) {
            Ok(ctx) => {
                assert_eq!(ctx.map.depth, 3);
                assert_eq!(ctx.map.tiles.len(), 80 * 43);
                let start = ctx.starting_position.unwrap();
                let start_idx = ctx.map.xy_idx(start.x, start.y);
                // the first Floor tile walking left from the centre
                assert_eq!(start.y, 21);
                assert!(start.x <= 40);
                assert_eq!(ctx.map.tiles[start_idx], TileType::Floor);
                for x in start.x + 1..=40 {
                    let idx = ctx.map.xy_idx(x, 21);
                    assert_ne!(ctx.map.tiles[idx], TileType::Floor);
                }
                let stairs = stairs_of(&ctx.map);
                assert_eq!(stairs.len(), 1);
                let dist = distance_field(&ctx.map, start_idx);
                assert!(dist[stairs[0]].is_some());
                // every remaining floor tile is connected to the start
                for i in 0..ctx.map.tiles.len() {
                    if ctx.map.tiles[i] == TileType::Floor {
                        assert!(dist[i].is_some());
                    }
                }
                assert!(!ctx.spawn_regions.is_empty());
                assert!(ctx.history.len() >= 16);
            }
            Err(e) => assert_eq!(e, BuildError::NoStartingTile),
        }
    }
}

#[test]
fn chain_without_initial_builder_fails() {
    let mut chain = BuilderChain::new(1, 20, 20);
    chain.with(MetaBuilder::DistantExit);
    let mut rng = RandomNumberGenerator::seeded(1);
    assert_eq!(chain.build_map(&mut rng), Err(BuildError::NoInitialBuilder));
    assert_eq!(chain.spawn_entries().err(), Some(BuildError::NotBuilt));
}

#[test]
fn second_initial_builder_is_refused() {
    let mut chain = BuilderChain::new(1, 20, 20);
    assert_eq!(chain.start_with(InitialBuilder::CellularAutomata(CellularAutomataBuilder::new())), Ok(()));
    assert_eq!(
        chain.start_with(InitialBuilder::SimpleMap(SimpleMapBuilder::new())),
        Err(BuildError::StarterAlreadySet)
    );
}

#[test]
fn level_builder_chain_builds() {
    let mut chain = level_builder(2, 80, 43);
    let mut rng = RandomNumberGenerator::seeded(7);
    let r = chain.build_map(&mut rng);
    if r.is_ok() {
        assert_eq!(stairs_of(&chain.build_data.map).len(), 1);
        assert!(chain.build_data.starting_position.is_some());
        assert!(chain.spawn_entries().is_ok());
    } else {
        assert_eq!(r, Err(BuildError::NoStartingTile));
    }
}

#[test]
fn rooms_chain_draws_rooms_and_places_exit() {
    let mut chain = BuilderChain::new(1, 60, 40);
    assert_eq!(chain.start_with(InitialBuilder::SimpleMap(SimpleMapBuilder::new())), Ok(()));
    chain.with(MetaBuilder::RoomDrawer);
    let mut rng = RandomNumberGenerator::seeded(31);
    assert_eq!(chain.build_map(&mut rng), Ok(()));
    let rooms = chain.build_data.rooms.clone().unwrap();
    let floors = chain.build_data.map.tiles.iter().filter(|t| **t == TileType::Floor).count();
    let expected: i32 = rooms.iter().map(|r| (r.x2 - r.x1 - 1) * (r.y2 - r.y1 - 1)).sum();
    assert_eq!(floors as i32, expected);
}

#[test]
fn room_drawer_before_rooms_fails_the_chain() {
    let mut chain = BuilderChain::new(1, 30, 30);
    assert_eq!(chain.start_with(InitialBuilder::CellularAutomata(CellularAutomataBuilder::new())), Ok(()));
    chain.with(MetaBuilder::RoomDrawer);
    let mut rng = RandomNumberGenerator::seeded(4);
    assert_eq!(chain.build_map(&mut rng), Err(BuildError::NoRooms));
}

#[test]
fn prefab_with_wrong_glyph_count_is_refused() {
    let mut chain = BuilderChain::new(1, 20, 20);
    let prefab = PrefabBuilder::new(PrefabMode::RexLevel { template: "level.xp" });
    assert_eq!(chain.start_with(InitialBuilder::Prefab(prefab, vec![' '; 5], 2, 2)), Ok(()));
    let mut rng = RandomNumberGenerator::seeded(4);
    assert_eq!(chain.build_map(&mut rng), Err(BuildError::TemplateSize));
}

#[test]
fn prefab_chain_keeps_template_spawns() {
    let mut chain = BuilderChain::new(1, 5, 3);
    let prefab = PrefabBuilder::new(PrefabMode::RexLevel { template: "level.xp" });
    let glyphs: Vec<char> = "######@g>######".chars().collect();
    assert_eq!(chain.start_with(InitialBuilder::Prefab(prefab, glyphs, 5, 3)), Ok(()));
    let mut rng = RandomNumberGenerator::seeded(4);
    assert_eq!(chain.build_map(&mut rng), Ok(()));
    let spawns = chain.spawn_entries().unwrap();
    assert_eq!(spawns, &vec![(7usize, "Goblin".to_string())]);
    assert_eq!(stairs_of(&chain.build_data.map), vec![8]);
}
