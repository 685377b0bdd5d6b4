use rustlike::prefab_builder::load_template;
use rustlike::reach::distance_field;
use rustlike::{BuildError, BuilderMap, Position, PrefabBuilder, PrefabMode, TileType};

fn glyphs(rows: &[&str]) -> (Vec<char>, usize, usize) {
    let h = rows.len();
    let w = rows[0].chars().count();
    let mut out = Vec::new();
    for r in rows {
        out.extend(r.chars());
    }
    (out, w, h)
}

fn prefab() -> PrefabBuilder {
    PrefabBuilder::new(PrefabMode::RexLevel { template: "../resources/wfc-demo1.xp" })
}

#[test]
fn start_and_stairs_come_from_the_template() {
    let mut ctx = BuilderMap::new(1, 10, 5);
    let (g, w, h) = glyphs(&["#####", "#@ >#", "#####"]);
    let r = prefab().build_map(&mut ctx, &g, w, h);
    assert_eq!(r, Ok(()));
    assert_eq!(ctx.starting_position, Some(Position { x: 1, y: 1 }));
    let stairs: Vec<usize> = (0..50).filter(|i| ctx.map.tiles[*i] == TileType::DownStairs).collect();
    assert_eq!(stairs, vec![13]);
    assert_eq!(ctx.map.tiles[11], TileType::Floor);
    assert_eq!(ctx.map.tiles[12], TileType::Floor);
}

#[test]
fn entity_glyphs_place_floor_and_spawns_in_order() {
    let mut ctx = BuilderMap::new(1, 6, 2);
    let (g, w, h) = glyphs(&["g o^%!", "  #   "]);
    load_template(&mut ctx, &g, w, h);
    let tags: Vec<(usize, String)> = ctx.spawn_list.clone();
    assert_eq!(
        tags,
        vec![
            (0, "Goblin".to_string()),
            (2, "Orc".to_string()),
            (3, "Bear Trap".to_string()),
            (4, "Rations".to_string()),
            (5, "Health Potion".to_string()),
        ]
    );
    for i in 0..6 {
        assert_eq!(ctx.map.tiles[i], TileType::Floor);
    }
    assert_eq!(ctx.map.tiles[8], TileType::Wall);
    assert_eq!(ctx.map.tiles[6], TileType::Floor);
    assert_eq!(ctx.starting_position, None);
}

#[test]
fn unknown_glyphs_leave_tiles_alone() {
    let mut ctx = BuilderMap::new(1, 3, 1);
    ctx.map.tiles[1] = TileType::Floor;
    let (g, w, h) = glyphs(&["Z?#"]);
    load_template(&mut ctx, &g, w, h);
    assert_eq!(ctx.map.tiles[0], TileType::Wall);
    assert_eq!(ctx.map.tiles[1], TileType::Floor);
    assert_eq!(ctx.map.tiles[2], TileType::Wall);
    assert!(ctx.spawn_list.is_empty());
}

#[test]
fn glyphs_past_the_map_edge_are_ignored() {
    let mut ctx = BuilderMap::new(1, 2, 2);
    let (g, w, h) = glyphs(&["  >", "  >", "@@@"]);
    load_template(&mut ctx, &g, w, h);
    assert!(ctx.map.tiles.iter().all(|t| *t == TileType::Floor));
    assert_eq!(ctx.starting_position, None);
}

#[test]
fn last_start_glyph_wins() {
    let mut ctx = BuilderMap::new(1, 4, 2);
    let (g, w, h) = glyphs(&["@  @", " @  "]);
    load_template(&mut ctx, &g, w, h);
    assert_eq!(ctx.starting_position, Some(Position { x: 1, y: 1 }));
}

#[test]
fn template_without_start_gets_a_reachable_exit() {
    let mut ctx = BuilderMap::new(1, 9, 5);
    let (g, w, h) = glyphs(&["#########", "#       #", "#  ###  #", "#       #", "#########"]);
    let r = prefab().build_map(&mut ctx, &g, w, h);
    assert_eq!(r, Ok(()));
    let start = ctx.starting_position.unwrap();
    assert_eq!(start, Position { x: 2, y: 2 });
    let start_idx = ctx.map.xy_idx(start.x, start.y);
    let stairs: Vec<usize> = (0..45).filter(|i| ctx.map.tiles[*i] == TileType::DownStairs).collect();
    assert_eq!(stairs.len(), 1);
    let dist = distance_field(&ctx.map, start_idx);
    assert!(dist[stairs[0]].is_some());
}

#[test]
fn template_without_any_floor_on_the_centre_row_fails() {
    let mut ctx = BuilderMap::new(1, 5, 3);
    let (g, w, h) = glyphs(&["#####", "#####", "#####"]);
    assert_eq!(prefab().build_map(&mut ctx, &g, w, h), Err(BuildError::NoStartingTile));
}

#[test]
fn stairs_walled_off_from_the_start_are_refused() {
    let mut ctx = BuilderMap::new(1, 5, 3);
    let (g, w, h) = glyphs(&["#####", "#@#>#", "#####"]);
    assert_eq!(prefab().build_map(&mut ctx, &g, w, h), Err(BuildError::ExitUnreachable));
}
