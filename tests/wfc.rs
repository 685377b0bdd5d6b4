use bracket_random::prelude::RandomNumberGenerator;
use rustlike::cellular_automata::CellularAutomataBuilder;
use rustlike::waveform_collapse::CHUNK_SIZE;
use rustlike::wfc_common::{build_patterns, edges_match_exec, make_variant, patterns_to_constraints, EAST, NORTH, SOUTH, WEST};
use rustlike::wfc_solver::{weighted_choice, Solver};
use rustlike::{BuildError, BuilderMap, TileMap, TileType, WaveformCollapseBuilder};

const W: TileType = TileType::Wall;
const F: TileType = TileType::Floor;

#[test]
fn edges_are_compared_face_to_face() {
    // p: W F / W W ; q: W W / W F
    let p = vec![W, F, W, W];
    let q = vec![W, W, W, F];
    // q above p: p's top row (W F) against q's bottom row (W F)
    assert!(edges_match_exec(&p, &q, 2, NORTH));
    // q below p: p's bottom row (W W) against q's top row (W W)
    assert!(edges_match_exec(&p, &q, 2, SOUTH));
    // q right of p: p's right column (F W) against q's left column (W W)
    assert!(!edges_match_exec(&p, &q, 2, EAST));
    // q left of p: p's left column (W W) against q's right column (W F)
    assert!(!edges_match_exec(&p, &q, 2, WEST));
}

#[test]
fn variants_turn_and_mirror() {
    let p = vec![W, F, W, W];
    assert_eq!(make_variant(&p, 2, 0), p);
    assert_eq!(make_variant(&p, 2, 1), vec![W, W, W, F]);
    assert_eq!(make_variant(&p, 2, 2), vec![W, W, F, W]);
    assert_eq!(make_variant(&p, 2, 3), vec![F, W, W, W]);
    assert_eq!(make_variant(&p, 2, 4), vec![F, W, W, W]);
}

#[test]
fn uniform_source_gives_one_pattern() {
    let map = TileMap::new(1, 10, 10);
    let (patterns, weights) = build_patterns(&map, 5, true);
    assert_eq!(patterns.len(), 1);
    assert_eq!(weights, vec![180]);
    let (plain, plain_weights) = build_patterns(&map, 5, false);
    assert_eq!(plain.len(), 1);
    assert_eq!(plain_weights, vec![36]);
}

#[test]
fn patterns_are_distinct_and_cover_windows() {
    let mut map = TileMap::new(1, 4, 4);
    map.tiles[0] = F;
    map.tiles[3] = F;
    let (patterns, weights) = build_patterns(&map, 2, false);
    // nine windows: the top-left one has F at its top-left corner, the
    // top-right one at its top-right corner, the other seven are all wall
    assert_eq!(patterns, vec![vec![F, W, W, W], vec![W, W, W, W], vec![W, F, W, W]]);
    assert_eq!(weights, vec![1, 7, 1]);
    let chunks = patterns_to_constraints(patterns, &weights, 2);
    assert_eq!(chunks.len(), 3);
    // the all-wall pattern may sit below the corner patterns (their bottom rows are wall)
    assert!(chunks[0].compatible_with[SOUTH][1]);
    assert!(chunks[2].compatible_with[SOUTH][1]);
    // the first corner pattern's right column (W W) meets the other corner's left column (W W)
    assert!(chunks[0].compatible_with[EAST][2]);
    // the other corner's right column (F W) meets the first corner's left column (F W), not its own (W W)
    assert!(chunks[2].compatible_with[EAST][0]);
    assert!(!chunks[2].compatible_with[EAST][2]);
}

fn check_solution(source: &TileMap, out: &TileMap) {
    let n = CHUNK_SIZE;
    let (patterns, weights) = build_patterns(source, n, true);
    let chunks = patterns_to_constraints(patterns, &weights, n);
    let cw = source.width as usize / n;
    let ch = source.height as usize / n;
    let mut chosen = vec![0usize; cw * ch];
    for cy in 0..ch {
        for cx in 0..cw {
            let mut window = Vec::new();
            for dy in 0..n {
                for dx in 0..n {
                    window.push(out.tiles[(cy * n + dy) * out.width as usize + cx * n + dx]);
                }
            }
            let found = chunks.iter().position(|c| c.pattern == window);
            assert!(found.is_some(), "window ({}, {}) is not a learned pattern", cx, cy);
            chosen[cy * cw + cx] = found.unwrap();
        }
    }
    for cy in 0..ch {
        for cx in 0..cw {
            let p = chosen[cy * cw + cx];
            if cx + 1 < cw {
                assert!(chunks[p].compatible_with[EAST][chosen[cy * cw + cx + 1]]);
            }
            if cy + 1 < ch {
                assert!(chunks[p].compatible_with[SOUTH][chosen[(cy + 1) * cw + cx]]);
            }
            if cx > 0 {
                assert!(chunks[p].compatible_with[WEST][chosen[cy * cw + cx - 1]]);
            }
            if cy > 0 {
                assert!(chunks[p].compatible_with[NORTH][chosen[(cy - 1) * cw + cx]]);
            }
        }
    }
    for i in 0..out.tiles.len() {
        let p = out.idx_xy(i);
        if p.x as usize >= cw * n || p.y as usize >= ch * n {
            assert_eq!(out.tiles[i], W);
        }
    }
}

#[test]
fn solved_map_only_joins_matching_patterns() {
    let mut ctx = BuilderMap::new(1, 22, 17);
    let mut rng = RandomNumberGenerator::seeded(2024);
    CellularAutomataBuilder::new().build_map(&mut rng, &mut ctx);
    let source = ctx.map.revealed_copy();
    ctx.spawn_list.push((50, "Goblin".to_string()));
    let r = WaveformCollapseBuilder::new().build_map(&mut rng, &mut ctx);
    assert_eq!(r, Ok(()));
    assert_eq!(ctx.map.width, 22);
    assert_eq!(ctx.map.height, 17);
    assert!(ctx.spawn_list.is_empty());
    check_solution(&source, &ctx.map);
}

#[test]
fn stairs_count_as_floor_when_learning() {
    let mut ctx = BuilderMap::new(1, 10, 10);
    for i in 0..100 {
        ctx.map.tiles[i] = F;
    }
    ctx.map.tiles[55] = TileType::DownStairs;
    let mut rng = RandomNumberGenerator::seeded(8);
    assert_eq!(WaveformCollapseBuilder::new().build_map(&mut rng, &mut ctx), Ok(()));
    assert!(ctx.map.tiles.iter().all(|t| *t == F));
}

#[test]
fn solver_steps_until_every_cell_is_chosen() {
    let mut map = TileMap::new(1, 4, 4);
    map.tiles[0] = F;
    map.tiles[5] = F;
    let (patterns, weights) = build_patterns(&map, 2, true);
    let chunks = patterns_to_constraints(patterns, &weights, 2);
    let mut rng = RandomNumberGenerator::seeded(17);
    let mut steps = 0;
    let mut solver = Solver::new(&chunks, 2, 3, 3);
    while !solver.iteration(&chunks, &mut rng) {
        steps += 1;
        assert!(steps <= 9);
    }
    if solver.possible {
        assert_eq!(steps, 9);
        let sol = solver.solution(&chunks);
        for c in 0..9 {
            if c % 3 < 2 {
                assert!(chunks[sol[c]].compatible_with[EAST][sol[c + 1]]);
            }
            if c / 3 < 2 {
                assert!(chunks[sol[c]].compatible_with[SOUTH][sol[c + 3]]);
            }
        }
    }
}

#[test]
fn map_smaller_than_a_chunk_is_refused() {
    let mut ctx = BuilderMap::new(1, 4, 20);
    let mut rng = RandomNumberGenerator::seeded(1);
    assert_eq!(WaveformCollapseBuilder::new().build_map(&mut rng, &mut ctx), Err(BuildError::MapTooSmall));
}

#[test]
fn gallery_shows_patterns_on_snapshots() {
    let mut ctx = BuilderMap::new(1, 20, 20);
    let map = TileMap::new(1, 10, 10);
    let (patterns, weights) = build_patterns(&map, 5, true);
    let chunks = patterns_to_constraints(patterns, &weights, 5);
    WaveformCollapseBuilder::new().render_tile_gallery(&chunks, 5, &mut ctx);
    assert_eq!(ctx.history.len(), 1);
    assert_eq!(ctx.map.width, 20);
}

#[test]
fn weighted_choice_takes_the_first_pattern_reaching_the_draw() {
    let weights = vec![3u32, 5, 2];
    let possible = vec![true, false, true];
    for t in 1..=3 {
        assert_eq!(weighted_choice(&weights, &possible, t), Some(0));
    }
    for t in 4..=5 {
        assert_eq!(weighted_choice(&weights, &possible, t), Some(2));
    }
    assert_eq!(weighted_choice(&weights, &possible, 6), None);
}

#[test]
fn gallery_flushes_full_pages() {
    let mut ctx = BuilderMap::new(1, 8, 8);
    let map = TileMap::new(1, 10, 10);
    let (patterns, weights) = build_patterns(&map, 5, true);
    let chunks = patterns_to_constraints(patterns, &weights, 5);
    WaveformCollapseBuilder::new().render_tile_gallery(&chunks, 5, &mut ctx);
    // one pattern fills the first page, which is flushed, then the blank last page
    assert_eq!(ctx.history.len(), 2);
    let none: Vec<rustlike::wfc_common::MapChunk> = Vec::new();
    let mut blank = BuilderMap::new(1, 8, 8);
    blank.map.tiles[9] = TileType::Floor;
    WaveformCollapseBuilder::new().render_tile_gallery(&none, 5, &mut blank);
    assert_eq!(blank.history.len(), 1);
    assert!(blank.map.tiles.iter().all(|t| *t == W));
}
