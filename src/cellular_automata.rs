use bracket_random::prelude::RandomNumberGenerator;
use vstd::prelude::*;

use crate::builder_map::BuilderMap;
use crate::map::{idx_of, lemma_coords_of_index, lemma_index_in_range, tile_at, TileMap, TileType};
use crate::random::roll_many;

verus! {

/// Smoothing passes run after the random fill.
pub const SMOOTHING_PASSES: usize = 15;

/// Highest roll that seeds a Floor tile: rolls of a hundred-sided die up to
/// this value (45 of 100) give Floor, the rest Wall.
pub const FLOOR_ROLL_MAX: i32 = 45;

/// Whether `(x, y)` is off the outer border of a `w` by `h` grid.
pub open spec fn interior(w: int, h: int, x: int, y: int) -> bool {
    1 <= x < w - 1 && 1 <= y < h - 1
}

/// The tile that a fill roll produces.
pub open spec fn fill_tile(roll: int) -> TileType {
    if roll <= FLOOR_ROLL_MAX {
        TileType::Floor
    } else {
        TileType::Wall
    }
}

/// The grid after the random fill: interior tiles from their rolls, the
/// border unchanged.
pub open spec fn filled(tiles: Seq<TileType>, w: int, h: int, rolls: Seq<i32>) -> Seq<TileType> {
    Seq::new(
        tiles.len(),
        |i: int|
            if interior(w, h, i % w, i / w) {
                fill_tile(rolls[i] as int)
            } else {
                tiles[i]
            },
    )
}

pub open spec fn wall_at(tiles: Seq<TileType>, w: int, x: int, y: int) -> int {
    if tile_at(tiles, w, x, y) == TileType::Wall {
        1
    } else {
        0
    }
}

/// Walls among the eight neighbours of `(x, y)`.
pub open spec fn wall_neighbours(tiles: Seq<TileType>, w: int, x: int, y: int) -> int {
    wall_at(tiles, w, x - 1, y) + wall_at(tiles, w, x + 1, y) + wall_at(tiles, w, x, y - 1)
        + wall_at(tiles, w, x, y + 1) + wall_at(tiles, w, x - 1, y - 1) + wall_at(tiles, w, x + 1, y - 1)
        + wall_at(tiles, w, x - 1, y + 1) + wall_at(tiles, w, x + 1, y + 1)
}

/// An interior tile after one pass: Wall when more than four or none of its
/// neighbours are walls, Floor otherwise.
pub open spec fn smoothed_tile(tiles: Seq<TileType>, w: int, x: int, y: int) -> TileType {
    let c = wall_neighbours(tiles, w, x, y);
    if c > 4 || c == 0 {
        TileType::Wall
    } else {
        TileType::Floor
    }
}

/// The grid after one smoothing pass.
pub open spec fn smoothed(tiles: Seq<TileType>, w: int, h: int) -> Seq<TileType> {
    Seq::new(
        tiles.len(),
        |i: int|
            if interior(w, h, i % w, i / w) {
                smoothed_tile(tiles, w, i % w, i / w)
            } else {
                tiles[i]
            },
    )
}

/// The grid after `n` smoothing passes.
pub open spec fn smoothed_n(tiles: Seq<TileType>, w: int, h: int, n: nat) -> Seq<TileType>
    decreases n,
{
    if n == 0 {
        tiles
    } else {
        smoothed(smoothed_n(tiles, w, h, (n - 1) as nat), w, h)
    }
}

/// The cave that the generator produces from a map and its fill rolls.
pub open spec fn cave_of(tiles: Seq<TileType>, w: int, h: int, rolls: Seq<i32>) -> Seq<TileType> {
    smoothed_n(filled(tiles, w, h, rolls), w, h, SMOOTHING_PASSES as nat)
}

proof fn lemma_offset_index(w: int, x: int, y: int, dx: int, dy: int)
    ensures
        idx_of(w, x + dx, y + dy) == idx_of(w, x, y) + dy * w + dx,
{
    assert((y + dy) * w + (x + dx) == y * w + x + dy * w + dx) by (nonlinear_arith);
}

/// Fills every interior tile from its roll (`rolls` is indexed like the
/// tiles); the border is left as it is.
pub fn random_fill(map: &mut TileMap, rolls: &Vec<i32>)
    requires
        old(map).wf(),
        rolls@.len() == old(map).tiles@.len(),
    ensures
        final(map).wf(),
        final(map).width == old(map).width,
        final(map).height == old(map).height,
        final(map).depth == old(map).depth,
        final(map).tiles@ == filled(old(map).tiles@, old(map).width as int, old(map).height as int, rolls@),
{
    let n = map.tiles.len();
    let w = map.width as usize;
    let h = map.height as usize;
    let ghost old_tiles = map.tiles@;
    let mut i: usize = 0;
    while i < n
        invariant
            map.wf(),
            n == map.tiles@.len(),
            w == map.width,
            h == map.height,
            map.width == old(map).width,
            map.height == old(map).height,
            map.depth == old(map).depth,
            old_tiles == old(map).tiles@,
            old_tiles.len() == n,
            rolls@.len() == n,
            n == w * h,
            i <= n,
            forall|j: int|
                0 <= j < n ==> #[trigger] map.tiles@[j] == if j < i {
                    filled(old_tiles, w as int, h as int, rolls@)[j]
                } else {
                    old_tiles[j]
                },
        decreases n - i,
    {
        assert(w > 0) by (nonlinear_arith)
            requires
                n == w * h,
                i < n,
        ;
        let x = i % w;
        let y = i / w;
        if x >= 1 && x + 1 < w && y >= 1 && y + 1 < h {
            if rolls[i] <= FLOOR_ROLL_MAX {
                map.tiles.set(i, TileType::Floor);
            } else {
                map.tiles.set(i, TileType::Wall);
            }
        }
        assert(map.tiles@[i as int] == filled(old_tiles, w as int, h as int, rolls@)[i as int]);
        i = i + 1;
    }
    assert(map.tiles@ =~= filled(old_tiles, w as int, h as int, rolls@));
}

/// One smoothing pass over a whole grid.
pub fn smooth_tiles(tiles: &Vec<TileType>, width: i32, height: i32) -> (r: Vec<TileType>)
    requires
        0 < width,
        0 <= height,
        tiles@.len() == width * height,
    ensures
        r@ == smoothed(tiles@, width as int, height as int),
{
    let n = tiles.len();
    let w = width as usize;
    let h = height as usize;
    let ghost wi = width as int;
    let ghost hi = height as int;
    let mut out: Vec<TileType> = Vec::with_capacity(n);
    let mut i: usize = 0;
    while i < n
        invariant
            0 < wi,
            w as int == wi,
            h as int == hi,
            n == tiles@.len(),
            n == wi * hi,
            i <= n,
            out@ == smoothed(tiles@, wi, hi).subrange(0, i as int),
        decreases n - i,
    {
        let x = i % w;
        let y = i / w;
        proof {
            lemma_coords_of_index(wi, hi, i as int);
        }
        if x >= 1 && x + 1 < w && y >= 1 && y + 1 < h {
            proof {
                lemma_index_in_range(wi, hi, x + 1, y + 1);
                lemma_offset_index(wi, x as int, y as int, -1, 0);
                lemma_offset_index(wi, x as int, y as int, 1, 0);
                lemma_offset_index(wi, x as int, y as int, 0, -1);
                lemma_offset_index(wi, x as int, y as int, 0, 1);
                lemma_offset_index(wi, x as int, y as int, -1, -1);
                lemma_offset_index(wi, x as int, y as int, 1, -1);
                lemma_offset_index(wi, x as int, y as int, -1, 1);
                lemma_offset_index(wi, x as int, y as int, 1, 1);
                assert(i + w + 1 == idx_of(wi, x + 1, y + 1));
                assert(i - w - 1 == idx_of(wi, x - 1, y - 1)) by {
                    assert(y * wi >= wi) by (nonlinear_arith)
                        requires
                            y >= 1,
                            wi > 0,
                    ;
                }
            }
            let mut count: u32 = 0;
            if tiles[i - 1] == TileType::Wall {
                count = count + 1;
            }
            if tiles[i + 1] == TileType::Wall {
                count = count + 1;
            }
            if tiles[i - w] == TileType::Wall {
                count = count + 1;
            }
            if tiles[i + w] == TileType::Wall {
                count = count + 1;
            }
            if tiles[i - w - 1] == TileType::Wall {
                count = count + 1;
            }
            if tiles[i - w + 1] == TileType::Wall {
                count = count + 1;
            }
            if tiles[i + w - 1] == TileType::Wall {
                count = count + 1;
            }
            if tiles[i + w + 1] == TileType::Wall {
                count = count + 1;
            }
            if count > 4 || count == 0 {
                out.push(TileType::Wall);
            } else {
                out.push(TileType::Floor);
            }
        } else {
            out.push(tiles[i]);
        }
        proof {
            assert(out@ =~= smoothed(tiles@, wi, hi).subrange(0, i + 1));
        }
        i = i + 1;
    }
    proof {
        assert(out@ =~= smoothed(tiles@, wi, hi));
    }
    out
}

/// The generator depends on nothing but the starting context and the fill
/// rolls: two runs from the same context with the same rolls (as a seeded
/// generator yields) produce the same map and the same snapshots.
pub proof fn lemma_cave_deterministic(
    before: BuilderMap,
    after1: BuilderMap,
    after2: BuilderMap,
    rolls: Seq<i32>,
)
    requires
        cave_run(before, after1, rolls),
        cave_run(before, after2, rolls),
    ensures
        after1.map.tiles@ == after2.map.tiles@,
        after1.history@.len() == after2.history@.len(),
        forall|k: int| 0 <= k < after1.history@.len() ==> (#[trigger] after1.history@[k]).tiles@ == after2.history@[k].tiles@,
{
    let n = before.history@.len();
    assert forall|k: int| 0 <= k < after1.history@.len() implies (#[trigger] after1.history@[k]).tiles@
        == after2.history@[k].tiles@ by {
        if k < n {
            assert(after1.history@.subrange(0, n as int)[k] == after1.history@[k]);
            assert(after2.history@.subrange(0, n as int)[k] == after2.history@[k]);
        } else {
            assert(after1.history@[n + (k - n)].tiles@ == after2.history@[n + (k - n)].tiles@);
        }
    }
}

/// Whether no tile is DownStairs.
pub open spec fn no_stairs(tiles: Seq<TileType>) -> bool {
    forall|i: int| 0 <= i < tiles.len() ==> #[trigger] tiles[i] != TileType::DownStairs
}

proof fn lemma_smoothed_n_no_stairs(tiles: Seq<TileType>, w: int, h: int, n: nat)
    requires
        no_stairs(tiles),
    ensures
        no_stairs(smoothed_n(tiles, w, h, n)),
        smoothed_n(tiles, w, h, n).len() == tiles.len(),
    decreases n,
{
    if n > 0 {
        lemma_smoothed_n_no_stairs(tiles, w, h, (n - 1) as nat);
        let prev = smoothed_n(tiles, w, h, (n - 1) as nat);
        let next = smoothed(prev, w, h);
        assert forall|i: int| 0 <= i < next.len() implies #[trigger] next[i] != TileType::DownStairs by {
            assert(prev[i] != TileType::DownStairs);
        }
    }
}

/// A cave grown from a map without stairs has no stairs: the generator only
/// writes Wall and Floor.
pub proof fn lemma_cave_has_no_stairs(tiles: Seq<TileType>, w: int, h: int, rolls: Seq<i32>)
    requires
        no_stairs(tiles),
    ensures
        no_stairs(cave_of(tiles, w, h, rolls)),
        cave_of(tiles, w, h, rolls).len() == tiles.len(),
{
    let f = filled(tiles, w, h, rolls);
    assert forall|i: int| 0 <= i < f.len() implies #[trigger] f[i] != TileType::DownStairs by {
        assert(tiles[i] != TileType::DownStairs);
    }
    lemma_smoothed_n_no_stairs(f, w, h, SMOOTHING_PASSES as nat);
}

/// What one run of the generator does to a build context, given its fill
/// rolls: the map becomes the cave, the old history is kept, and one
/// snapshot is appended after the fill and after each smoothing pass, the
/// one after pass `k` holding `k` passes over the fill.
pub open spec fn cave_run(before: BuilderMap, after: BuilderMap, rolls: Seq<i32>) -> bool {
    let w = before.map.width as int;
    let h = before.map.height as int;
    let n = before.history@.len();
    &&& after.wf()
    &&& after.map.width == before.map.width
    &&& after.map.height == before.map.height
    &&& after.map.depth == before.map.depth
    &&& after.map.tiles@ == cave_of(before.map.tiles@, w, h, rolls)
    &&& after.spawn_list == before.spawn_list
    &&& after.starting_position == before.starting_position
    &&& after.rooms == before.rooms
    &&& after.history@.len() == n + SMOOTHING_PASSES + 1
    &&& after.history@.subrange(0, n as int) == before.history@
    &&& forall|k: int|
        0 <= k <= SMOOTHING_PASSES ==> (#[trigger] after.history@[n + k]).tiles@ == smoothed_n(
            filled(before.map.tiles@, w, h, rolls),
            w,
            h,
            k as nat,
        )
}

/// Builds caves: a random fill followed by cellular-automaton smoothing.
#[derive(Debug)]
pub struct CellularAutomataBuilder {}

impl CellularAutomataBuilder {
    pub fn new() -> (r: CellularAutomataBuilder) {
        CellularAutomataBuilder {}
    }

    /// Runs the generator with the given fill rolls (one per tile, read for
    /// interior tiles only), taking a snapshot after the fill and after each
    /// smoothing pass.
    pub fn build_from_rolls(&self, build_data: &mut BuilderMap, rolls: &Vec<i32>)
        requires
            old(build_data).wf(),
            old(build_data).map.width > 0,
            rolls@.len() == old(build_data).map.tiles@.len(),
        ensures
            cave_run(*old(build_data), *final(build_data), rolls@),
    {
        let ghost w = build_data.map.width as int;
        let ghost h = build_data.map.height as int;
        let ghost n = build_data.history@.len();
        random_fill(&mut build_data.map, rolls);
        build_data.take_snapshot();
        let ghost start = build_data.map.tiles@;
        proof {
            assert(build_data.history@[n as int].tiles@ == smoothed_n(start, w, h, 0));
        }
        let mut pass: usize = 0;
        while pass < SMOOTHING_PASSES
            invariant
                build_data.wf(),
                build_data.map.width == w,
                build_data.map.height == h,
                w > 0,
                build_data.map.depth == old(build_data).map.depth,
                build_data.map.tiles@ == smoothed_n(start, w, h, pass as nat),
                start == filled(old(build_data).map.tiles@, w, h, rolls@),
                build_data.spawn_list == old(build_data).spawn_list,
                build_data.starting_position == old(build_data).starting_position,
                build_data.rooms == old(build_data).rooms,
                build_data.history@.len() == old(build_data).history@.len() + pass + 1,
                n == old(build_data).history@.len(),
                build_data.history@.subrange(0, n as int) == old(build_data).history@,
                forall|k: int|
                    0 <= k <= pass ==> (#[trigger] build_data.history@[n + k]).tiles@ == smoothed_n(start, w, h, k as nat),
                pass <= SMOOTHING_PASSES,
            decreases SMOOTHING_PASSES - pass,
        {
            let next = smooth_tiles(&build_data.map.tiles, build_data.map.width, build_data.map.height);
            build_data.map.tiles = next;
            let ghost h0 = build_data.history@;
            build_data.take_snapshot();
            proof {
                assert forall|k: int| 0 <= k <= pass + 1 implies (#[trigger] build_data.history@[n + k]).tiles@
                    == smoothed_n(start, w, h, k as nat) by {
                    if k <= pass {
                        assert(build_data.history@[n + k] == h0[n + k]);
                    }
                }
                assert(build_data.history@.subrange(0, n as int) =~= h0.subrange(0, n as int));
            }
            pass = pass + 1;
        }
    }

    /// Runs the generator, drawing one hundred-sided roll per tile.
    pub fn build_map(&self, rng: &mut RandomNumberGenerator, build_data: &mut BuilderMap)
        requires
            old(build_data).wf(),
            old(build_data).map.width > 0,
        ensures
            final(build_data).wf(),
            final(build_data).map.width == old(build_data).map.width,
            final(build_data).map.height == old(build_data).map.height,
            final(build_data).map.depth == old(build_data).map.depth,
            exists|rolls: Seq<i32>|
                rolls.len() == old(build_data).map.tiles@.len() && (forall|i: int|
                    0 <= i < rolls.len() ==> 1 <= #[trigger] rolls[i] <= 100) && #[trigger] cave_run(
                    *old(build_data),
                    *final(build_data),
                    rolls,
                ),
            final(build_data).spawn_list == old(build_data).spawn_list,
            final(build_data).starting_position == old(build_data).starting_position,
            final(build_data).rooms == old(build_data).rooms,
    {
        let rolls = roll_many(rng, build_data.map.tiles.len(), 100);
        self.build_from_rolls(build_data, &rolls);
    }
}

} // verus!
