use bracket_random::prelude::RandomNumberGenerator;
use vstd::prelude::*;

use crate::builder_map::{is_prefix, lemma_prefix_trans, BuildError, BuilderMap};
use crate::map::{lemma_index_in_range, TileMap, TileType};
use crate::wfc_common::{all_candidates, build_patterns, capped, occurrences, chunks_wf, from_source, has_pattern, patterns_to_constraints, positions, variant, window, MapChunk};
use crate::wfc_solver::{solution_valid, Solver};

verus! {

/// Side of a pattern, in tiles.
pub const CHUNK_SIZE: usize = 5;

/// Solve attempts before giving up.
pub const MAX_ATTEMPTS: usize = 100;

/// The map drawn from one pattern per chunk cell: each tile of the chunk
/// grid shows its tile of the cell's pattern, tiles past the grid are Wall.
pub open spec fn rendered(chunks: Seq<MapChunk>, n: int, cw: int, ch: int, sol: Seq<usize>, w: int, len: nat) -> Seq<
    TileType,
> {
    Seq::new(
        len,
        |i: int|
            {
                let (x, y) = (i % w, i / w);
                let (cx, cy) = (x / n, y / n);
                if cx < cw && cy < ch {
                    chunks[sol[cy * cw + cx] as int].pattern@[(y % n) * n + x % n]
                } else {
                    TileType::Wall
                }
            },
    )
}

/// The tiles with DownStairs counted as Floor.
pub open spec fn stairs_as_floor(tiles: Seq<TileType>) -> Seq<TileType> {
    tiles.map_values(|t: TileType| if t == TileType::DownStairs { TileType::Floor } else { t })
}

/// `tiles` with pattern `p` drawn with its top-left corner at `(x, y)`;
/// the part past the map's edge is dropped.
pub open spec fn drawn_pattern(tiles: Seq<TileType>, w: int, h: int, p: Seq<TileType>, n: int, x: int, y: int) -> Seq<TileType> {
    Seq::new(
        tiles.len(),
        |i: int|
            {
                let (tx, ty) = (i % w, i / w);
                if x <= tx < x + n && y <= ty < y + n {
                    p[(ty - y) * n + (tx - x)]
                } else {
                    tiles[i]
                }
            },
    )
}

proof fn lemma_positions(len: int, n: int)
    requires
        n > 0,
        len / n > 0,
        len >= 0,
    ensures
        positions(len, n) > 0,
{
    vstd::arithmetic::div_mod::lemma_fundamental_div_mod(len, n);
    vstd::arithmetic::div_mod::lemma_mod_bound(len, n);
    assert(n * (len / n) >= n) by (nonlinear_arith)
        requires
            len / n >= 1,
            n > 0,
    ;
}

proof fn lemma_chunk_cell(x: int, n: int)
    requires
        0 <= x,
        n > 0,
    ensures
        0 <= x / n,
        0 <= x % n < n,
        x == (x / n) * n + x % n,
{
    vstd::arithmetic::div_mod::lemma_fundamental_div_mod(x, n);
    vstd::arithmetic::div_mod::lemma_mod_bound(x, n);
    vstd::arithmetic::div_mod::lemma_div_pos_is_pos(x, n);
    assert((x / n) * n == n * (x / n)) by (nonlinear_arith);
}

/// Draws a whole solution into `map`.
pub fn render_solution(map: &mut TileMap, chunks: &Vec<MapChunk>, n: usize, cw: usize, ch: usize, sol: &Vec<usize>)
    requires
        old(map).wf(),
        old(map).width > 0,
        n > 0,
        chunks_wf(chunks@, n as int),
        sol@.len() == cw * ch,
        forall|c: int| 0 <= c < sol@.len() ==> #[trigger] sol@[c] < chunks@.len(),
    ensures
        final(map).wf(),
        final(map).width == old(map).width,
        final(map).height == old(map).height,
        final(map).depth == old(map).depth,
        final(map).tiles@ == rendered(chunks@, n as int, cw as int, ch as int, sol@, old(map).width as int, old(map).tiles@.len()),
{
    let len = map.tiles.len();
    let w = map.width as usize;
    let sl = sol.len();
    let ghost target = rendered(chunks@, n as int, cw as int, ch as int, sol@, w as int, len as nat);
    let ghost nn = (n * n) as int;
    let mut i: usize = 0;
    while i < len
        invariant
            map.wf(),
            w > 0,
            w == map.width,
            map.width == old(map).width,
            map.height == old(map).height,
            map.depth == old(map).depth,
            len == map.tiles@.len(),
            len == old(map).tiles@.len(),
            n > 0,
            chunks_wf(chunks@, n as int),
            sol@.len() == cw * ch,
            sl == cw * ch,
            forall|c: int| 0 <= c < sol@.len() ==> #[trigger] sol@[c] < chunks@.len(),
            target == rendered(chunks@, n as int, cw as int, ch as int, sol@, w as int, len as nat),
            i <= len,
            forall|j: int| 0 <= j < i ==> #[trigger] map.tiles@[j] == target[j],
        decreases len - i,
    {
        let x = i % w;
        let y = i / w;
        let cx = x / n;
        let cy = y / n;
        if cx < cw && cy < ch {
            proof {
                lemma_chunk_cell(x as int, n as int);
                lemma_chunk_cell(y as int, n as int);
                lemma_index_in_range(cw as int, ch as int, cx as int, cy as int);
                lemma_index_in_range(n as int, n as int, (x % n) as int, (y % n) as int);
            }
            let cell = cy * cw + cx;
            let p = sol[cell];
            let pl = chunks[p].pattern.len();
            assert(pl == n * n);
            let k = (y % n) * n + x % n;
            let t = chunks[p].pattern[k];
            map.tiles.set(i, t);
        } else {
            map.tiles.set(i, TileType::Wall);
        }
        i = i + 1;
    }
    assert(map.tiles@ =~= target);
}

/// The map drawn from the cells chosen so far: each chosen cell shows its
/// pattern, everything else is Wall.
pub open spec fn rendered_chosen(
    chunks: Seq<MapChunk>,
    n: int,
    cw: int,
    ch: int,
    chosen: Seq<Option<usize>>,
    w: int,
    len: nat,
) -> Seq<TileType> {
    Seq::new(
        len,
        |i: int|
            {
                let (x, y) = (i % w, i / w);
                let (cx, cy) = (x / n, y / n);
                if cx < cw && cy < ch && chosen[cy * cw + cx] is Some {
                    chunks[chosen[cy * cw + cx]->Some_0 as int].pattern@[(y % n) * n + x % n]
                } else {
                    TileType::Wall
                }
            },
    )
}

/// Draws the cells chosen so far into `map`, the rest as Wall.
pub fn render_chosen(
    map: &mut TileMap,
    chunks: &Vec<MapChunk>,
    n: usize,
    cw: usize,
    ch: usize,
    chosen: &Vec<Option<usize>>,
)
    requires
        old(map).wf(),
        old(map).width > 0,
        n > 0,
        chunks_wf(chunks@, n as int),
        chosen@.len() == cw * ch,
        forall|c: int| 0 <= c < chosen@.len() && #[trigger] chosen@[c] is Some ==> chosen@[c]->Some_0 < chunks@.len(),
    ensures
        final(map).wf(),
        final(map).width == old(map).width,
        final(map).height == old(map).height,
        final(map).depth == old(map).depth,
        final(map).tiles@ == rendered_chosen(
            chunks@,
            n as int,
            cw as int,
            ch as int,
            chosen@,
            old(map).width as int,
            old(map).tiles@.len(),
        ),
{
    let len = map.tiles.len();
    let w = map.width as usize;
    let sl = chosen.len();
    let ghost target = rendered_chosen(chunks@, n as int, cw as int, ch as int, chosen@, w as int, len as nat);
    let mut i: usize = 0;
    while i < len
        invariant
            map.wf(),
            w > 0,
            w == map.width,
            map.width == old(map).width,
            map.height == old(map).height,
            map.depth == old(map).depth,
            len == map.tiles@.len(),
            len == old(map).tiles@.len(),
            n > 0,
            chunks_wf(chunks@, n as int),
            chosen@.len() == cw * ch,
            sl == cw * ch,
            forall|c: int| 0 <= c < chosen@.len() && #[trigger] chosen@[c] is Some ==> chosen@[c]->Some_0 < chunks@.len(),
            target == rendered_chosen(chunks@, n as int, cw as int, ch as int, chosen@, w as int, len as nat),
            i <= len,
            forall|j: int| 0 <= j < i ==> #[trigger] map.tiles@[j] == target[j],
        decreases len - i,
    {
        let x = i % w;
        let y = i / w;
        let cx = x / n;
        let cy = y / n;
        let mut t = TileType::Wall;
        if cx < cw && cy < ch {
            proof {
                lemma_chunk_cell(x as int, n as int);
                lemma_chunk_cell(y as int, n as int);
                lemma_index_in_range(cw as int, ch as int, cx as int, cy as int);
                lemma_index_in_range(n as int, n as int, (x % n) as int, (y % n) as int);
            }
            let cell = cy * cw + cx;
            match chosen[cell] {
                Some(p) => {
                    let pl = chunks[p].pattern.len();
                    assert(pl == n * n);
                    let k = (y % n) * n + x % n;
                    t = chunks[p].pattern[k];
                },
                None => {},
            }
        }
        map.tiles.set(i, t);
        i = i + 1;
    }
    assert(map.tiles@ =~= target);
}

/// Draws pattern `chunk` onto `map` with its top-left corner at `(x, y)`.
pub fn render_pattern_to_map(map: &mut TileMap, chunk: &MapChunk, chunk_size: usize, x: usize, y: usize)
    requires
        old(map).wf(),
        old(map).width > 0,
        chunk_size > 0,
        chunk.pattern@.len() == chunk_size * chunk_size,
        x + chunk_size <= usize::MAX,
        y + chunk_size <= usize::MAX,
    ensures
        final(map).wf(),
        final(map).width == old(map).width,
        final(map).height == old(map).height,
        final(map).depth == old(map).depth,
        final(map).tiles@ == drawn_pattern(
            old(map).tiles@,
            old(map).width as int,
            old(map).height as int,
            chunk.pattern@,
            chunk_size as int,
            x as int,
            y as int,
        ),
{
    let len = map.tiles.len();
    let w = map.width as usize;
    let n = chunk_size;
    let plen = chunk.pattern.len();
    let ghost old_tiles = map.tiles@;
    let ghost target = drawn_pattern(old_tiles, w as int, map.height as int, chunk.pattern@, n as int, x as int, y as int);
    let mut i: usize = 0;
    while i < len
        invariant
            map.wf(),
            w > 0,
            w == map.width,
            map.width == old(map).width,
            map.height == old(map).height,
            map.depth == old(map).depth,
            len == map.tiles@.len(),
            old_tiles == old(map).tiles@,
            old_tiles.len() == len,
            n > 0,
            chunk.pattern@.len() == n * n,
            plen == n * n,
            x + n <= usize::MAX,
            y + n <= usize::MAX,
            target == drawn_pattern(old_tiles, w as int, old(map).height as int, chunk.pattern@, n as int, x as int, y as int),
            i <= len,
            forall|j: int| 0 <= j < len ==> #[trigger] map.tiles@[j] == if j < i { target[j] } else { old_tiles[j] },
        decreases len - i,
    {
        let tx = i % w;
        let ty = i / w;
        if x <= tx && tx < x + n && y <= ty && ty < y + n {
            proof {
                lemma_index_in_range(n as int, n as int, (tx - x) as int, (ty - y) as int);
            }
            let t = chunk.pattern[(ty - y) * n + (tx - x)];
            map.tiles.set(i, t);
        }
        assert(map.tiles@[i as int] == target[i as int]);
        i = i + 1;
    }
    assert(map.tiles@ =~= target);
}

/// Where the gallery draws pattern `k` of side `n` on `w` by `h` pages: its
/// top-left tile and the number of full pages flushed before it. Patterns
/// go left to right with a one-tile gap, wrapping to the next band, and to
/// a new page when a band no longer fits.
pub open spec fn gallery_state(k: nat, n: int, w: int, h: int) -> (int, int, nat)
    decreases k,
{
    if k == 0 {
        (1, 1, 0)
    } else {
        let (x, y, p) = gallery_state((k - 1) as nat, n, w, h);
        let x1 = x + n + 1;
        if x1 + n > w {
            let y1 = y + n + 1;
            if y1 + n > h {
                (1, 1, p + 1)
            } else {
                (1, y1, p)
            }
        } else {
            (x1, y, p)
        }
    }
}

/// Rebuilds the map by Wave Function Collapse: patterns learned from the
/// current map are reassembled so that neighbouring patterns always match.
#[derive(Debug)]
pub struct WaveformCollapseBuilder {}

impl WaveformCollapseBuilder {
    pub fn new() -> (r: WaveformCollapseBuilder) {
        WaveformCollapseBuilder {}
    }

    /// Shows every learned pattern on gallery maps of the current size, one
    /// snapshot per filled page and one for the last page.
    pub fn render_tile_gallery(&mut self, constraints: &Vec<MapChunk>, chunk_size: usize, build_data: &mut BuilderMap)
        requires
            old(build_data).wf(),
            old(build_data).map.width > 0,
            chunk_size > 0,
            chunk_size < i32::MAX,
            chunks_wf(constraints@, chunk_size as int),
            old(build_data).map.height > 0,
        ensures
            final(build_data).wf(),
            final(build_data).map.width == old(build_data).map.width,
            final(build_data).map.height == old(build_data).map.height,
            final(build_data).history@.len() == old(build_data).history@.len() + gallery_state(
                constraints@.len(),
                chunk_size as int,
                old(build_data).map.width as int,
                old(build_data).map.height as int,
            ).2 + 1,
            is_prefix(old(build_data).history@, final(build_data).history@),
            constraints@.len() == 0 ==> forall|i: int|
                0 <= i < final(build_data).map.tiles@.len() ==> #[trigger] final(build_data).map.tiles@[i] == TileType::Wall,
            final(build_data).rooms == old(build_data).rooms,
            final(build_data).spawn_list == old(build_data).spawn_list,
            final(build_data).starting_position == old(build_data).starting_position,
    {
        let width = build_data.map.width;
        let height = build_data.map.height;
        let n = chunk_size;
        build_data.map = TileMap::new(0, width, height);
        proof {
            assert(build_data.history@.subrange(0, old(build_data).history@.len() as int) =~= old(build_data).history@);
        }
        let mut x: usize = 1;
        let mut y: usize = 1;
        let mut counter: usize = 0;
        let ghost mut pages: nat = 0;
        while counter < constraints.len()
            invariant
                build_data.wf(),
                build_data.map.width == width,
                build_data.map.height == height,
                width == old(build_data).map.width,
                height == old(build_data).map.height,
                width > 0,
                n == chunk_size,
                0 < n < i32::MAX,
                chunks_wf(constraints@, n as int),
                counter <= constraints@.len(),
                1 <= x <= width,
                1 <= y <= height,
                width <= i32::MAX,
                height <= i32::MAX,
                build_data.history@.len() == old(build_data).history@.len() + pages,
                is_prefix(old(build_data).history@, build_data.history@),
                (x as int, y as int, pages) == gallery_state(counter as nat, n as int, width as int, height as int),
                counter == 0 ==> forall|i: int|
                    0 <= i < build_data.map.tiles@.len() ==> #[trigger] build_data.map.tiles@[i] == TileType::Wall,
                build_data.rooms == old(build_data).rooms,
                build_data.spawn_list == old(build_data).spawn_list,
                build_data.starting_position == old(build_data).starting_position,
            decreases constraints@.len() - counter,
        {
            render_pattern_to_map(&mut build_data.map, &constraints[counter], n, x, y);
            x = x + n + 1;
            if x > width as usize || width as usize - x < n {
                x = 1;
                y = y + n + 1;
                if y > height as usize || height as usize - y < n {
                    let ghost h0 = build_data.history@;
                    build_data.take_snapshot();
                    proof {
                        lemma_prefix_trans(old(build_data).history@, h0, build_data.history@);
                        pages = pages + 1;
                    }
                    build_data.map = TileMap::new(0, width, height);
                    x = 1;
                    y = 1;
                }
            }
            counter = counter + 1;
        }
        let ghost h0 = build_data.history@;
        build_data.take_snapshot();
        proof {
            lemma_prefix_trans(old(build_data).history@, h0, build_data.history@);
        }
    }

    /// Learns patterns from the current map (stairs counted as floor),
    /// shows them, then solves a new map of the same size from them,
    /// restarting the solve from scratch after a contradiction. The spawn
    /// list is cleared.
    pub fn build_map(&mut self, rng: &mut RandomNumberGenerator, build_data: &mut BuilderMap) -> (r: Result<(), BuildError>)
        requires
            old(build_data).wf(),
            old(build_data).map.width > 0,
        ensures
            final(build_data).wf(),
            final(build_data).map.width == old(build_data).map.width,
            final(build_data).map.height == old(build_data).map.height,
            final(build_data).map.depth == old(build_data).map.depth,
            final(build_data).rooms == old(build_data).rooms,
            final(build_data).starting_position == old(build_data).starting_position,
            (old(build_data).map.width as int / CHUNK_SIZE as int == 0 || old(build_data).map.height as int / CHUNK_SIZE as int == 0)
                <==> r == Err::<(), BuildError>(BuildError::MapTooSmall),
            is_prefix(old(build_data).history@, final(build_data).history@),
            r is Ok ==> final(build_data).spawn_list@.len() == 0 && exists|chunks: Seq<MapChunk>, sol: Seq<usize>|
                {
                    &&& chunks_wf(chunks, CHUNK_SIZE as int)
                    &&& forall|i: int|
                        0 <= i < chunks.len() ==> from_source(
                            stairs_as_floor(old(build_data).map.tiles@),
                            old(build_data).map.width as int,
                            old(build_data).map.height as int,
                            CHUNK_SIZE as int,
                            5,
                            (#[trigger] chunks[i]).pattern@,
                        )
                    &&& forall|i: int|
                        0 <= i < chunks.len() ==> (#[trigger] chunks[i]).weight == capped(occurrences(
                            all_candidates(
                                stairs_as_floor(old(build_data).map.tiles@),
                                old(build_data).map.width as int,
                                old(build_data).map.height as int,
                                CHUNK_SIZE as int,
                                5,
                            ),
                            chunks[i].pattern@,
                        ))
                    &&& #[trigger] solution_valid(
                        chunks,
                        CHUNK_SIZE as int,
                        old(build_data).map.width as int / CHUNK_SIZE as int,
                        old(build_data).map.height as int / CHUNK_SIZE as int,
                        sol,
                    )
                    &&& final(build_data).map.tiles@ == rendered(
                        chunks,
                        CHUNK_SIZE as int,
                        old(build_data).map.width as int / CHUNK_SIZE as int,
                        old(build_data).map.height as int / CHUNK_SIZE as int,
                        sol,
                        old(build_data).map.width as int,
                        old(build_data).map.tiles@.len(),
                    )
                },
            r is Err ==> r == Err::<(), BuildError>(BuildError::MapTooSmall) || r == Err::<(), BuildError>(
                BuildError::SolverExhausted,
            ) || r == Err::<(), BuildError>(BuildError::MapTooLarge),
            r == Err::<(), BuildError>(BuildError::MapTooLarge) || r == Err::<(), BuildError>(BuildError::SolverExhausted)
                ==> exists|chunks: Seq<MapChunk>|
                {
                    &&& chunks.len() > 0
                    &&& #[trigger] chunks_wf(chunks, CHUNK_SIZE as int)
                    &&& forall|i: int|
                        0 <= i < chunks.len() ==> from_source(
                            stairs_as_floor(old(build_data).map.tiles@),
                            old(build_data).map.width as int,
                            old(build_data).map.height as int,
                            CHUNK_SIZE as int,
                            5,
                            (#[trigger] chunks[i]).pattern@,
                        )
                    &&& (r == Err::<(), BuildError>(BuildError::MapTooLarge) <==> (old(build_data).map.width as int
                        / CHUNK_SIZE as int) * (old(build_data).map.height as int / CHUNK_SIZE as int) * chunks.len()
                        > usize::MAX)
                },
    {
        let width = build_data.map.width;
        let height = build_data.map.height;
        let depth = build_data.map.depth;
        let n = CHUNK_SIZE;
        build_data.take_snapshot();
        assert(build_data.history@.subrange(0, old(build_data).history@.len() as int) =~= old(build_data).history@);
        let len = build_data.map.tiles.len();
        let mut i: usize = 0;
        while i < len
            invariant
                build_data.wf(),
                build_data.map.width == width,
                build_data.map.height == height,
                build_data.map.depth == depth,
                width == old(build_data).map.width,
                height == old(build_data).map.height,
                depth == old(build_data).map.depth,
                build_data.rooms == old(build_data).rooms,
                build_data.starting_position == old(build_data).starting_position,
                len == build_data.map.tiles@.len(),
                len == old(build_data).map.tiles@.len(),
                is_prefix(old(build_data).history@, build_data.history@),
                i <= len,
                forall|j: int|
                    0 <= j < len ==> #[trigger] build_data.map.tiles@[j] == if j < i {
                        stairs_as_floor(old(build_data).map.tiles@)[j]
                    } else {
                        old(build_data).map.tiles@[j]
                    },
            decreases len - i,
        {
            if build_data.map.tiles[i] == TileType::DownStairs {
                build_data.map.tiles.set(i, TileType::Floor);
            }
            i = i + 1;
        }
        let ghost src = build_data.map.tiles@;
        assert(src =~= stairs_as_floor(old(build_data).map.tiles@));
        let cw = width as usize / n;
        let ch = height as usize / n;
        if cw == 0 || ch == 0 {
            return Err(BuildError::MapTooSmall);
        }
        let (patterns, weights) = build_patterns(&build_data.map, n, true);
        let ghost pv = patterns@;
        let constraints = patterns_to_constraints(patterns, &weights, n);
        assert forall|i: int| 0 <= i < constraints@.len() implies from_source(
            src, width as int, height as int, n as int, 5, (#[trigger] constraints@[i]).pattern@) by {
            assert(constraints@[i].pattern@ == pv[i]@);
        }
        assert forall|i: int| 0 <= i < constraints@.len() implies (#[trigger] constraints@[i]).weight == capped(
            occurrences(all_candidates(src, width as int, height as int, n as int, 5), constraints@[i].pattern@)) by {
            assert(constraints@[i].pattern@ == pv[i]@);
        }
        proof {
            lemma_positions(width as int, n as int);
            lemma_positions(height as int, n as int);
            assert(has_pattern(pv, variant(window(src, width as int, n as int, 0, 0), n as int, 0)));
            assert(constraints@.len() == pv.len());
        }
        let cells = match cw.checked_mul(ch) {
            Some(c) => c,
            None => {
                proof {
                    assert(cw * ch * constraints@.len() > usize::MAX) by (nonlinear_arith)
                        requires
                            cw * ch > usize::MAX,
                            constraints@.len() >= 1,
                    ;
                }
                return Err(BuildError::MapTooLarge);
            },
        };
        match cells.checked_mul(constraints.len()) {
            Some(_) => {},
            None => {
                return Err(BuildError::MapTooLarge);
            },
        }
        let ghost h_before_gallery = build_data.history@;
        self.render_tile_gallery(&constraints, n, build_data);
        proof {
            lemma_prefix_trans(old(build_data).history@, h_before_gallery, build_data.history@);
        }
        build_data.map = TileMap::new(depth, width, height);
        let mut attempt: usize = 0;
        while attempt < MAX_ATTEMPTS
            invariant
                build_data.wf(),
                build_data.map.width == width,
                build_data.map.height == height,
                build_data.map.depth == depth,
                width == old(build_data).map.width,
                height == old(build_data).map.height,
                depth == old(build_data).map.depth,
                width > 0,
                len == old(build_data).map.tiles@.len(),
                len == build_data.map.tiles@.len(),
                build_data.rooms == old(build_data).rooms,
                build_data.starting_position == old(build_data).starting_position,
                cw as int == width as int / n as int,
                ch as int == height as int / n as int,
                cw > 0,
                ch > 0,
                n == CHUNK_SIZE,
                chunks_wf(constraints@, n as int),
                constraints@.len() > 0,
                cw * ch * constraints@.len() <= usize::MAX,
                is_prefix(old(build_data).history@, build_data.history@),
                src == stairs_as_floor(old(build_data).map.tiles@),
                forall|i: int| 0 <= i < constraints@.len() ==> from_source(
                    src, width as int, height as int, n as int, 5, (#[trigger] constraints@[i]).pattern@),
                forall|i: int| 0 <= i < constraints@.len() ==> (#[trigger] constraints@[i]).weight == capped(
                    occurrences(all_candidates(src, width as int, height as int, n as int, 5), constraints@[i].pattern@)),
            decreases MAX_ATTEMPTS - attempt,
        {
            let mut solver = Solver::new(&constraints, n, cw, ch);
            let mut done = false;
            while !done
                invariant
                    build_data.wf(),
                    build_data.map.width == width,
                    build_data.map.height == height,
                    build_data.map.depth == depth,
                    build_data.rooms == old(build_data).rooms,
                    build_data.starting_position == old(build_data).starting_position,
                    len == build_data.map.tiles@.len(),
                    len == old(build_data).map.tiles@.len(),
                    width == old(build_data).map.width,
                    height == old(build_data).map.height,
                    depth == old(build_data).map.depth,
                    width > 0,
                    cw as int == width as int / n as int,
                    ch as int == height as int / n as int,
                    cw > 0,
                    n == CHUNK_SIZE,
                    chunks_wf(constraints@, n as int),
                    src == stairs_as_floor(old(build_data).map.tiles@),
                    forall|i: int| 0 <= i < constraints@.len() ==> from_source(
                        src, width as int, height as int, n as int, 5, (#[trigger] constraints@[i]).pattern@),
                    forall|i: int| 0 <= i < constraints@.len() ==> (#[trigger] constraints@[i]).weight == capped(
                        occurrences(all_candidates(src, width as int, height as int, n as int, 5), constraints@[i].pattern@)),
                    solver.inv(constraints@),
                    solver.chunks_x == cw,
                    solver.chunks_y == ch,
                    solver.chunk_size == n,
                    !done ==> solver.possible,
                    constraints@.len() > 0,
                    cw * ch * constraints@.len() <= usize::MAX,
                    is_prefix(old(build_data).history@, build_data.history@),
                    done && solver.possible ==> forall|c: int| 0 <= c < solver.cells() ==> #[trigger] solver.chosen@[c] is Some,
                decreases (if done { 0int } else { 1int }), crate::reach::count_none(solver.chosen@),
            {
                done = solver.iteration(&constraints, rng);
                render_chosen(&mut build_data.map, &constraints, n, cw, ch, &solver.chosen);
                let ghost h0 = build_data.history@;
                build_data.take_snapshot();
                proof {
                    lemma_prefix_trans(old(build_data).history@, h0, build_data.history@);
                }
            }
            if solver.possible {
                let sol = solver.solution(&constraints);
                render_solution(&mut build_data.map, &constraints, n, cw, ch, &sol);
                let ghost h0 = build_data.history@;
                build_data.take_snapshot();
                proof {
                    lemma_prefix_trans(old(build_data).history@, h0, build_data.history@);
                }
                build_data.spawn_list.clear();
                return Ok(());
            }
            attempt = attempt + 1;
        }
        Err(BuildError::SolverExhausted)
    }
}

} // verus!
