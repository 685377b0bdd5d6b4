use vstd::prelude::*;

use crate::map::{idx_of, lemma_coords_of_index, lemma_index_in_range, tile_at, TileMap, TileType};

verus! {

/// Directions between neighbouring chunks: north (up), south, east (right),
/// west.
pub const NORTH: usize = 0;

pub const SOUTH: usize = 1;

pub const EAST: usize = 2;

pub const WEST: usize = 3;

pub open spec fn opposite(d: int) -> int {
    if d == NORTH {
        SOUTH as int
    } else if d == SOUTH {
        NORTH as int
    } else if d == EAST {
        WEST as int
    } else {
        EAST as int
    }
}

/// The `n` by `n` window whose top-left tile is `(x, y)`, row-major.
pub open spec fn window(tiles: Seq<TileType>, w: int, n: int, x: int, y: int) -> Seq<TileType> {
    Seq::new((n * n) as nat, |k: int| tile_at(tiles, w, x + k % n, y + k / n))
}

/// How many positions an `n`-wide window can take along a side of `len`
/// tiles.
pub open spec fn positions(len: int, n: int) -> int {
    if len >= n {
        len - n + 1
    } else {
        0
    }
}

/// A pattern turned: 0 as it is, 1, 2 and 3 rotated by a quarter, half and
/// three quarters of a turn, 4 mirrored left to right.
pub open spec fn variant(p: Seq<TileType>, n: int, v: int) -> Seq<TileType> {
    Seq::new(
        (n * n) as nat,
        |k: int|
            {
                let (dx, dy) = (k % n, k / n);
                if v == 1 {
                    p[idx_of(n, dy, n - 1 - dx)]
                } else if v == 2 {
                    p[idx_of(n, n - 1 - dx, n - 1 - dy)]
                } else if v == 3 {
                    p[idx_of(n, n - 1 - dy, dx)]
                } else if v == 4 {
                    p[idx_of(n, n - 1 - dx, dy)]
                } else {
                    p[k]
                }
            },
    )
}

/// The edge of pattern `p` that faces direction `d`: the top row, bottom
/// row, right column or left column.
pub open spec fn facing_edge(p: Seq<TileType>, n: int, d: int) -> Seq<TileType> {
    Seq::new(
        n as nat,
        |k: int|
            if d == NORTH {
                p[idx_of(n, k, 0)]
            } else if d == SOUTH {
                p[idx_of(n, k, n - 1)]
            } else if d == EAST {
                p[idx_of(n, n - 1, k)]
            } else {
                p[idx_of(n, 0, k)]
            },
    )
}

/// Whether `q` may sit next to `p` in direction `d`: the edge of `p` facing
/// `d` equals the edge of `q` facing back.
pub open spec fn edges_match(p: Seq<TileType>, q: Seq<TileType>, n: int, d: int) -> bool {
    facing_edge(p, n, d) == facing_edge(q, n, opposite(d))
}

/// Compatibility seen from the other side.
pub proof fn lemma_edges_match_symmetric(p: Seq<TileType>, q: Seq<TileType>, n: int, d: int)
    requires
        0 <= d < 4,
    ensures
        edges_match(p, q, n, d) == edges_match(q, p, n, opposite(d)),
{
    assert(opposite(opposite(d)) == d);
}

/// A pattern learned from a source map, how often it occurred, and for each
/// direction which patterns may be its neighbour there.
#[derive(Debug)]
pub struct MapChunk {
    pub pattern: Vec<TileType>,
    pub compatible_with: Vec<Vec<bool>>,
    pub weight: u32,
}

/// Well-formed pattern set: patterns of `n * n` tiles, each chunk holding a
/// compatibility flag per direction and pattern that says exactly whether
/// the edges match, and a positive weight.
pub open spec fn chunks_wf(chunks: Seq<MapChunk>, n: int) -> bool {
    &&& forall|i: int| 0 <= i < chunks.len() ==> (#[trigger] chunks[i]).pattern@.len() == n * n
    &&& forall|i: int| 0 <= i < chunks.len() ==> (#[trigger] chunks[i]).weight >= 1
    &&& forall|i: int| 0 <= i < chunks.len() ==> (#[trigger] chunks[i]).compatible_with@.len() == 4
    &&& forall|i: int, d: int|
        0 <= i < chunks.len() && 0 <= d < 4 ==> (#[trigger] chunks[i].compatible_with@[d])@.len() == chunks.len()
    &&& forall|i: int, d: int, j: int|
        0 <= i < chunks.len() && 0 <= d < 4 && 0 <= j < chunks.len() ==> (#[trigger] chunks[i].compatible_with@[d]@[j]
            == edges_match(chunks[i].pattern@, chunks[j].pattern@, n, d))
}

/// The window of `map` whose top-left tile is `(x, y)`.
pub fn extract_window(map: &TileMap, chunk_size: usize, x: usize, y: usize) -> (r: Vec<TileType>)
    requires
        map.wf(),
        chunk_size > 0,
        x + chunk_size <= map.width,
        y + chunk_size <= map.height,
    ensures
        r@ == window(map.tiles@, map.width as int, chunk_size as int, x as int, y as int),
{
    let n = chunk_size;
    let ghost ni = n as int;
    proof {
        assert(ni * ni <= ni * map.height) by (nonlinear_arith)
            requires
                ni <= map.height,
                0 <= ni,
        ;
        assert(ni * map.height <= map.width * map.height) by (nonlinear_arith)
            requires
                ni <= map.width,
                0 <= map.height,
        ;
        assert(n * n <= usize::MAX);
    }
    let total = n * n;
    let mut out: Vec<TileType> = Vec::with_capacity(total);
    let mut k: usize = 0;
    while k < total
        invariant
            map.wf(),
            n > 0,
            ni == n,
            total == n * n,
            x + n <= map.width,
            y + n <= map.height,
            k <= total,
            out@ == window(map.tiles@, map.width as int, ni, x as int, y as int).subrange(0, k as int),
        decreases total - k,
    {
        proof {
            lemma_coords_of_index(ni, ni, k as int);
        }
        let tx = x + k % n;
        let ty = y + k / n;
        let idx = map.xy_idx(tx as i32, ty as i32);
        out.push(map.tiles[idx]);
        proof {
            assert(out@ =~= window(map.tiles@, map.width as int, ni, x as int, y as int).subrange(0, k + 1));
        }
        k = k + 1;
    }
    assert(out@ =~= window(map.tiles@, map.width as int, ni, x as int, y as int));
    out
}

/// Pattern `p` turned as `variant` describes.
pub fn make_variant(p: &Vec<TileType>, n: usize, v: usize) -> (r: Vec<TileType>)
    requires
        n > 0,
        p@.len() == n * n,
    ensures
        r@ == variant(p@, n as int, v as int),
{
    let total = p.len();
    let ghost ni = n as int;
    let mut out: Vec<TileType> = Vec::with_capacity(total);
    let mut k: usize = 0;
    while k < total
        invariant
            n > 0,
            ni == n,
            total == n * n,
            p@.len() == total,
            k <= total,
            out@ == variant(p@, ni, v as int).subrange(0, k as int),
        decreases total - k,
    {
        proof {
            lemma_coords_of_index(ni, ni, k as int);
        }
        let dx = k % n;
        let dy = k / n;
        let src = if v == 1 {
            proof {
                lemma_index_in_range(ni, ni, dy as int, ni - 1 - dx);
            }
            (n - 1 - dx) * n + dy
        } else if v == 2 {
            proof {
                lemma_index_in_range(ni, ni, ni - 1 - dx, ni - 1 - dy);
            }
            (n - 1 - dy) * n + (n - 1 - dx)
        } else if v == 3 {
            proof {
                lemma_index_in_range(ni, ni, ni - 1 - dy, dx as int);
            }
            dx * n + (n - 1 - dy)
        } else if v == 4 {
            proof {
                lemma_index_in_range(ni, ni, ni - 1 - dx, dy as int);
            }
            dy * n + (n - 1 - dx)
        } else {
            k
        };
        out.push(p[src]);
        proof {
            assert(out@ =~= variant(p@, ni, v as int).subrange(0, k + 1));
        }
        k = k + 1;
    }
    assert(out@ =~= variant(p@, ni, v as int));
    out
}

/// Whether two tile sequences are equal.
pub fn same_pattern(a: &Vec<TileType>, b: &Vec<TileType>) -> (r: bool)
    ensures
        r == (a@ == b@),
{
    if a.len() != b.len() {
        return false;
    }
    let mut k: usize = 0;
    while k < a.len()
        invariant
            a@.len() == b@.len(),
            k <= a@.len(),
            forall|j: int| 0 <= j < k ==> a@[j] == b@[j],
        decreases a@.len() - k,
    {
        if a[k] != b[k] {
            return false;
        }
        k = k + 1;
    }
    assert(a@ =~= b@);
    true
}

/// Whether `p` is a window of the source (at any position) turned by one of
/// the first `variants` turns.
pub open spec fn from_source(tiles: Seq<TileType>, w: int, h: int, n: int, variants: int, p: Seq<TileType>) -> bool {
    exists|x: int, y: int, v: int|
        0 <= x < positions(w, n) && 0 <= y < positions(h, n) && 0 <= v < variants && p == #[trigger] variant(
            window(tiles, w, n, x, y),
            n,
            v,
        )
}

/// Whether `p` is one of the patterns `ps`.
pub open spec fn has_pattern(ps: Seq<Vec<TileType>>, p: Seq<TileType>) -> bool {
    exists|i: int| 0 <= i < ps.len() && (#[trigger] ps[i])@ == p
}

/// How often `p` occurs in `cands`.
pub open spec fn occurrences(cands: Seq<Seq<TileType>>, p: Seq<TileType>) -> nat
    decreases cands.len(),
{
    if cands.len() == 0 {
        0
    } else {
        occurrences(cands.drop_last(), p) + if cands.last() == p {
            1nat
        } else {
            0nat
        }
    }
}

/// A count as a weight: counts beyond `u32::MAX` stay at `u32::MAX`.
pub open spec fn capped(n: nat) -> int {
    if n > u32::MAX {
        u32::MAX as int
    } else {
        n as int
    }
}

/// Candidate `k` of the scan: the window at position `k / variants` in
/// row-major order over `cw` positions per row, turned by `k % variants`.
pub open spec fn candidate(tiles: Seq<TileType>, w: int, n: int, cw: int, variants: int, k: int) -> Seq<TileType> {
    let pos = k / variants;
    variant(window(tiles, w, n, pos % cw, pos / cw), n, k % variants)
}

/// Every window of the source at every position, each turned by each of the
/// first `variants` turns, in scan order.
pub open spec fn all_candidates(tiles: Seq<TileType>, w: int, h: int, n: int, variants: int) -> Seq<Seq<TileType>> {
    let cw = positions(w, n);
    let ch = positions(h, n);
    Seq::new((cw * ch * variants) as nat, |k: int| candidate(tiles, w, n, cw, variants, k))
}

proof fn lemma_occurrences_push(s: Seq<Seq<TileType>>, x: Seq<TileType>, p: Seq<TileType>)
    ensures
        occurrences(s.push(x), p) == occurrences(s, p) + if x == p {
            1nat
        } else {
            0nat
        },
{
    assert(s.push(x).drop_last() =~= s);
}

proof fn lemma_occurrences_zero(s: Seq<Seq<TileType>>, p: Seq<TileType>)
    requires
        forall|j: int| 0 <= j < s.len() ==> s[j] != p,
    ensures
        occurrences(s, p) == 0,
    decreases s.len(),
{
    if s.len() > 0 {
        lemma_occurrences_zero(s.drop_last(), p);
    }
}

/// Whether `weights` count how often each pattern occurs among `cands`, and
/// every candidate is one of the patterns.
pub open spec fn counted(patterns: Seq<Vec<TileType>>, weights: Seq<u32>, cands: Seq<Seq<TileType>>) -> bool {
    &&& forall|i: int| 0 <= i < weights.len() ==> #[trigger] weights[i] == capped(occurrences(cands, patterns[i]@))
    &&& forall|j: int| 0 <= j < cands.len() ==> #[trigger] has_pattern(patterns, cands[j])
}

/// Adds a pattern to a set of distinct patterns, counting one more
/// occurrence when it is already there.
fn add_pattern(patterns: &mut Vec<Vec<TileType>>, weights: &mut Vec<u32>, cand: Vec<TileType>, cands: Ghost<Seq<Seq<TileType>>>)
    requires
        old(weights)@.len() == old(patterns)@.len(),
        counted(old(patterns)@, old(weights)@, cands@),
        forall|i: int, j: int|
            0 <= i < j < old(patterns)@.len() ==> (#[trigger] old(patterns)@[i])@ != (#[trigger] old(patterns)@[j])@,
        forall|i: int| 0 <= i < old(weights)@.len() ==> #[trigger] old(weights)@[i] >= 1,
    ensures
        final(weights)@.len() == final(patterns)@.len(),
        forall|i: int, j: int|
            0 <= i < j < final(patterns)@.len() ==> (#[trigger] final(patterns)@[i])@ != (#[trigger] final(patterns)@[j])@,
        forall|i: int| 0 <= i < final(weights)@.len() ==> #[trigger] final(weights)@[i] >= 1,
        old(patterns)@.len() <= final(patterns)@.len(),
        forall|i: int| 0 <= i < old(patterns)@.len() ==> (#[trigger] final(patterns)@[i])@ == old(patterns)@[i]@,
        exists|i: int| 0 <= i < final(patterns)@.len() && (#[trigger] final(patterns)@[i])@ == cand@,
        forall|i: int| 0 <= i < final(patterns)@.len() ==> (#[trigger] final(patterns)@[i])@ == cand@ || exists|j: int|
            0 <= j < old(patterns)@.len() && final(patterns)@[i]@ == (#[trigger] old(patterns)@[j])@,
        counted(final(patterns)@, final(weights)@, cands@.push(cand@)),
{
    let ghost c1 = cands@.push(cand@);
    let mut i: usize = 0;
    while i < patterns.len()
        invariant
            patterns@ == old(patterns)@,
            weights@ == old(weights)@,
            weights@.len() == patterns@.len(),
            i <= patterns@.len(),
            forall|j: int| 0 <= j < i ==> (#[trigger] patterns@[j])@ != cand@,
            forall|a: int, b: int|
                0 <= a < b < patterns@.len() ==> (#[trigger] patterns@[a])@ != (#[trigger] patterns@[b])@,
            forall|a: int| 0 <= a < weights@.len() ==> #[trigger] weights@[a] >= 1,
            counted(patterns@, weights@, cands@),
            c1 == cands@.push(cand@),
        decreases patterns@.len() - i,
    {
        if same_pattern(&patterns[i], &cand) {
            let wt = weights[i];
            if wt < u32::MAX {
                weights.set(i, wt + 1);
            }
            proof {
                assert forall|a: int| 0 <= a < weights@.len() implies #[trigger] weights@[a] == capped(
                    occurrences(c1, patterns@[a]@)) by {
                    lemma_occurrences_push(cands@, cand@, patterns@[a]@);
                    assert(old(weights)@[a] == capped(occurrences(cands@, patterns@[a]@)));
                    if a != i {
                        assert(patterns@[a]@ != patterns@[i as int]@);
                    }
                }
                assert forall|j: int| 0 <= j < c1.len() implies #[trigger] has_pattern(patterns@, c1[j]) by {
                    if j < cands@.len() {
                        assert(c1[j] == cands@[j]);
                    } else {
                        assert(patterns@[i as int]@ == c1[j]);
                    }
                }
            }
            return;
        }
        i = i + 1;
    }
    let ghost before = patterns@;
    let ghost wbefore = weights@;
    patterns.push(cand);
    weights.push(1);
    proof {
        assert forall|j: int| 0 <= j < cands@.len() implies cands@[j] != cand@ by {
            assert(has_pattern(before, cands@[j]));
            let k = choose|k: int| 0 <= k < before.len() && (#[trigger] before[k])@ == cands@[j];
        }
        lemma_occurrences_zero(cands@, cand@);
        assert forall|a: int| 0 <= a < weights@.len() implies #[trigger] weights@[a] == capped(
            occurrences(c1, patterns@[a]@)) by {
            lemma_occurrences_push(cands@, cand@, patterns@[a]@);
            if a < before.len() {
                assert(patterns@[a] == before[a]);
                assert(wbefore[a] == capped(occurrences(cands@, before[a]@)));
            }
        }
        assert forall|j: int| 0 <= j < c1.len() implies #[trigger] has_pattern(patterns@, c1[j]) by {
            if j < cands@.len() {
                assert(c1[j] == cands@[j]);
                assert(has_pattern(before, cands@[j]));
                let k = choose|k: int| 0 <= k < before.len() && (#[trigger] before[k])@ == cands@[j];
                assert(patterns@[k] == before[k]);
            } else {
                assert(patterns@[before.len() as int]@ == c1[j]);
            }
        }
        assert(patterns@[before.len() as int]@ == cand@);
        assert forall|a: int, b: int|
            0 <= a < b < patterns@.len() implies (#[trigger] patterns@[a])@ != (#[trigger] patterns@[b])@ by {
            if b == before.len() {
                assert(patterns@[a] == before[a]);
            } else {
                assert(patterns@[a] == before[a] && patterns@[b] == before[b]);
            }
        }
        assert forall|a: int| 0 <= a < patterns@.len() implies (#[trigger] patterns@[a])@ == cand@ || exists|j: int|
            0 <= j < before.len() && patterns@[a]@ == (#[trigger] before[j])@ by {
            if a < before.len() {
                assert(patterns@[a] == before[a]);
            }
        }
    }
}

/// Every window of the source, at every position, with its turned and
/// mirrored variants when `include_flipping` is set, as a set of distinct
/// patterns with occurrence counts.
pub fn build_patterns(map: &TileMap, chunk_size: usize, include_flipping: bool) -> (r: (
    Vec<Vec<TileType>>,
    Vec<u32>,
))
    requires
        map.wf(),
        chunk_size > 0,
    ensures
        r.1@.len() == r.0@.len(),
        forall|i: int| 0 <= i < r.1@.len() ==> #[trigger] r.1@[i] >= 1,
        forall|i: int, j: int| 0 <= i < j < r.0@.len() ==> (#[trigger] r.0@[i])@ != (#[trigger] r.0@[j])@,
        forall|i: int| 0 <= i < r.0@.len() ==> (#[trigger] r.0@[i])@.len() == chunk_size * chunk_size,
        forall|i: int|
            0 <= i < r.0@.len() ==> from_source(
                map.tiles@,
                map.width as int,
                map.height as int,
                chunk_size as int,
                if include_flipping {
                    5int
                } else {
                    1int
                },
                (#[trigger] r.0@[i])@,
            ),
        forall|i: int|
            0 <= i < r.1@.len() ==> #[trigger] r.1@[i] == capped(occurrences(
                all_candidates(
                    map.tiles@,
                    map.width as int,
                    map.height as int,
                    chunk_size as int,
                    if include_flipping {
                        5int
                    } else {
                        1int
                    },
                ),
                r.0@[i]@,
            )),
        forall|cx: int, cy: int, v: int|
            0 <= cx < positions(map.width as int, chunk_size as int) && 0 <= cy < positions(
                map.height as int,
                chunk_size as int,
            ) && 0 <= v
                < (if include_flipping {
                5int
            } else {
                1int
            }) ==> #[trigger] has_pattern(r.0@, variant(
                    window(map.tiles@, map.width as int, chunk_size as int, cx, cy),
                    chunk_size as int,
                    v,
                )),
{
    let n = chunk_size;
    let cw: usize = if map.width as usize >= n {
        map.width as usize - n + 1
    } else {
        0
    };
    let ch: usize = if map.height as usize >= n {
        map.height as usize - n + 1
    } else {
        0
    };
    let variants: usize = if include_flipping {
        5
    } else {
        1
    };
    let ghost nn = (n * n) as int;
    let mut patterns: Vec<Vec<TileType>> = Vec::new();
    let mut weights: Vec<u32> = Vec::new();
    let ghost mut cands: Seq<Seq<TileType>> = Seq::empty();
    let mut cy: usize = 0;
    while cy < ch
        invariant
            cands.len() == cy * cw * variants,
            forall|j: int| 0 <= j < cands.len() ==> #[trigger] cands[j] == candidate(map.tiles@, map.width as int, n as int, cw as int, variants as int, j),
            counted(patterns@, weights@, cands),
            map.wf(),
            n == chunk_size,
            n > 0,
            cw as int == positions(map.width as int, n as int),
            ch as int == positions(map.height as int, n as int),
            variants == if include_flipping {
                5usize
            } else {
                1usize
            },
            cy <= ch,
            weights@.len() == patterns@.len(),
            forall|i: int| 0 <= i < weights@.len() ==> #[trigger] weights@[i] >= 1,
            forall|i: int, j: int| 0 <= i < j < patterns@.len() ==> (#[trigger] patterns@[i])@ != (#[trigger] patterns@[j])@,
            forall|i: int| 0 <= i < patterns@.len() ==> (#[trigger] patterns@[i])@.len() == n * n,
            forall|i: int|
                0 <= i < patterns@.len() ==> from_source(
                    map.tiles@,
                    map.width as int,
                    map.height as int,
                    n as int,
                    variants as int,
                    (#[trigger] patterns@[i])@,
                ),
            forall|x: int, y: int, v: int|
                0 <= x < cw && 0 <= y < cy && 0 <= v < variants ==> #[trigger] has_pattern(patterns@, variant(
                        window(map.tiles@, map.width as int, n as int, x, y),
                        n as int,
                        v,
                    )),
        decreases ch - cy,
    {
        let mut cx: usize = 0;
        while cx < cw
            invariant
                cands.len() == (cy * cw + cx) * variants,
                forall|j: int| 0 <= j < cands.len() ==> #[trigger] cands[j] == candidate(map.tiles@, map.width as int, n as int, cw as int, variants as int, j),
                counted(patterns@, weights@, cands),
                map.wf(),
                n == chunk_size,
                n > 0,
                cw as int == positions(map.width as int, n as int),
                ch as int == positions(map.height as int, n as int),
                variants == if include_flipping {
                    5usize
                } else {
                    1usize
                },
                cy < ch,
                cx <= cw,
                weights@.len() == patterns@.len(),
                forall|i: int| 0 <= i < weights@.len() ==> #[trigger] weights@[i] >= 1,
                forall|i: int, j: int|
                    0 <= i < j < patterns@.len() ==> (#[trigger] patterns@[i])@ != (#[trigger] patterns@[j])@,
                forall|i: int| 0 <= i < patterns@.len() ==> (#[trigger] patterns@[i])@.len() == n * n,
                forall|i: int|
                        0 <= i < patterns@.len() ==> from_source(
                            map.tiles@,
                            map.width as int,
                            map.height as int,
                            n as int,
                            variants as int,
                            (#[trigger] patterns@[i])@,
                        ),
                forall|x: int, y: int, v: int|
                    0 <= x < cw && 0 <= y < cy + 1 && 0 <= v < variants && (y < cy || x < cx) ==> #[trigger] has_pattern(patterns@, variant(
                            window(map.tiles@, map.width as int, n as int, x, y),
                            n as int,
                            v,
                        )),
            decreases cw - cx,
        {
            let base = extract_window(map, n, cx, cy);
            let mut v: usize = 0;
            while v < variants
                invariant
                    cands.len() == (cy * cw + cx) * variants + v,
                    forall|j: int| 0 <= j < cands.len() ==> #[trigger] cands[j] == candidate(map.tiles@, map.width as int, n as int, cw as int, variants as int, j),
                    counted(patterns@, weights@, cands),
                    cw as int == positions(map.width as int, n as int),
                    map.wf(),
                    n == chunk_size,
                    n > 0,
                    base@ == window(map.tiles@, map.width as int, n as int, cx as int, cy as int),
                    base@.len() == n * n,
                    cw as int == positions(map.width as int, n as int),
                    ch as int == positions(map.height as int, n as int),
                    variants <= 5,
                    cy < ch,
                    cx < cw,
                    v <= variants,
                    weights@.len() == patterns@.len(),
                    forall|i: int| 0 <= i < weights@.len() ==> #[trigger] weights@[i] >= 1,
                    forall|i: int, j: int|
                        0 <= i < j < patterns@.len() ==> (#[trigger] patterns@[i])@ != (#[trigger] patterns@[j])@,
                    forall|i: int| 0 <= i < patterns@.len() ==> (#[trigger] patterns@[i])@.len() == n * n,
                    forall|i: int|
                                0 <= i < patterns@.len() ==> from_source(
                                    map.tiles@,
                                    map.width as int,
                                    map.height as int,
                                    n as int,
                                    variants as int,
                                    (#[trigger] patterns@[i])@,
                                ),
                    forall|x: int, y: int, vv: int|
                        0 <= x < cw && 0 <= y < cy + 1 && 0 <= vv < variants && ((y < cy || x < cx) || (y == cy && x
                            == cx && vv < v)) ==> #[trigger] has_pattern(patterns@, variant(
                                window(map.tiles@, map.width as int, n as int, x, y),
                                n as int,
                                vv,
                            )),
                decreases variants - v,
            {
                let cand = make_variant(&base, n, v);
                let ghost before = patterns@;
                proof {
                    assert(cand@.len() == n * n);
                }
                proof {
                    let k = (cy * cw + cx) * variants + v;
                    vstd::arithmetic::div_mod::lemma_fundamental_div_mod_converse(k as int, variants as int, (cy * cw + cx) as int, v as int);
                    vstd::arithmetic::div_mod::lemma_fundamental_div_mod_converse((cy * cw + cx) as int, cw as int, cy as int, cx as int);
                    assert(cand@ == candidate(map.tiles@, map.width as int, n as int, cw as int, variants as int, k as int));
                }
                add_pattern(&mut patterns, &mut weights, cand, Ghost(cands));
                proof {
                    cands = cands.push(cand@);
                }
                proof {
                    assert forall|x: int, y: int, vv: int|
                        0 <= x < cw && 0 <= y < cy + 1 && 0 <= vv < variants && ((y < cy || x < cx) || (y == cy
                            && x == cx && vv < v + 1)) implies #[trigger] has_pattern(patterns@, variant(
                                window(map.tiles@, map.width as int, n as int, x, y),
                                n as int,
                                vv,
                            )) by {
                        if (y < cy || x < cx) || vv < v {
                            assert(has_pattern(before, variant(
                                window(map.tiles@, map.width as int, n as int, x, y),
                                n as int,
                                vv,
                            )));
                            let i = choose|i: int|
                                0 <= i < before.len() && (#[trigger] before[i])@ == variant(
                                    window(map.tiles@, map.width as int, n as int, x, y),
                                    n as int,
                                    vv,
                                );
                            assert(patterns@[i]@ == before[i]@);
                        } else {
                            let i = choose|i: int| 0 <= i < patterns@.len() && (#[trigger] patterns@[i])@ == cand@;
                            assert(patterns@[i]@ == cand@);
                        }
                    }
                    assert forall|i: int| 0 <= i < patterns@.len() implies (#[trigger] patterns@[i])@.len() == n * n && from_source(
                        map.tiles@,
                        map.width as int,
                        map.height as int,
                        n as int,
                        variants as int,
                        patterns@[i]@,
                    ) by {
                        if patterns@[i]@ != cand@ {
                            let j = choose|j: int| 0 <= j < before.len() && patterns@[i]@ == (#[trigger] before[j])@;
                        } else {
                            assert(patterns@[i]@ == variant(window(map.tiles@, map.width as int, n as int, cx as int, cy as int), n as int, v as int));
                        }
                    }
                }
                v = v + 1;
            }
            proof {
                assert((cy * cw + cx) * variants + variants == (cy * cw + cx + 1) * variants) by (nonlinear_arith);
            }
            cx = cx + 1;
        }
        proof {
            assert((cy * cw + cw) * variants == (cy + 1) * cw * variants) by (nonlinear_arith);
        }
        cy = cy + 1;
    }
    proof {
        let all = all_candidates(map.tiles@, map.width as int, map.height as int, n as int, variants as int);
        assert(ch * cw * variants == cw * ch * variants) by (nonlinear_arith);
        assert(cands =~= all);
    }
    (patterns, weights)
}

fn edge_index(n: usize, d: usize, k: usize) -> (r: usize)
    requires
        n > 0,
        k < n,
        n * n <= usize::MAX,
    ensures
        r < n * n,
        r as int == if d == NORTH {
            idx_of(n as int, k as int, 0)
        } else if d == SOUTH {
            idx_of(n as int, k as int, n - 1)
        } else if d == EAST {
            idx_of(n as int, n - 1, k as int)
        } else {
            idx_of(n as int, 0, k as int)
        },
{
    if d == NORTH {
        proof {
            lemma_index_in_range(n as int, n as int, k as int, 0);
        }
        k
    } else if d == SOUTH {
        proof {
            lemma_index_in_range(n as int, n as int, k as int, n - 1);
        }
        (n - 1) * n + k
    } else if d == EAST {
        proof {
            lemma_index_in_range(n as int, n as int, n - 1, k as int);
        }
        k * n + (n - 1)
    } else {
        proof {
            lemma_index_in_range(n as int, n as int, 0, k as int);
        }
        k * n
    }
}

/// Whether `q` may sit next to `p` in direction `d`.
pub fn edges_match_exec(p: &Vec<TileType>, q: &Vec<TileType>, n: usize, d: usize) -> (r: bool)
    requires
        n > 0,
        p@.len() == n * n,
        q@.len() == n * n,
        d < 4,
    ensures
        r == edges_match(p@, q@, n as int, d as int),
{
    let od: usize = if d == NORTH {
        SOUTH
    } else if d == SOUTH {
        NORTH
    } else if d == EAST {
        WEST
    } else {
        EAST
    };
    let ghost ep = facing_edge(p@, n as int, d as int);
    let ghost eq = facing_edge(q@, n as int, od as int);
    let plen = p.len();
    let mut k: usize = 0;
    while k < n
        invariant
            n > 0,
            plen == n * n,
            p@.len() == n * n,
            q@.len() == n * n,
            od as int == opposite(d as int),
            ep == facing_edge(p@, n as int, d as int),
            eq == facing_edge(q@, n as int, od as int),
            k <= n,
            forall|j: int| 0 <= j < k ==> ep[j] == eq[j],
        decreases n - k,
    {
        let a = edge_index(n, d, k);
        let b = edge_index(n, od, k);
        if p[a] != q[b] {
            assert(ep[k as int] != eq[k as int]);
            return false;
        }
        k = k + 1;
    }
    assert(ep =~= eq);
    true
}

/// Pairs each pattern with its weight and, per direction, the patterns whose
/// edges match it there.
pub fn patterns_to_constraints(patterns: Vec<Vec<TileType>>, weights: &Vec<u32>, chunk_size: usize) -> (r: Vec<MapChunk>)
    requires
        chunk_size > 0,
        weights@.len() == patterns@.len(),
        forall|i: int| 0 <= i < weights@.len() ==> #[trigger] weights@[i] >= 1,
        forall|i: int| 0 <= i < patterns@.len() ==> (#[trigger] patterns@[i])@.len() == chunk_size * chunk_size,
    ensures
        chunks_wf(r@, chunk_size as int),
        r@.len() == patterns@.len(),
        forall|i: int| 0 <= i < r@.len() ==> (#[trigger] r@[i]).pattern@ == patterns@[i]@ && r@[i].weight == weights@[i],
{
    let n = chunk_size;
    let count = patterns.len();
    let mut chunks: Vec<MapChunk> = Vec::with_capacity(count);
    let mut i: usize = 0;
    while i < count
        invariant
            n == chunk_size,
            n > 0,
            count == patterns@.len(),
            weights@.len() == count,
            forall|a: int| 0 <= a < weights@.len() ==> #[trigger] weights@[a] >= 1,
            forall|a: int| 0 <= a < count ==> (#[trigger] patterns@[a])@.len() == n * n,
            i <= count,
            chunks@.len() == i,
            forall|a: int| 0 <= a < i ==> (#[trigger] chunks@[a]).pattern@ == patterns@[a]@ && chunks@[a].weight == weights@[a],
            forall|a: int| 0 <= a < i ==> (#[trigger] chunks@[a]).compatible_with@.len() == 4,
            forall|a: int, d: int|
                0 <= a < i && 0 <= d < 4 ==> (#[trigger] chunks@[a].compatible_with@[d])@.len() == count,
            forall|a: int, d: int, b: int|
                0 <= a < i && 0 <= d < 4 && 0 <= b < count ==> (#[trigger] chunks@[a].compatible_with@[d]@[b]
                    == edges_match(patterns@[a]@, patterns@[b]@, n as int, d)),
        decreases count - i,
    {
        let mut compat: Vec<Vec<bool>> = Vec::with_capacity(4);
        let mut d: usize = 0;
        while d < 4
            invariant
                n > 0,
                count == patterns@.len(),
                forall|a: int| 0 <= a < count ==> (#[trigger] patterns@[a])@.len() == n * n,
                i < count,
                d <= 4,
                compat@.len() == d,
                forall|dd: int| 0 <= dd < d ==> (#[trigger] compat@[dd])@.len() == count,
                forall|dd: int, b: int|
                    0 <= dd < d && 0 <= b < count ==> (#[trigger] compat@[dd]@[b] == edges_match(
                        patterns@[i as int]@,
                        patterns@[b]@,
                        n as int,
                        dd,
                    )),
            decreases 4 - d,
        {
            let mut row: Vec<bool> = Vec::with_capacity(count);
            let mut j: usize = 0;
            while j < count
                invariant
                    n > 0,
                    count == patterns@.len(),
                    forall|a: int| 0 <= a < count ==> (#[trigger] patterns@[a])@.len() == n * n,
                    i < count,
                    d < 4,
                    j <= count,
                    row@.len() == j,
                    forall|b: int|
                        0 <= b < j ==> (#[trigger] row@[b] == edges_match(
                            patterns@[i as int]@,
                            patterns@[b]@,
                            n as int,
                            d as int,
                        )),
                decreases count - j,
            {
                let m = edges_match_exec(&patterns[i], &patterns[j], n, d);
                row.push(m);
                j = j + 1;
            }
            compat.push(row);
            d = d + 1;
        }
        let pattern = copy_pattern(&patterns[i]);
        chunks.push(MapChunk { pattern, compatible_with: compat, weight: weights[i] });
        i = i + 1;
    }
    chunks
}

fn copy_pattern(p: &Vec<TileType>) -> (r: Vec<TileType>)
    ensures
        r@ == p@,
{
    let mut out: Vec<TileType> = Vec::with_capacity(p.len());
    let mut k: usize = 0;
    while k < p.len()
        invariant
            k <= p@.len(),
            out@ == p@.subrange(0, k as int),
        decreases p@.len() - k,
    {
        out.push(p[k]);
        k = k + 1;
    }
    assert(out@ =~= p@);
    out
}

} // verus!
