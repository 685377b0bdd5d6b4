use bracket_random::prelude::RandomNumberGenerator;
use vstd::arithmetic::div_mod::lemma_fundamental_div_mod_converse;
use vstd::prelude::*;

use crate::map::{lemma_coords_of_index, lemma_index_in_range};
use crate::random::roll;
use crate::reach::{count_none, lemma_count_none_update};
use crate::wfc_common::{chunks_wf, edges_match, lemma_edges_match_symmetric, opposite, MapChunk, EAST, NORTH, SOUTH};

verus! {

/// The cell next to cell `c` of a `cw` by `ch` chunk grid in direction `d`,
/// or -1 at the grid's edge.
pub open spec fn neighbor(cw: int, ch: int, c: int, d: int) -> int {
    let (x, y) = (c % cw, c / cw);
    if d == NORTH {
        if y > 0 {
            c - cw
        } else {
            -1
        }
    } else if d == SOUTH {
        if y < ch - 1 {
            c + cw
        } else {
            -1
        }
    } else if d == EAST {
        if x < cw - 1 {
            c + 1
        } else {
            -1
        }
    } else {
        if x > 0 {
            c - 1
        } else {
            -1
        }
    }
}

/// Whether pattern `q` is still possible at cell `c`.
pub open spec fn poss(s: Seq<bool>, np: int, c: int, q: int) -> bool {
    s[c * np + q]
}

/// Whether an assignment of one pattern per cell puts only matching
/// patterns next to each other.
pub open spec fn solution_valid(chunks: Seq<MapChunk>, n: int, cw: int, ch: int, sol: Seq<usize>) -> bool {
    &&& sol.len() == cw * ch
    &&& forall|c: int| 0 <= c < sol.len() ==> #[trigger] sol[c] < chunks.len()
    &&& forall|c: int, d: int|
        0 <= c < sol.len() && 0 <= d < 4 && #[trigger] neighbor(cw, ch, c, d) >= 0 ==> edges_match(
            chunks[sol[c] as int].pattern@,
            chunks[sol[neighbor(cw, ch, c, d)] as int].pattern@,
            n,
            d,
        )
}

proof fn lemma_neighbor_symmetric(cw: int, ch: int, c: int, d: int)
    requires
        cw > 0,
        0 <= c < cw * ch,
        0 <= d < 4,
        neighbor(cw, ch, c, d) >= 0,
    ensures
        neighbor(cw, ch, c, d) < cw * ch,
        neighbor(cw, ch, neighbor(cw, ch, c, d), opposite(d)) == c,
{
    lemma_coords_of_index(cw, ch, c);
    let (x, y) = (c % cw, c / cw);
    let e = neighbor(cw, ch, c, d);
    if d == NORTH {
        assert(e == (y - 1) * cw + x) by (nonlinear_arith)
            requires
                e == c - cw,
                c == y * cw + x,
        ;
        lemma_fundamental_div_mod_converse(e, cw, y - 1, x);
        lemma_index_in_range(cw, ch, x, y - 1);
    } else if d == SOUTH {
        assert(e == (y + 1) * cw + x) by (nonlinear_arith)
            requires
                e == c + cw,
                c == y * cw + x,
        ;
        lemma_fundamental_div_mod_converse(e, cw, y + 1, x);
        lemma_index_in_range(cw, ch, x, y + 1);
    } else if d == EAST {
        lemma_fundamental_div_mod_converse(e, cw, y, x + 1);
        lemma_index_in_range(cw, ch, x + 1, y);
    } else {
        lemma_fundamental_div_mod_converse(e, cw, y, x - 1);
        lemma_index_in_range(cw, ch, x - 1, y);
    }
}

/// The state of one solve attempt: for every cell of the chunk grid, which
/// patterns are still possible and which one was chosen.
#[derive(Debug)]
pub struct Solver {
    pub chunk_size: usize,
    pub chunks_x: usize,
    pub chunks_y: usize,
    pub n_patterns: usize,
    pub possible_patterns: Vec<bool>,
    pub chosen: Vec<Option<usize>>,
    pub possible: bool,
}

impl Solver {
    pub open spec fn cells(&self) -> int {
        self.chunks_x * self.chunks_y
    }

    /// The solver invariant: a chosen cell has exactly its pattern possible,
    /// and every pattern still possible next to a chosen cell matches it.
    pub open spec fn inv(&self, chunks: Seq<MapChunk>) -> bool {
        &&& self.chunk_size > 0
        &&& self.chunks_x > 0
        &&& chunks_wf(chunks, self.chunk_size as int)
        &&& self.n_patterns == chunks.len()
        &&& self.n_patterns > 0
        &&& self.cells() <= usize::MAX
        &&& self.chosen@.len() == self.cells()
        &&& self.possible_patterns@.len() == self.cells() * self.n_patterns
        &&& self.cells() * self.n_patterns <= usize::MAX
        &&& forall|c: int|
            0 <= c < self.cells() && #[trigger] self.chosen@[c] is Some ==> {
                let p = self.chosen@[c]->Some_0 as int;
                &&& p < self.n_patterns
                &&& poss(self.possible_patterns@, self.n_patterns as int, c, p)
                &&& forall|q: int| 0 <= q < self.n_patterns && q != p ==> !#[trigger] poss(self.possible_patterns@, self.n_patterns as int, c, q)
            }
        &&& forall|c: int, d: int, q: int|
            #![trigger self.chosen@[c], poss(self.possible_patterns@, self.n_patterns as int, neighbor(self.chunks_x as int, self.chunks_y as int, c, d), q)]
            0 <= c < self.cells() && self.chosen@[c] is Some && 0 <= d < 4 && neighbor(
                self.chunks_x as int,
                self.chunks_y as int,
                c,
                d,
            ) >= 0 && 0 <= q < self.n_patterns && poss(self.possible_patterns@, self.n_patterns as int, 
                neighbor(self.chunks_x as int, self.chunks_y as int, c, d),
                q,
            ) ==> edges_match(chunks[self.chosen@[c]->Some_0 as int].pattern@, chunks[q].pattern@, self.chunk_size as int, d)
    }

    /// A fresh attempt over a `chunks_x` by `chunks_y` grid: every pattern
    /// possible everywhere, nothing chosen.
    pub fn new(chunks: &Vec<MapChunk>, chunk_size: usize, chunks_x: usize, chunks_y: usize) -> (r: Solver)
        requires
            chunk_size > 0,
            chunks_x > 0,
            chunks_wf(chunks@, chunk_size as int),
            chunks@.len() > 0,
            chunks_x * chunks_y * chunks@.len() <= usize::MAX,
        ensures
            r.inv(chunks@),
            r.chunks_x == chunks_x,
            r.chunks_y == chunks_y,
            r.chunk_size == chunk_size,
            r.possible,
            count_none(r.chosen@) == r.cells(),
            forall|c: int| 0 <= c < r.cells() ==> #[trigger] r.chosen@[c] is None,
    {
        assert(chunks_x * chunks_y <= chunks_x * chunks_y * chunks@.len()) by (nonlinear_arith)
            requires
                chunks@.len() > 0,
        ;
        let cells = chunks_x * chunks_y;
        let np = chunks.len();
        assert(cells <= cells * np) by (nonlinear_arith)
            requires
                np > 0,
                cells >= 0,
        ;
        let total = cells * np;
        let possible_patterns = vec![true; total];
        let chosen: Vec<Option<usize>> = vec![None; cells];
        proof {
            lemma_count_all_none(chosen@);
        }
        Solver { chunk_size, chunks_x, chunks_y, n_patterns: np, possible_patterns, chosen, possible: true }
    }
}

fn neighbor_exec(cw: usize, ch: usize, c: usize, d: usize) -> (r: Option<usize>)
    requires
        cw > 0,
        c < cw * ch,
        cw * ch <= usize::MAX,
        d < 4,
    ensures
        match r {
            Some(e) => e as int == neighbor(cw as int, ch as int, c as int, d as int) && e < cw * ch,
            None => neighbor(cw as int, ch as int, c as int, d as int) < 0,
        },
{
    proof {
        lemma_coords_of_index(cw as int, ch as int, c as int);
        if neighbor(cw as int, ch as int, c as int, d as int) >= 0 {
            lemma_neighbor_symmetric(cw as int, ch as int, c as int, d as int);
        }
    }
    let x = c % cw;
    let y = c / cw;
    proof {
        assert(c >= y * cw);
        assert(y >= 1 ==> y * cw >= cw) by (nonlinear_arith)
            requires
                cw > 0,
        ;
    }
    if d == NORTH {
        if y > 0 {
            Some(c - cw)
        } else {
            None
        }
    } else if d == SOUTH {
        if y + 1 < ch {
            Some(c + cw)
        } else {
            None
        }
    } else if d == EAST {
        if x + 1 < cw {
            Some(c + 1)
        } else {
            None
        }
    } else {
        if x > 0 {
            Some(c - 1)
        } else {
            None
        }
    }
}

proof fn lemma_cells_disjoint(np: int, c1: int, q1: int, c2: int, q2: int)
    requires
        0 <= q1 < np,
        0 <= q2 < np,
        0 <= c1,
        0 <= c2,
        c1 != c2,
    ensures
        c1 * np + q1 != c2 * np + q2,
{
    if c1 < c2 {
        assert((c1 + 1) * np <= c2 * np) by (nonlinear_arith)
            requires
                c1 + 1 <= c2,
                np > 0,
        ;
        assert((c1 + 1) * np == c1 * np + np) by (nonlinear_arith);
    } else {
        assert((c2 + 1) * np <= c1 * np) by (nonlinear_arith)
            requires
                c2 + 1 <= c1,
                np > 0,
        ;
        assert((c2 + 1) * np == c2 * np + np) by (nonlinear_arith);
    }
}

/// Whether pattern `q` at cell `e` has, in every direction with a
/// neighbour, some possible neighbour pattern that matches it.
pub open spec fn supported_at(s: Solver, chunks: Seq<MapChunk>, e: int, q: int) -> bool {
    forall|d: int|
        0 <= d < 4 && neighbor(s.chunks_x as int, s.chunks_y as int, e, d) >= 0 ==> exists|r: int|
            0 <= r < s.n_patterns && #[trigger] poss(
                s.possible_patterns@,
                s.n_patterns as int,
                neighbor(s.chunks_x as int, s.chunks_y as int, e, d),
                r,
            ) && edges_match(chunks[q].pattern@, chunks[r].pattern@, s.chunk_size as int, d)
}

/// Whether every pattern still possible at an unchosen cell is matched by a
/// possible pattern of each of its neighbours.
pub open spec fn arc_consistent(s: Solver, chunks: Seq<MapChunk>) -> bool {
    forall|e: int, q: int|
        0 <= e < s.cells() && s.chosen@[e] is None && 0 <= q < s.n_patterns && #[trigger] poss(
            s.possible_patterns@,
            s.n_patterns as int,
            e,
            q,
        ) ==> supported_at(s, chunks, e, q)
}

/// Total weight of the possible patterns among the first `q`.
pub open spec fn running_weight(weights: Seq<u32>, possible: Seq<bool>, q: nat) -> int
    decreases q,
{
    if q == 0 {
        0
    } else {
        running_weight(weights, possible, (q - 1) as nat) + if possible[q - 1] {
            weights[q - 1] as int
        } else {
            0
        }
    }
}

/// Whether a draw of `target` selects pattern `q`: the first possible
/// pattern whose running weight reaches the draw.
pub open spec fn chosen_by(weights: Seq<u32>, possible: Seq<bool>, target: int, q: int) -> bool {
    &&& 0 <= q < possible.len()
    &&& possible[q]
    &&& running_weight(weights, possible, q as nat) < target <= running_weight(weights, possible, (q + 1) as nat)
}

/// The weights of the patterns.
pub open spec fn weights_of(chunks: Seq<MapChunk>) -> Seq<u32> {
    chunks.map_values(|c: MapChunk| c.weight)
}

/// The possibility flags of cell `c`.
pub open spec fn cell_flags(pp: Seq<bool>, np: int, c: int) -> Seq<bool> {
    pp.subrange(c * np, c * np + np)
}

/// How many patterns are still possible at cell `c`.
pub open spec fn count_possible(pp: Seq<bool>, np: int, c: int) -> nat {
    count_true(cell_flags(pp, np, c))
}

/// Highest die that a pattern draw uses.
pub const DRAW_CAP: u64 = 2147483646;

/// Whether `p` is what drawing a pattern for cell `c` may give: the draw is a
/// number from one up to the total weight of the cell's possible patterns
/// (at most `DRAW_CAP`), and `p` is the pattern it selects.
pub open spec fn drawn_for(s: Solver, chunks: Seq<MapChunk>, c: int, p: int) -> bool {
    let w = weights_of(chunks);
    let f = cell_flags(s.possible_patterns@, s.n_patterns as int, c);
    let total = running_weight(w, f, s.n_patterns as nat);
    exists|target: int|
        1 <= target <= (if total > DRAW_CAP { DRAW_CAP as int } else { total }) && #[trigger] chosen_by(w, f, target, p)
}

/// Whether `c` is the cell that an iteration fixes: unchosen, with the
/// fewest possible patterns, and the first such in scan order.
pub open spec fn is_min_cell(s: Solver, c: int) -> bool {
    let np = s.n_patterns as int;
    &&& 0 <= c < s.cells()
    &&& s.chosen@[c] is None
    &&& forall|d: int|
        0 <= d < s.cells() && #[trigger] s.chosen@[d] is None ==> count_possible(s.possible_patterns@, np, c)
            <= count_possible(s.possible_patterns@, np, d)
    &&& forall|d: int|
        0 <= d < c && #[trigger] s.chosen@[d] is None ==> count_possible(s.possible_patterns@, np, c) < count_possible(
            s.possible_patterns@,
            np,
            d,
        )
}

proof fn lemma_running_nonneg(weights: Seq<u32>, possible: Seq<bool>, q: nat)
    ensures
        running_weight(weights, possible, q) >= 0,
    decreases q,
{
    if q > 0 {
        lemma_running_nonneg(weights, possible, (q - 1) as nat);
    }
}

proof fn lemma_running_positive(weights: Seq<u32>, possible: Seq<bool>, q: nat, k: int)
    requires
        0 <= k < q,
        possible[k],
        weights[k] >= 1,
    ensures
        running_weight(weights, possible, q) >= 1,
    decreases q,
{
    if k < q - 1 {
        lemma_running_positive(weights, possible, (q - 1) as nat, k);
    } else {
        lemma_running_nonneg(weights, possible, (q - 1) as nat);
    }
}

proof fn lemma_count_true_extend(s: Seq<bool>, a: int, b: int)
    requires
        0 <= a <= b < s.len(),
    ensures
        count_true(s.subrange(a, b + 1)) == count_true(s.subrange(a, b)) + if s[b] {
            1nat
        } else {
            0nat
        },
{
    assert(s.subrange(a, b + 1).drop_last() =~= s.subrange(a, b));
}

/// Number of `true` entries.
pub open spec fn count_true(s: Seq<bool>) -> nat
    decreases s.len(),
{
    if s.len() == 0 {
        0
    } else {
        count_true(s.drop_last()) + if s.last() {
            1nat
        } else {
            0nat
        }
    }
}

proof fn lemma_count_true_clear(s: Seq<bool>, i: int)
    requires
        0 <= i < s.len(),
        s[i],
    ensures
        count_true(s.update(i, false)) + 1 == count_true(s),
    decreases s.len(),
{
    let u = s.update(i, false);
    if i == s.len() - 1 {
        assert(u.drop_last() =~= s.drop_last());
    } else {
        assert(u.drop_last() =~= s.drop_last().update(i, false));
        lemma_count_true_clear(s.drop_last(), i);
    }
}

proof fn lemma_count_all_none(s: Seq<Option<usize>>)
    requires
        forall|i: int| 0 <= i < s.len() ==> #[trigger] s[i] is None,
    ensures
        count_none(s) == s.len(),
    decreases s.len(),
{
    if s.len() > 0 {
        lemma_count_all_none(s.drop_last());
    }
}

/// The pattern that a draw of `target` selects: the first possible pattern
/// whose running weight reaches `target`, or `None` when the total weight
/// stays below it.
pub fn weighted_choice(weights: &Vec<u32>, possible: &Vec<bool>, target: u64) -> (r: Option<usize>)
    requires
        weights@.len() == possible@.len(),
        1 <= target <= DRAW_CAP,
    ensures
        match r {
            Some(q) => chosen_by(weights@, possible@, target as int, q as int),
            None => running_weight(weights@, possible@, possible@.len()) < target,
        },
{
    let mut acc: u64 = 0;
    let mut q: usize = 0;
    while q < possible.len()
        invariant
            weights@.len() == possible@.len(),
            1 <= target <= DRAW_CAP,
            q <= possible@.len(),
            acc as int == running_weight(weights@, possible@, q as nat),
            acc < target,
        decreases possible@.len() - q,
    {
        if possible[q] {
            acc = acc + weights[q] as u64;
            if acc >= target {
                return Some(q);
            }
        }
        q = q + 1;
    }
    None
}

impl Solver {
    /// Fixes pattern `p` at the unchosen cell `c` and removes from each
    /// neighbour the patterns whose edges do not match it.
    fn collapse(&mut self, chunks: &Vec<MapChunk>, c: usize, p: usize)
        requires
            old(self).inv(chunks@),
            c < old(self).cells(),
            p < old(self).n_patterns,
            old(self).chosen@[c as int] is None,
            poss(old(self).possible_patterns@, old(self).n_patterns as int, c as int, p as int),
        ensures
            final(self).inv(chunks@),
            final(self).chunk_size == old(self).chunk_size,
            final(self).chunks_x == old(self).chunks_x,
            final(self).chunks_y == old(self).chunks_y,
            final(self).n_patterns == old(self).n_patterns,
            final(self).possible == old(self).possible,
            final(self).chosen@ == old(self).chosen@.update(c as int, Some(p)),
    {
        let np = self.n_patterns;
        let cw = self.chunks_x;
        let ch = self.chunks_y;
        let ghost n = self.chunk_size as int;
        let ghost old_pp = self.possible_patterns@;
        let ghost old_chosen = self.chosen@;
        let ghost cells = self.cells();
        proof {
            lemma_index_in_range(np as int, cells, 0, c as int);
            lemma_index_in_range(np as int, cells, p as int, c as int);
        }
        let base = c * np;
        let mut q: usize = 0;
        while q < np
            invariant
                self.chunk_size == old(self).chunk_size,
                self.chunks_x == cw,
                self.chunks_y == ch,
                self.n_patterns == np,
                self.possible == old(self).possible,
                self.chosen@ == old_chosen,
                old_chosen == old(self).chosen@,
                old_pp == old(self).possible_patterns@,
                cells == cw * ch,
                c < cells,
                p < np,
                base == c * np,
                self.possible_patterns@.len() == old_pp.len(),
                old_pp.len() == cells * np,
                cells * np <= usize::MAX,
                poss(old_pp, np as int, c as int, p as int),
                q <= np,
                forall|i: int| 0 <= i < old_pp.len() && #[trigger] self.possible_patterns@[i] ==> old_pp[i],
                forall|i: int|
                    0 <= i < old_pp.len() && !(base <= i < base + q) ==> #[trigger] self.possible_patterns@[i] == old_pp[i],
                forall|j: int| 0 <= j < q ==> #[trigger] self.possible_patterns@[base + j] == (j == p),
            decreases np - q,
        {
            proof {
                lemma_index_in_range(np as int, cells, q as int, c as int);
            }
            if q != p {
                self.possible_patterns.set(base + q, false);
            }
            q = q + 1;
        }
        self.chosen.set(c, Some(p));
        proof {
            assert(poss(self.possible_patterns@, self.n_patterns as int, c as int, p as int));
            assert forall|cc: int|
                0 <= cc < cells && cc != c && #[trigger] self.chosen@[cc] is Some implies poss(self.possible_patterns@, self.n_patterns as int, 
                    cc,
                    self.chosen@[cc]->Some_0 as int,
                ) by {
                let r = self.chosen@[cc]->Some_0 as int;
                assert(old_chosen[cc] is Some);
                lemma_cells_disjoint(np as int, cc, r, c as int, 0);
                lemma_index_in_range(np as int, cells, r, cc);
                if base <= cc * np + r < base + np {
                    lemma_cells_disjoint(np as int, cc, r, c as int, cc * np + r - base);
                }
            }
            assert forall|qq: int| 0 <= qq < np && qq != p implies !#[trigger] poss(self.possible_patterns@, self.n_patterns as int, c as int, qq) by {
                assert(self.possible_patterns@[base + qq] == (qq == p));
            }
        }
        let mut d: usize = 0;
        while d < 4
            invariant
                old(self).inv(chunks@),
                self.chunk_size == old(self).chunk_size,
                self.chunks_x == cw,
                self.chunks_y == ch,
                self.n_patterns == np,
                self.possible == old(self).possible,
                n == self.chunk_size,
                self.chosen@ == old_chosen.update(c as int, Some(p)),
                old_chosen == old(self).chosen@,
                old(self).chunks_x == cw,
                old(self).chunks_y == ch,
                old(self).n_patterns == np,
                old(self).chunk_size == n,
                old_pp == old(self).possible_patterns@,
                cells == cw * ch,
                cw > 0,
                np == chunks@.len(),
                c < cells,
                p < np,
                self.possible_patterns@.len() == old_pp.len(),
                old_pp.len() == cells * np,
                cells * np <= usize::MAX,
                old_chosen[c as int] is None,
                poss(old_pp, np as int, c as int, p as int),
                d <= 4,
                forall|i: int| 0 <= i < old_pp.len() && #[trigger] self.possible_patterns@[i] ==> old_pp[i],
                poss(self.possible_patterns@, self.n_patterns as int, c as int, p as int),
                forall|q: int| 0 <= q < np && q != p ==> !#[trigger] poss(self.possible_patterns@, self.n_patterns as int, c as int, q),
                forall|cc: int|
                    0 <= cc < cells && cc != c && #[trigger] self.chosen@[cc] is Some ==> poss(self.possible_patterns@, self.n_patterns as int, 
                        cc,
                        self.chosen@[cc]->Some_0 as int,
                    ),
                forall|dd: int, q: int|
                    0 <= dd < d && neighbor(cw as int, ch as int, c as int, dd) >= 0 && 0 <= q < np
                        && #[trigger] poss(self.possible_patterns@, self.n_patterns as int, neighbor(cw as int, ch as int, c as int, dd), q) ==> edges_match(
                        chunks@[p as int].pattern@,
                        chunks@[q].pattern@,
                        n,
                        dd,
                    ),
            decreases 4 - d,
        {
            match neighbor_exec(cw, ch, c, d) {
                Some(e) => {
                    let mut q: usize = 0;
                    while q < np
                        invariant
                            old(self).inv(chunks@),
                            self.chunk_size == old(self).chunk_size,
                            self.chunks_x == cw,
                            self.chunks_y == ch,
                            self.n_patterns == np,
                            self.possible == old(self).possible,
                            n == self.chunk_size,
                            self.chosen@ == old_chosen.update(c as int, Some(p)),
                            old_chosen == old(self).chosen@,
                            old(self).chunks_x == cw,
                            old(self).chunks_y == ch,
                            old(self).n_patterns == np,
                            old(self).chunk_size == n,
                            old_pp == old(self).possible_patterns@,
                            cells == cw * ch,
                            cw > 0,
                            np == chunks@.len(),
                            c < cells,
                            p < np,
                            d < 4,
                            e < cells,
                            e as int == neighbor(cw as int, ch as int, c as int, d as int),
                            self.possible_patterns@.len() == old_pp.len(),
                            old_pp.len() == cells * np,
                            cells * np <= usize::MAX,
                            old_chosen[c as int] is None,
                            poss(old_pp, np as int, c as int, p as int),
                            q <= np,
                            forall|i: int| 0 <= i < old_pp.len() && #[trigger] self.possible_patterns@[i] ==> old_pp[i],
                            poss(self.possible_patterns@, self.n_patterns as int, c as int, p as int),
                            forall|qq: int| 0 <= qq < np && qq != p ==> !#[trigger] poss(self.possible_patterns@, self.n_patterns as int, c as int, qq),
                            forall|cc: int|
                                0 <= cc < cells && cc != c && #[trigger] self.chosen@[cc] is Some ==> poss(self.possible_patterns@, self.n_patterns as int, 
                                    cc,
                                    self.chosen@[cc]->Some_0 as int,
                                ),
                            forall|dd: int, qq: int|
                                0 <= dd < d && neighbor(cw as int, ch as int, c as int, dd) >= 0 && 0 <= qq < np
                                    && #[trigger] poss(self.possible_patterns@, self.n_patterns as int, neighbor(cw as int, ch as int, c as int, dd), qq)
                                    ==> edges_match(chunks@[p as int].pattern@, chunks@[qq].pattern@, n, dd),
                            forall|qq: int|
                                0 <= qq < q && #[trigger] poss(self.possible_patterns@, self.n_patterns as int, e as int, qq) ==> edges_match(
                                    chunks@[p as int].pattern@,
                                    chunks@[qq].pattern@,
                                    n,
                                    d as int,
                                ),
                        decreases np - q,
                    {
                        proof {
                            lemma_index_in_range(np as int, cells, q as int, e as int);
                            lemma_neighbor_symmetric(cw as int, ch as int, c as int, d as int);
                        }
                        let idx = e * np + q;
                        let keep = chunks[p].compatible_with[d][q];
                        assert(keep == edges_match(chunks@[p as int].pattern@, chunks@[q as int].pattern@, n, d as int));
                        if self.possible_patterns[idx] && !keep {
                            proof {
                                if old_chosen[e as int] is Some && old_chosen[e as int]->Some_0 == q as int {
                                    let od = opposite(d as int);
                                    assert(old(self).chosen@[e as int] is Some);
                                    assert(neighbor(cw as int, ch as int, e as int, od) == c);
                                    assert(poss(old(self).possible_patterns@, old(self).n_patterns as int, neighbor(cw as int, ch as int, e as int, od), p as int));
                                    lemma_edges_match_symmetric(chunks@[p as int].pattern@, chunks@[q as int].pattern@, n, d as int);
                                    assert(false);
                                }
                                assert(old_chosen[e as int] is Some ==> old_chosen[e as int]->Some_0 != q as int);
                            }
                            let ghost before = self.possible_patterns@;
                            assert(forall|cc: int|
                                0 <= cc < cells && cc != c && #[trigger] self.chosen@[cc] is Some ==> poss(before, np as int, cc,
                                    self.chosen@[cc]->Some_0 as int));
                            assert(forall|qq: int| 0 <= qq < np && qq != p ==> !#[trigger] poss(before, np as int, c as int, qq));
                            assert(forall|dd: int, qq: int|
                                0 <= dd < d && neighbor(cw as int, ch as int, c as int, dd) >= 0 && 0 <= qq < np
                                    && #[trigger] poss(before, np as int, neighbor(cw as int, ch as int, c as int, dd), qq)
                                    ==> edges_match(chunks@[p as int].pattern@, chunks@[qq].pattern@, n, dd));
                            assert(forall|qq: int|
                                0 <= qq < q && #[trigger] poss(before, np as int, e as int, qq) ==> edges_match(
                                    chunks@[p as int].pattern@, chunks@[qq].pattern@, n, d as int));
                            self.possible_patterns.set(idx, false);
                            proof {
                                assert(e != c);
                                lemma_cells_disjoint(np as int, e as int, q as int, c as int, p as int);
                                lemma_index_in_range(np as int, cells, p as int, c as int);
                                assert forall|dd: int, qq: int|
                                    0 <= dd < d && neighbor(cw as int, ch as int, c as int, dd) >= 0 && 0 <= qq < np
                                        && #[trigger] poss(self.possible_patterns@, self.n_patterns as int, neighbor(cw as int, ch as int, c as int, dd), qq)
                                        implies edges_match(chunks@[p as int].pattern@, chunks@[qq].pattern@, n, dd) by {
                                    let x = neighbor(cw as int, ch as int, c as int, dd);
                                    lemma_neighbor_symmetric(cw as int, ch as int, c as int, dd);
                                    lemma_index_in_range(np as int, cells, qq, x);
                                    assert(poss(before, np as int, x, qq));
                                }
                                assert forall|qq: int|
                                    0 <= qq < q + 1 && #[trigger] poss(self.possible_patterns@, self.n_patterns as int, e as int, qq)
                                        implies edges_match(chunks@[p as int].pattern@, chunks@[qq].pattern@, n, d as int) by {
                                    lemma_index_in_range(np as int, cells, qq, e as int);
                                    if qq != q {
                                        assert(poss(before, np as int, e as int, qq));
                                    }
                                }
                                assert forall|cc: int|
                                    0 <= cc < cells && cc != c && #[trigger] self.chosen@[cc] is Some implies poss(self.possible_patterns@, self.n_patterns as int, 
                                        cc,
                                        self.chosen@[cc]->Some_0 as int,
                                    ) by {
                                    let r = self.chosen@[cc]->Some_0 as int;
                                    assert(old_chosen[cc] is Some);
                                    assert(poss(before, np as int, cc, r));
                                    assert(r < np);
                                    lemma_index_in_range(np as int, cells, r, cc);
                                    if cc != e {
                                        lemma_cells_disjoint(np as int, cc, r, e as int, q as int);
                                    } else {
                                        assert(r != q);
                                    }
                                    assert(cc * np + r != e * np + q);
                                }
                                assert forall|qq: int| 0 <= qq < np && qq != p implies !#[trigger] poss(self.possible_patterns@, self.n_patterns as int, c as int, qq) by {
                                    lemma_cells_disjoint(np as int, e as int, q as int, c as int, qq);
                                    lemma_index_in_range(np as int, cells, qq, c as int);
                                    assert(!poss(before, np as int, c as int, qq));
                                }
                            }
                        }
                        q = q + 1;
                    }
                },
                None => {},
            }
            d = d + 1;
        }
        proof {
            assert forall|cc: int|
                0 <= cc < self.cells() && #[trigger] self.chosen@[cc] is Some implies {
                    let r = self.chosen@[cc]->Some_0 as int;
                    &&& r < self.n_patterns
                    &&& poss(self.possible_patterns@, self.n_patterns as int, cc, r)
                    &&& forall|q: int| 0 <= q < self.n_patterns && q != r ==> !#[trigger] poss(self.possible_patterns@, self.n_patterns as int, cc, q)
                } by {
                if cc != c {
                    assert(old_chosen[cc] is Some);
                    let r = self.chosen@[cc]->Some_0 as int;
                    assert forall|q: int| 0 <= q < self.n_patterns && q != r implies !#[trigger] poss(self.possible_patterns@, self.n_patterns as int, cc, q) by {
                        lemma_index_in_range(np as int, cells, q, cc);
                        assert(!poss(old_pp, np as int, cc, q));
                    }
                }
            }
            assert forall|cc: int, dd: int, q: int|
                #![trigger self.chosen@[cc], poss(self.possible_patterns@, self.n_patterns as int, neighbor(self.chunks_x as int, self.chunks_y as int, cc, dd), q)]
                0 <= cc < self.cells() && self.chosen@[cc] is Some && 0 <= dd < 4 && neighbor(
                    self.chunks_x as int,
                    self.chunks_y as int,
                    cc,
                    dd,
                ) >= 0 && 0 <= q < self.n_patterns && poss(self.possible_patterns@, self.n_patterns as int, 
                    neighbor(self.chunks_x as int, self.chunks_y as int, cc, dd),
                    q,
                ) implies edges_match(
                chunks@[self.chosen@[cc]->Some_0 as int].pattern@,
                chunks@[q].pattern@,
                self.chunk_size as int,
                dd,
            ) by {
                if cc != c {
                    let e = neighbor(cw as int, ch as int, cc, dd);
                    lemma_neighbor_symmetric(cw as int, ch as int, cc, dd);
                    lemma_index_in_range(np as int, cells, q, e);
                    assert(old_chosen[cc] is Some);
                    assert(poss(old(self).possible_patterns@, old(self).n_patterns as int, e, q));
                }
            }
        }
    }

    /// Removes, from every unchosen cell, each pattern that some neighbour
    /// can no longer match, repeating until nothing changes: afterwards every
    /// pattern still possible at an unchosen cell is matched by a possible
    /// pattern of each of its neighbours.
    fn propagate(&mut self, chunks: &Vec<MapChunk>)
        requires
            old(self).inv(chunks@),
        ensures
            final(self).inv(chunks@),
            arc_consistent(*final(self), chunks@),
            final(self).chunk_size == old(self).chunk_size,
            final(self).chunks_x == old(self).chunks_x,
            final(self).chunks_y == old(self).chunks_y,
            final(self).n_patterns == old(self).n_patterns,
            final(self).possible == old(self).possible,
            final(self).chosen@ == old(self).chosen@,
    {
        let np = self.n_patterns;
        let cw = self.chunks_x;
        let ch = self.chunks_y;
        let cells = cw * ch;
        let mut changed = true;
        while changed
            invariant
                self.inv(chunks@),
                self.chunk_size == old(self).chunk_size,
                self.chunks_x == cw,
                self.chunks_y == ch,
                self.n_patterns == np,
                self.possible == old(self).possible,
                self.chosen@ == old(self).chosen@,
                cells == cw * ch,
                !changed ==> forall|e: int, q: int|
                    0 <= e < cells && self.chosen@[e] is None && 0 <= q < np
                        && #[trigger] poss(self.possible_patterns@, np as int, e, q) ==> supported_at(*self, chunks@, e, q),
            decreases count_true(self.possible_patterns@), (if changed { 1int } else { 0int }),
        {
            let ghost start = count_true(self.possible_patterns@);
            let ghost s0 = *self;
            changed = false;
            let mut e: usize = 0;
            while e < cells
                invariant
                    self.inv(chunks@),
                    self.chunk_size == old(self).chunk_size,
                    self.chunks_x == cw,
                    self.chunks_y == ch,
                    self.n_patterns == np,
                    self.possible == old(self).possible,
                    self.chosen@ == old(self).chosen@,
                    cells == cw * ch,
                    e <= cells,
                    count_true(self.possible_patterns@) <= start,
                    changed ==> count_true(self.possible_patterns@) < start,
                    !changed ==> *self == s0,
                    !changed ==> forall|ee: int, q: int|
                        0 <= ee < e && self.chosen@[ee] is None && 0 <= q < np
                            && #[trigger] poss(self.possible_patterns@, np as int, ee, q) ==> supported_at(*self, chunks@, ee, q),
                decreases cells - e,
            {
                if self.chosen[e].is_none() {
                    let mut q: usize = 0;
                    while q < np
                        invariant
                            self.inv(chunks@),
                            self.chunk_size == old(self).chunk_size,
                            self.chunks_x == cw,
                            self.chunks_y == ch,
                            self.n_patterns == np,
                            self.possible == old(self).possible,
                            self.chosen@ == old(self).chosen@,
                            cells == cw * ch,
                            e < cells,
                            self.chosen@[e as int] is None,
                            q <= np,
                            count_true(self.possible_patterns@) <= start,
                            changed ==> count_true(self.possible_patterns@) < start,
                            !changed ==> *self == s0,
                            !changed ==> forall|ee: int, qq: int|
                                0 <= ee < e && self.chosen@[ee] is None && 0 <= qq < np
                                    && #[trigger] poss(self.possible_patterns@, np as int, ee, qq) ==> supported_at(*self, chunks@, ee, qq),
                            !changed ==> forall|qq: int|
                                0 <= qq < q && #[trigger] poss(self.possible_patterns@, np as int, e as int, qq)
                                    ==> supported_at(*self, chunks@, e as int, qq),
                        decreases np - q,
                    {
                        proof {
                            lemma_index_in_range(np as int, cells as int, q as int, e as int);
                            assert(cells as int == self.cells());
                            assert(e * np + q < cells * np);
                        }
                        let idx = e * np + q;
                        if self.possible_patterns[idx] && !self.supported(chunks, e, q) {
                            proof {
                                lemma_count_true_clear(self.possible_patterns@, (e * np + q) as int);
                            }
                            self.clear(chunks, e, q);
                            changed = true;
                        }
                        q = q + 1;
                    }
                }
                e = e + 1;
            }
        }
    }

    /// Whether pattern `q` at cell `e` still has, in every direction, a
    /// possible neighbour pattern that matches it.
    fn supported(&self, chunks: &Vec<MapChunk>, e: usize, q: usize) -> (r: bool)
        requires
            self.inv(chunks@),
            e < self.cells(),
            q < self.n_patterns,
        ensures
            r == supported_at(*self, chunks@, e as int, q as int),
    {
        let np = self.n_patterns;
        let cw = self.chunks_x;
        let ch = self.chunks_y;
        let mut d: usize = 0;
        while d < 4
            invariant
                self.inv(chunks@),
                np == self.n_patterns,
                cw == self.chunks_x,
                ch == self.chunks_y,
                e < self.cells(),
                q < np,
                d <= 4,
                forall|dd: int|
                    0 <= dd < d && neighbor(cw as int, ch as int, e as int, dd) >= 0 ==> exists|r: int|
                        0 <= r < np && #[trigger] poss(
                            self.possible_patterns@,
                            np as int,
                            neighbor(cw as int, ch as int, e as int, dd),
                            r,
                        ) && edges_match(chunks@[q as int].pattern@, chunks@[r].pattern@, self.chunk_size as int, dd),
            decreases 4 - d,
        {
            match neighbor_exec(cw, ch, e, d) {
                Some(f) => {
                    let mut found = false;
                    let mut r: usize = 0;
                    while r < np && !found
                        invariant
                            self.inv(chunks@),
                            np == self.n_patterns,
                            cw == self.chunks_x,
                            ch == self.chunks_y,
                            f < self.cells(),
                            f as int == neighbor(cw as int, ch as int, e as int, d as int),
                            q < np,
                            d < 4,
                            r <= np,
                            found ==> exists|rr: int|
                                0 <= rr < np && #[trigger] poss(self.possible_patterns@, np as int, f as int, rr)
                                    && edges_match(chunks@[q as int].pattern@, chunks@[rr].pattern@, self.chunk_size as int, d as int),
                            !found ==> forall|rr: int|
                                0 <= rr < r ==> !(#[trigger] poss(self.possible_patterns@, np as int, f as int, rr)
                                    && edges_match(chunks@[q as int].pattern@, chunks@[rr].pattern@, self.chunk_size as int, d as int)),
                        decreases np - r,
                    {
                        proof {
                            lemma_index_in_range(np as int, self.cells(), r as int, f as int);
                        }
                        let m = chunks[q].compatible_with[d][r];
                        assert(m == edges_match(chunks@[q as int].pattern@, chunks@[r as int].pattern@, self.chunk_size as int, d as int));
                        if self.possible_patterns[f * np + r] && m {
                            assert(poss(self.possible_patterns@, np as int, f as int, r as int));
                            found = true;
                        }
                        r = r + 1;
                    }
                    if !found {
                        return false;
                    }
                },
                None => {},
            }
            d = d + 1;
        }
        true
    }

    /// Rules out pattern `q` at the unchosen cell `e`.
    fn clear(&mut self, chunks: &Vec<MapChunk>, e: usize, q: usize)
        requires
            old(self).inv(chunks@),
            e < old(self).cells(),
            q < old(self).n_patterns,
            old(self).chosen@[e as int] is None,
        ensures
            final(self).inv(chunks@),
            final(self).chunk_size == old(self).chunk_size,
            final(self).chunks_x == old(self).chunks_x,
            final(self).chunks_y == old(self).chunks_y,
            final(self).n_patterns == old(self).n_patterns,
            final(self).possible == old(self).possible,
            final(self).chosen@ == old(self).chosen@,
            final(self).possible_patterns@ == old(self).possible_patterns@.update(e * old(self).n_patterns + q, false),
    {
        let np = self.n_patterns;
        let ghost cells = self.cells();
        let ghost before = self.possible_patterns@;
        proof {
            lemma_index_in_range(np as int, cells, q as int, e as int);
        }
        self.possible_patterns.set(e * np + q, false);
        proof {
            assert forall|c: int|
                0 <= c < self.cells() && #[trigger] self.chosen@[c] is Some implies {
                    let p = self.chosen@[c]->Some_0 as int;
                    &&& p < self.n_patterns
                    &&& poss(self.possible_patterns@, self.n_patterns as int, c, p)
                    &&& forall|qq: int| 0 <= qq < self.n_patterns && qq != p ==> !#[trigger] poss(self.possible_patterns@, self.n_patterns as int, c, qq)
                } by {
                let p = self.chosen@[c]->Some_0 as int;
                assert(c != e);
                assert(poss(before, np as int, c, p));
                lemma_cells_disjoint(np as int, c, p, e as int, q as int);
                lemma_index_in_range(np as int, cells, p, c);
                assert forall|qq: int| 0 <= qq < self.n_patterns && qq != p implies !#[trigger] poss(self.possible_patterns@, self.n_patterns as int, c, qq) by {
                    assert(!poss(before, np as int, c, qq));
                    lemma_cells_disjoint(np as int, c, qq, e as int, q as int);
                    lemma_index_in_range(np as int, cells, qq, c);
                }
            }
            assert forall|c: int, d: int, qq: int|
                #![trigger self.chosen@[c], poss(self.possible_patterns@, self.n_patterns as int, neighbor(self.chunks_x as int, self.chunks_y as int, c, d), qq)]
                0 <= c < self.cells() && self.chosen@[c] is Some && 0 <= d < 4 && neighbor(
                    self.chunks_x as int,
                    self.chunks_y as int,
                    c,
                    d,
                ) >= 0 && 0 <= qq < self.n_patterns && poss(self.possible_patterns@, self.n_patterns as int,
                    neighbor(self.chunks_x as int, self.chunks_y as int, c, d),
                    qq,
                ) implies edges_match(chunks@[self.chosen@[c]->Some_0 as int].pattern@, chunks@[qq].pattern@, self.chunk_size as int, d) by {
                let f = neighbor(self.chunks_x as int, self.chunks_y as int, c, d);
                lemma_neighbor_symmetric(self.chunks_x as int, self.chunks_y as int, c, d);
                lemma_index_in_range(np as int, cells, qq, f);
                assert(poss(before, np as int, f, qq));
            }
        }
    }

    /// A pattern for cell `c`, drawn among its possible patterns with
    /// probability proportional to weight; `fallback` when their total weight
    /// is zero.
    fn pick(&self, chunks: &Vec<MapChunk>, c: usize, fallback: usize, rng: &mut RandomNumberGenerator) -> (r: usize)
        requires
            self.inv(chunks@),
            c < self.cells(),
            fallback < self.n_patterns,
            poss(self.possible_patterns@, self.n_patterns as int, c as int, fallback as int),
        ensures
            r < self.n_patterns,
            poss(self.possible_patterns@, self.n_patterns as int, c as int, r as int),
            running_weight(
                weights_of(chunks@),
                cell_flags(self.possible_patterns@, self.n_patterns as int, c as int),
                self.n_patterns as nat,
            ) > 0 ==> drawn_for(*self, chunks@, c as int, r as int),
    {
        let np = self.n_patterns;
        let ghost cells = self.cells();
        let mut weights: Vec<u32> = Vec::with_capacity(np);
        let mut flags: Vec<bool> = Vec::with_capacity(np);
        let mut q: usize = 0;
        while q < np
            invariant
                self.inv(chunks@),
                np == self.n_patterns,
                c < cells,
                cells == self.cells(),
                q <= np,
                weights@ == weights_of(chunks@).subrange(0, q as int),
                flags@ == cell_flags(self.possible_patterns@, np as int, c as int).subrange(0, q as int),
            decreases np - q,
        {
            proof {
                lemma_index_in_range(np as int, cells, q as int, c as int);
                lemma_index_in_range(np as int, cells, np - 1, c as int);
            }
            weights.push(chunks[q].weight);
            flags.push(self.possible_patterns[c * np + q]);
            proof {
                assert(weights@ =~= weights_of(chunks@).subrange(0, q + 1));
                assert(flags@ =~= cell_flags(self.possible_patterns@, np as int, c as int).subrange(0, q + 1));
            }
            q = q + 1;
        }
        proof {
            lemma_index_in_range(np as int, cells, np - 1, c as int);
            assert(weights@ =~= weights_of(chunks@));
            assert(flags@ =~= cell_flags(self.possible_patterns@, np as int, c as int));
        }
        let mut total: u64 = 0;
        let mut k: usize = 0;
        while k < np
            invariant
                np == self.n_patterns,
                weights@.len() == np,
                flags@.len() == np,
                k <= np,
                running_weight(weights@, flags@, k as nat) < DRAW_CAP ==> total as int == running_weight(
                    weights@,
                    flags@,
                    k as nat,
                ),
                running_weight(weights@, flags@, k as nat) >= DRAW_CAP ==> total >= DRAW_CAP,
                total < DRAW_CAP + 4294967296,
            decreases np - k,
        {
            if flags[k] && total < DRAW_CAP {
                total = total + weights[k] as u64;
            }
            k = k + 1;
        }
        if total == 0 {
            return fallback;
        }
        let die: i32 = if total > DRAW_CAP {
            DRAW_CAP as i32
        } else {
            total as i32
        };
        let target = roll(rng, die) as u64;
        match weighted_choice(&weights, &flags, target) {
            Some(q) => {
                proof {
                    assert(flags@[q as int] == self.possible_patterns@[c * np + q]);
                    assert(chosen_by(weights_of(chunks@), cell_flags(self.possible_patterns@, np as int, c as int), target as int, q as int));
                }
                q
            },
            None => fallback,
        }
    }

    /// One step: the unchosen cell with the fewest possible patterns gets a
    /// pattern. Returns true when the attempt is over: every cell is chosen,
    /// or some cell has no possible pattern left (then `possible` is false).
    pub fn iteration(&mut self, chunks: &Vec<MapChunk>, rng: &mut RandomNumberGenerator) -> (done: bool)
        requires
            old(self).inv(chunks@),
            old(self).possible,
        ensures
            final(self).inv(chunks@),
            final(self).chunk_size == old(self).chunk_size,
            final(self).chunks_x == old(self).chunks_x,
            final(self).chunks_y == old(self).chunks_y,
            !done ==> final(self).possible && count_none(final(self).chosen@) < count_none(old(self).chosen@),
            !done ==> arc_consistent(*final(self), chunks@),
            done && final(self).possible ==> forall|c: int| 0 <= c < final(self).cells() ==> #[trigger] final(self).chosen@[c] is Some,
            (done && !final(self).possible) <==> exists|d: int|
                0 <= d < old(self).cells() && #[trigger] old(self).chosen@[d] is None && count_possible(
                    old(self).possible_patterns@,
                    old(self).n_patterns as int,
                    d,
                ) == 0,
            done ==> final(self).chosen == old(self).chosen,
            !done ==> exists|c: int, p: int|
                #[trigger] is_min_cell(*old(self), c) && final(self).chosen@ == old(self).chosen@.update(c, Some(p as usize))
                    && 0 <= p < old(self).n_patterns && poss(old(self).possible_patterns@, old(self).n_patterns as int, c, p)
                    && #[trigger] drawn_for(*old(self), chunks@, c, p),
    {
        let np = self.n_patterns;
        let cells = self.chunks_x * self.chunks_y;
        let mut best: Option<(usize, usize, usize)> = None;
        let mut c: usize = 0;
        while c < cells
            invariant
                self.inv(chunks@),
                *self == *old(self),
                np == self.n_patterns,
                cells == self.cells(),
                c <= cells,
                match best {
                    None => forall|cc: int| 0 <= cc < c ==> #[trigger] self.chosen@[cc] is Some,
                    Some(b) => {
                        &&& b.0 < c
                        &&& self.chosen@[b.0 as int] is None
                        &&& b.1 == count_possible(self.possible_patterns@, np as int, b.0 as int)
                        &&& (b.1 > 0 ==> b.2 < np && poss(self.possible_patterns@, self.n_patterns as int, b.0 as int, b.2 as int))
                        &&& forall|d: int|
                            0 <= d < c && #[trigger] self.chosen@[d] is None ==> b.1 <= count_possible(
                                self.possible_patterns@,
                                np as int,
                                d,
                            )
                        &&& forall|d: int|
                            0 <= d < b.0 && #[trigger] self.chosen@[d] is None ==> b.1 < count_possible(
                                self.possible_patterns@,
                                np as int,
                                d,
                            )
                    },
                },
            decreases cells - c,
        {
            if self.chosen[c].is_none() {
                proof {
                    lemma_index_in_range(np as int, cells as int, 0, c as int);
                    assert(self.possible_patterns@.subrange(c * np, c * np + 0) =~= Seq::<bool>::empty());
                }
                let mut count: usize = 0;
                let mut any: usize = 0;
                let mut q: usize = 0;
                while q < np
                    invariant
                        self.inv(chunks@),
                        np == self.n_patterns,
                        cells == self.cells(),
                        c < cells,
                        q <= np,
                        count <= q,
                        count == count_true(self.possible_patterns@.subrange(c * np, c * np + q)),
                        count > 0 ==> any < np && poss(self.possible_patterns@, self.n_patterns as int, c as int, any as int),
                    decreases np - q,
                {
                    proof {
                        lemma_index_in_range(np as int, cells as int, q as int, c as int);
                        lemma_count_true_extend(self.possible_patterns@, c * np, c * np + q);
                    }
                    if self.possible_patterns[c * np + q] {
                        count = count + 1;
                        any = q;
                    }
                    q = q + 1;
                }
                let better = match best {
                    None => true,
                    Some(b) => count < b.1,
                };
                if better {
                    best = Some((c, count, any));
                }
            }
            c = c + 1;
        }
        match best {
            None => true,
            Some(b) => {
                if b.1 == 0 {
                    self.possible = false;
                    return true;
                }
                let ghost s0 = *self;
                let p = self.pick(chunks, b.0, b.2, rng);
                proof {
                    lemma_count_none_update(self.chosen@, b.0 as int, p);
                    assert(is_min_cell(s0, b.0 as int));
                    let f = cell_flags(s0.possible_patterns@, np as int, b.0 as int);
                    lemma_index_in_range(np as int, cells as int, b.2 as int, b.0 as int);
                    lemma_index_in_range(np as int, cells as int, np - 1, b.0 as int);
                    assert(f[b.2 as int] == s0.possible_patterns@[b.0 * np + b.2]);
                    assert(weights_of(chunks@)[b.2 as int] == chunks@[b.2 as int].weight);
                    lemma_running_positive(weights_of(chunks@), f, np as nat, b.2 as int);
                    assert(drawn_for(s0, chunks@, b.0 as int, p as int));
                }
                self.collapse(chunks, b.0, p);
                self.propagate(chunks);
                false
            },
        }
    }

    /// The chosen pattern of every cell, once all are chosen.
    pub fn solution(&self, chunks: &Vec<MapChunk>) -> (r: Vec<usize>)
        requires
            self.inv(chunks@),
            forall|c: int| 0 <= c < self.cells() ==> #[trigger] self.chosen@[c] is Some,
        ensures
            r@.len() == self.cells(),
            forall|c: int| 0 <= c < self.cells() ==> #[trigger] r@[c] == self.chosen@[c]->Some_0,
            solution_valid(chunks@, self.chunk_size as int, self.chunks_x as int, self.chunks_y as int, r@),
    {
        let cells = self.chosen.len();
        let mut out: Vec<usize> = Vec::with_capacity(cells);
        let mut c: usize = 0;
        while c < cells
            invariant
                self.inv(chunks@),
                forall|c: int| 0 <= c < self.cells() ==> #[trigger] self.chosen@[c] is Some,
                cells == self.cells(),
                c <= cells,
                out@.len() == c,
                forall|j: int| 0 <= j < c ==> #[trigger] out@[j] == self.chosen@[j]->Some_0,
            decreases cells - c,
        {
            out.push(self.chosen[c].unwrap());
            c = c + 1;
        }
        proof {
            lemma_solved_grid_compatible(self, chunks@);
            assert forall|j: int| 0 <= j < out@.len() implies #[trigger] out@[j] < chunks@.len() by {
                assert(self.chosen@[j] is Some);
            }
            assert forall|j: int, d: int|
                0 <= j < out@.len() && 0 <= d < 4 && #[trigger] neighbor(
                    self.chunks_x as int,
                    self.chunks_y as int,
                    j,
                    d,
                ) >= 0 implies edges_match(
                chunks@[out@[j] as int].pattern@,
                chunks@[out@[neighbor(self.chunks_x as int, self.chunks_y as int, j, d)] as int].pattern@,
                self.chunk_size as int,
                d,
            ) by {
                let e = neighbor(self.chunks_x as int, self.chunks_y as int, j, d);
                lemma_neighbor_symmetric(self.chunks_x as int, self.chunks_y as int, j, d);
                assert(out@[e] == self.chosen@[e]->Some_0);
            }
        }
        out
    }
}

/// Once every cell of a consistent solver state is chosen, every chosen
/// pattern matches the chosen pattern of each of its neighbours: no
/// contradiction survives into a solved grid.
pub proof fn lemma_solved_grid_compatible(s: &Solver, chunks: Seq<MapChunk>)
    requires
        s.inv(chunks),
        forall|c: int| 0 <= c < s.cells() ==> #[trigger] s.chosen@[c] is Some,
    ensures
        forall|c: int, d: int|
            0 <= c < s.cells() && 0 <= d < 4 && #[trigger] neighbor(s.chunks_x as int, s.chunks_y as int, c, d) >= 0
                ==> edges_match(
                chunks[s.chosen@[c]->Some_0 as int].pattern@,
                chunks[s.chosen@[neighbor(s.chunks_x as int, s.chunks_y as int, c, d)]->Some_0 as int].pattern@,
                s.chunk_size as int,
                d,
            ),
{
    assert forall|c: int, d: int|
        0 <= c < s.cells() && 0 <= d < 4 && #[trigger] neighbor(s.chunks_x as int, s.chunks_y as int, c, d) >= 0
            implies edges_match(
            chunks[s.chosen@[c]->Some_0 as int].pattern@,
            chunks[s.chosen@[neighbor(s.chunks_x as int, s.chunks_y as int, c, d)]->Some_0 as int].pattern@,
            s.chunk_size as int,
            d,
        ) by {
        let e = neighbor(s.chunks_x as int, s.chunks_y as int, c, d);
        lemma_neighbor_symmetric(s.chunks_x as int, s.chunks_y as int, c, d);
        assert(s.chosen@[e] is Some);
        assert(poss(s.possible_patterns@, s.n_patterns as int, e, s.chosen@[e]->Some_0 as int));
        assert(s.chosen@[c] is Some);
    }
}

} // verus!
