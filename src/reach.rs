use vstd::arithmetic::div_mod::{lemma_fundamental_div_mod, lemma_fundamental_div_mod_converse};
use vstd::prelude::*;

use crate::map::{lemma_coords_of_index, lemma_index_in_range, passable, TileMap, TileType};

verus! {

/// Whether indices `a` and `b` of a `w` by `h` grid are 4-connected
/// neighbours: both in range, one step apart horizontally or vertically.
pub open spec fn adjacent(w: int, h: int, a: int, b: int) -> bool {
    &&& 0 <= a < w * h
    &&& 0 <= b < w * h
    &&& {
        ||| (a % w == b % w && (a / w == b / w + 1 || b / w == a / w + 1))
        ||| (a / w == b / w && (a % w == b % w + 1 || b % w == a % w + 1))
    }
}

/// Whether `p` is a walk: a non-empty sequence of tiles in which each tile
/// after the first is passable and adjacent to the one before it.
pub open spec fn is_walk(tiles: Seq<TileType>, w: int, h: int, p: Seq<int>) -> bool {
    &&& p.len() >= 1
    &&& forall|i: int|
        1 <= i < p.len() ==> adjacent(w, h, #[trigger] p[i - 1], p[i]) && 0 <= p[i] < tiles.len()
            && passable(tiles[p[i]])
}

/// Whether `t` can be reached from `s` by a walk of at most `k` steps that
/// enters only passable tiles.
pub open spec fn reach_within(tiles: Seq<TileType>, w: int, h: int, s: int, t: int, k: nat) -> bool {
    exists|p: Seq<int>|
        #[trigger] is_walk(tiles, w, h, p) && p[0] == s && p.last() == t && p.len() <= k + 1
}

/// Whether `t` can be reached from `s` through passable tiles.
pub open spec fn reachable(tiles: Seq<TileType>, w: int, h: int, s: int, t: int) -> bool {
    exists|k: nat| #[trigger] reach_within(tiles, w, h, s, t, k)
}

/// Every entry with a distance is reached by a walk of that length.
pub open spec fn field_sound(
    tiles: Seq<TileType>,
    w: int,
    h: int,
    s: int,
    dist: Seq<Option<usize>>,
) -> bool {
    forall|i: int|
        0 <= i < dist.len() && #[trigger] dist[i] is Some ==> reach_within(
            tiles,
            w,
            h,
            s,
            i,
            dist[i]->Some_0 as nat,
        )
}

/// No walk leaves the set of entries with a distance.
pub open spec fn field_closed(tiles: Seq<TileType>, w: int, h: int, dist: Seq<Option<usize>>) -> bool {
    forall|a: int, b: int|
        #![trigger dist[a], dist[b]]
        dist[a] is Some && adjacent(w, h, a, b) && passable(tiles[b]) ==> dist[b] is Some
}

/// No edge of the grid shortens a distance by more than one step.
pub open spec fn field_relaxed(tiles: Seq<TileType>, w: int, h: int, dist: Seq<Option<usize>>) -> bool {
    forall|a: int, b: int|
        #![trigger dist[a], dist[b]]
        dist[a] is Some && adjacent(w, h, a, b) && passable(tiles[b]) ==> dist[b] is Some && dist[b]->Some_0
            <= dist[a]->Some_0 + 1
}

/// `dist` is the walking-distance field from `s`: an entry holds a distance
/// exactly when its tile is reachable, and that distance is the length of a
/// shortest walk to it.
pub open spec fn is_distance_field(tiles: Seq<TileType>, w: int, h: int, s: int, dist: Seq<Option<usize>>) -> bool {
    &&& dist.len() == tiles.len()
    &&& dist[s] == Some(0usize)
    &&& field_sound(tiles, w, h, s, dist)
    &&& forall|i: int| 0 <= i < dist.len() ==> (#[trigger] dist[i] is Some <==> reachable(tiles, w, h, s, i))
    &&& forall|i: int, k: nat|
        0 <= i < dist.len() && #[trigger] reach_within(tiles, w, h, s, i, k) ==> dist[i] is Some && dist[i]->Some_0 <= k
}

/// Number of entries without a distance.
pub open spec fn count_none(s: Seq<Option<usize>>) -> nat
    decreases s.len(),
{
    if s.len() == 0 {
        0
    } else {
        count_none(s.drop_last()) + if s.last() is None {
            1nat
        } else {
            0nat
        }
    }
}

pub proof fn lemma_count_none_update(s: Seq<Option<usize>>, i: int, v: usize)
    requires
        0 <= i < s.len(),
        s[i] is None,
    ensures
        count_none(s.update(i, Some(v))) + 1 == count_none(s),
    decreases s.len(),
{
    let u = s.update(i, Some(v));
    if i == s.len() - 1 {
        assert(u.drop_last() =~= s.drop_last());
    } else {
        assert(u.drop_last() =~= s.drop_last().update(i, Some(v)));
        lemma_count_none_update(s.drop_last(), i, v);
    }
}

/// The four candidate neighbours of `a` that are in range are exactly the
/// tiles adjacent to it.
proof fn lemma_adjacent_cases(w: int, h: int, a: int, b: int)
    requires
        0 < w,
        adjacent(w, h, a, b),
    ensures
        (b == a - 1 && a % w > 0) || (b == a + 1 && a % w < w - 1) || (b == a - w && a / w > 0)
            || (b == a + w && a / w < h - 1),
{
    lemma_coords_of_index(w, h, a);
    lemma_coords_of_index(w, h, b);
    let (ax, ay, bx, by) = (a % w, a / w, b % w, b / w);
    assert(a == ay * w + ax);
    assert(b == by * w + bx);
    if ax == bx {
        if ay == by + 1 {
            assert(a == by * w + w + ax) by (nonlinear_arith)
                requires
                    a == ay * w + ax,
                    ay == by + 1,
            ;
        } else {
            assert(b == ay * w + w + ax) by (nonlinear_arith)
                requires
                    b == by * w + bx,
                    by == ay + 1,
                    ax == bx,
            ;
        }
    }
}

proof fn lemma_candidates_adjacent(w: int, h: int, a: int)
    requires
        0 < w,
        0 <= a < w * h,
    ensures
        a % w > 0 ==> adjacent(w, h, a, a - 1),
        a % w < w - 1 ==> adjacent(w, h, a, a + 1),
        a / w > 0 ==> adjacent(w, h, a, a - w),
        a / w < h - 1 ==> adjacent(w, h, a, a + w),
{
    lemma_coords_of_index(w, h, a);
    let (x, y) = (a % w, a / w);
    if x > 0 {
        lemma_fundamental_div_mod_converse(a - 1, w, y, x - 1);
    }
    if x < w - 1 {
        lemma_index_in_range(w, h, x + 1, y);
        lemma_fundamental_div_mod_converse(a + 1, w, y, x + 1);
    }
    if y > 0 {
        assert(a - w == (y - 1) * w + x) by (nonlinear_arith)
            requires
                a == y * w + x,
        ;
        lemma_fundamental_div_mod_converse(a - w, w, y - 1, x);
    }
    if y < h - 1 {
        assert(a + w == (y + 1) * w + x) by (nonlinear_arith)
            requires
                a == y * w + x,
        ;
        assert(y + 1 < h);
        assert((y + 1) * w + x < w * h) by (nonlinear_arith)
            requires
                y + 1 < h,
                0 <= x < w,
        ;
        lemma_fundamental_div_mod_converse(a + w, w, y + 1, x);
    }
}

pub proof fn lemma_walk_step(tiles: Seq<TileType>, w: int, h: int, p: Seq<int>, i: int)
    requires
        is_walk(tiles, w, h, p),
        1 <= i < p.len(),
    ensures
        adjacent(w, h, p[i - 1], p[i]),
        0 <= p[i] < tiles.len(),
        passable(tiles[p[i]]),
{
}

pub proof fn lemma_walk_intro(tiles: Seq<TileType>, w: int, h: int, p: Seq<int>)
    requires
        p.len() >= 1,
        forall|i: int|
            1 <= i < p.len() ==> adjacent(w, h, #[trigger] p[i - 1], p[i]) && 0 <= p[i] < tiles.len()
                && passable(tiles[p[i]]),
    ensures
        is_walk(tiles, w, h, p),
{
}

proof fn lemma_reach_start(tiles: Seq<TileType>, w: int, h: int, s: int)
    ensures
        reach_within(tiles, w, h, s, s, 0),
{
    let p = seq![s];
    assert(is_walk(tiles, w, h, p));
}

proof fn lemma_reach_step(tiles: Seq<TileType>, w: int, h: int, s: int, a: int, b: int, k: nat)
    requires
        reach_within(tiles, w, h, s, a, k),
        adjacent(w, h, a, b),
        0 <= b < tiles.len(),
        passable(tiles[b]),
    ensures
        reach_within(tiles, w, h, s, b, k + 1),
{
    let p = choose|p: Seq<int>|
        #[trigger] is_walk(tiles, w, h, p) && p[0] == s && p.last() == a && p.len() <= k + 1;
    let q = p.push(b);
    assert forall|i: int| 1 <= i < q.len() implies adjacent(w, h, #[trigger] q[i - 1], q[i]) && 0 <= q[i] < tiles.len()
        && passable(tiles[q[i]]) by {
        if i < p.len() {
            assert(p[i - 1] == q[i - 1]);
        }
    }
    assert(is_walk(tiles, w, h, q));
}

/// A closed field with a distance at `s` has one at every tile reachable
/// from `s`.
proof fn lemma_closed_complete(
    tiles: Seq<TileType>,
    w: int,
    h: int,
    s: int,
    dist: Seq<Option<usize>>,
    t: int,
    k: nat,
)
    requires
        dist.len() == tiles.len(),
        0 <= s < dist.len(),
        dist[s] is Some,
        field_closed(tiles, w, h, dist),
        reach_within(tiles, w, h, s, t, k),
    ensures
        dist[t] is Some,
{
    let p = choose|p: Seq<int>|
        #[trigger] is_walk(tiles, w, h, p) && p[0] == s && p.last() == t && p.len() <= k + 1;
    lemma_walk_in_field(tiles, w, h, dist, p, p.len() - 1);
}

proof fn lemma_walk_in_field(tiles: Seq<TileType>, w: int, h: int, dist: Seq<Option<usize>>, p: Seq<int>, i: int)
    requires
        is_walk(tiles, w, h, p),
        dist[p[0]] is Some,
        field_closed(tiles, w, h, dist),
        0 <= i < p.len(),
    ensures
        dist[p[i]] is Some,
    decreases i,
{
    if i > 0 {
        lemma_walk_in_field(tiles, w, h, dist, p, i - 1);
        assert(adjacent(w, h, p[i - 1], p[i]));
        assert(dist[p[i - 1]] is Some && dist[p[i]] is Some);
    }
}

proof fn lemma_walk_bound(tiles: Seq<TileType>, w: int, h: int, dist: Seq<Option<usize>>, p: Seq<int>, i: int)
    requires
        is_walk(tiles, w, h, p),
        dist[p[0]] == Some(0usize),
        field_relaxed(tiles, w, h, dist),
        0 <= i < p.len(),
    ensures
        dist[p[i]] is Some,
        dist[p[i]]->Some_0 <= i,
    decreases i,
{
    if i > 0 {
        lemma_walk_bound(tiles, w, h, dist, p, i - 1);
        assert(adjacent(w, h, p[i - 1], p[i]));
        assert(dist[p[i - 1]] is Some && dist[p[i]] is Some);
    }
}

/// Whether the BFS queue state is consistent: each queued tile has a
/// distance no larger than its queue position, every tile with a distance is
/// queued, and the first `head` queued tiles have all passable neighbours
/// discovered.
#[verifier::opaque]
spec fn bfs_inv(
    tiles: Seq<TileType>,
    w: int,
    h: int,
    s: int,
    dist: Seq<Option<usize>>,
    q: Seq<usize>,
    head: int,
) -> bool {
    &&& dist.len() == tiles.len()
    &&& tiles.len() == w * h
    &&& 0 <= head <= q.len()
    &&& field_sound(tiles, w, h, s, dist)
    &&& forall|j: int|
        0 <= j < q.len() ==> #[trigger] q[j] < dist.len() && dist[q[j] as int] is Some
            && dist[q[j] as int]->Some_0 <= j
    &&& forall|i: int|
        0 <= i < dist.len() && #[trigger] dist[i] is Some ==> exists|j: int|
            0 <= j < q.len() && #[trigger] q[j] == i
    &&& forall|j1: int, j2: int|
        0 <= j1 < j2 < q.len() ==> dist[(#[trigger] q[j1]) as int]->Some_0 <= dist[(#[trigger] q[j2]) as int]->Some_0
    &&& head < q.len() ==> dist[q[q.len() - 1] as int]->Some_0 <= dist[q[head] as int]->Some_0 + 1
    &&& forall|j: int, b: int|
        #![trigger q[j], dist[b]]
        0 <= j < head && adjacent(w, h, q[j] as int, b) && passable(tiles[b]) ==> dist[b] is Some
            && dist[b]->Some_0 <= dist[q[j] as int]->Some_0 + 1
}

/// Gives `b` distance `da + 1` and queues it when it is passable and has no
/// distance yet.
fn visit(
    tiles: &Vec<TileType>,
    w: Ghost<int>,
    h: Ghost<int>,
    s: Ghost<int>,
    dist: &mut Vec<Option<usize>>,
    q: &mut Vec<usize>,
    head: usize,
    a: usize,
    da: usize,
    b: usize,
)
    requires
        bfs_inv(tiles@, w@, h@, s@, old(dist)@, old(q)@, head as int),
        head < old(q)@.len(),
        a == old(q)@[head as int],
        old(dist)@[a as int] == Some(da),
        adjacent(w@, h@, a as int, b as int),
        b < tiles@.len(),
        head < usize::MAX,
    ensures
        bfs_inv(tiles@, w@, h@, s@, final(dist)@, final(q)@, head as int),
        head < final(q)@.len(),
        a == final(q)@[head as int],
        final(dist)@[a as int] == Some(da),
        passable(tiles@[b as int]) ==> final(dist)@[b as int] is Some && final(dist)@[b as int]->Some_0 <= da + 1,
        forall|i: int| 0 <= i < old(dist)@.len() && #[trigger] old(dist)@[i] is Some ==> final(dist)@[i] == old(dist)@[i],
        count_none(final(dist)@) + final(q)@.len() == count_none(old(dist)@) + old(q)@.len(),
        final(dist)@.len() == old(dist)@.len(),
        old(q)@.len() <= final(q)@.len(),
        forall|j: int| 0 <= j < old(q)@.len() ==> final(q)@[j] == old(q)@[j],
{
    proof {
        reveal(bfs_inv);
    }
    if tiles[b] != TileType::Wall && dist[b].is_none() {
        proof {
            assert(da <= head);
            lemma_count_none_update(dist@, b as int, (da + 1) as usize);
            assert(reach_within(tiles@, w@, h@, s@, a as int, da as nat));
            lemma_reach_step(tiles@, w@, h@, s@, a as int, b as int, da as nat);
        }
        let ghost d0 = dist@;
        let ghost q0 = q@;
        dist.set(b, Some(da + 1));
        q.push(b);
        proof {
            let d1 = dist@;
            let q1 = q@;
            assert forall|i: int| 0 <= i < d1.len() && #[trigger] d1[i] is Some implies exists|j: int|
                0 <= j < q1.len() && #[trigger] q1[j] == i by {
                if i == b {
                    assert(q1[q0.len() as int] == i);
                } else {
                    assert(d0[i] is Some);
                    let j = choose|j: int| 0 <= j < q0.len() && #[trigger] q0[j] == i;
                    assert(q1[j] == i);
                }
            }
            assert forall|j: int, c: int|
                #![trigger q1[j], d1[c]]
                0 <= j < head && adjacent(w@, h@, q1[j] as int, c) && passable(tiles@[c]) implies d1[c] is Some by {
                assert(q0[j] == q1[j]);
                if c != b {
                    assert(d0[c] is Some);
                    assert(d1[c] == d0[c]);
                }
            }
            assert forall|i: int| 0 <= i < d1.len() && #[trigger] d1[i] is Some implies reach_within(
                tiles@, w@, h@, s@, i, d1[i]->Some_0 as nat) by {
                if i != b {
                    assert(d0[i] is Some);
                }
            }
            assert forall|j: int, c: int|
                #![trigger q1[j], d1[c]]
                0 <= j < head && adjacent(w@, h@, q1[j] as int, c) && passable(tiles@[c]) implies d1[c] is Some
                    && d1[c]->Some_0 <= d1[q1[j] as int]->Some_0 + 1 by {
                assert(q0[j] == q1[j]);
                assert(d0[c] is Some);
                assert(d0[q0[j] as int] is Some);
            }
            assert forall|j1: int, j2: int|
                0 <= j1 < j2 < q1.len() implies d1[(#[trigger] q1[j1]) as int]->Some_0 <= d1[(#[trigger] q1[j2]) as int]->Some_0 by {
                assert(q1[j1] == q0[j1]);
                assert(d0[q0[j1] as int] is Some);
                if j2 < q0.len() {
                    assert(q1[j2] == q0[j2]);
                    assert(d0[q0[j2] as int] is Some);
                    assert(d0[q0[j1] as int]->Some_0 <= d0[q0[j2] as int]->Some_0);
                } else {
                    let last = q0.len() - 1;
                    if j1 < last {
                        assert(d0[q0[j1] as int]->Some_0 <= d0[q0[last] as int]->Some_0);
                    }
                }
            }
        }
    } else {
        proof {
            if passable(tiles@[b as int]) {
                let j = choose|j: int| 0 <= j < q@.len() && #[trigger] q@[j] == b;
                let last = q@.len() - 1;
                if j < last {
                    assert(dist@[q@[j] as int]->Some_0 <= dist@[q@[last] as int]->Some_0);
                }
            }
        }
    }
}

/// Discovers the neighbours of the tile at queue position `head`.
fn process_head(
    tiles: &Vec<TileType>,
    w: usize,
    h: usize,
    wi: Ghost<int>,
    hi: Ghost<int>,
    s: Ghost<int>,
    dist: &mut Vec<Option<usize>>,
    q: &mut Vec<usize>,
    head: usize,
)
    requires
        bfs_inv(tiles@, wi@, hi@, s@, old(dist)@, old(q)@, head as int),
        head < old(q)@.len(),
        head < usize::MAX,
        w as int == wi@,
        h as int == hi@,
        w > 0,
        wi@ * hi@ <= usize::MAX,
    ensures
        bfs_inv(tiles@, wi@, hi@, s@, final(dist)@, final(q)@, head + 1),
        final(dist)@.len() == old(dist)@.len(),
        forall|i: int| 0 <= i < old(dist)@.len() && #[trigger] old(dist)@[i] is Some ==> final(dist)@[i] == old(dist)@[i],
        count_none(final(dist)@) + final(q)@.len() == count_none(old(dist)@) + old(q)@.len(),
{
    proof {
        lemma_head_facts(tiles@, wi@, hi@, s@, dist@, q@, head as int);
    }
    let a = q[head];
    let da = dist[a].unwrap();
    proof {
        lemma_candidates_adjacent(wi@, hi@, a as int);
        lemma_coords_of_index(wi@, hi@, a as int);
        if (a as int) % wi@ + 1 < wi@ {
            lemma_index_in_range(wi@, hi@, (a as int) % wi@ + 1, (a as int) / wi@);
        }
    }
    let ghost d0 = dist@;
    let ghost q0 = q@;
    let x = a % w;
    let y = a / w;
    if x > 0 {
        visit(tiles, wi, hi, s, dist, q, head, a, da, a - 1);
    }
    let ghost d1 = dist@;
    if x + 1 < w {
        visit(tiles, wi, hi, s, dist, q, head, a, da, a + 1);
    }
    let ghost d2 = dist@;
    if y > 0 {
        visit(tiles, wi, hi, s, dist, q, head, a, da, a - w);
    }
    let ghost d3 = dist@;
    if y + 1 < h {
        visit(tiles, wi, hi, s, dist, q, head, a, da, a + w);
    }
    proof {
        let d4 = dist@;
        let q4 = q@;
        let ai = a as int;
        assert forall|c: int| 0 <= c < d0.len() && adjacent(wi@, hi@, ai, c) && passable(tiles@[c]) implies d4[c] is Some
            && d4[c]->Some_0 <= da + 1 by {
            lemma_adjacent_cases(wi@, hi@, ai, c);
            if c == ai - 1 && ai % wi@ > 0 {
                assert(d1[c] is Some);
                assert(d2[c] == d1[c]);
                assert(d3[c] == d2[c]);
                assert(d4[c] == d3[c]);
            } else if c == ai + 1 && ai % wi@ < wi@ - 1 {
                assert(d2[c] is Some);
                assert(d3[c] == d2[c]);
                assert(d4[c] == d3[c]);
            } else if c == ai - wi@ && ai / wi@ > 0 {
                assert(d3[c] is Some);
                assert(d4[c] == d3[c]);
            }
        }
        assert forall|i: int| 0 <= i < d0.len() && #[trigger] d0[i] is Some implies d4[i] == d0[i] by {
            assert(d1[i] == d0[i]);
            assert(d2[i] == d1[i]);
            assert(d3[i] == d2[i]);
        }
        lemma_advance_head(tiles@, wi@, hi@, s@, d4, q4, head as int, ai, da as int);
    }
}

proof fn lemma_head_facts(
    tiles: Seq<TileType>,
    w: int,
    h: int,
    s: int,
    dist: Seq<Option<usize>>,
    q: Seq<usize>,
    head: int,
)
    requires
        bfs_inv(tiles, w, h, s, dist, q, head),
        0 <= head < q.len(),
    ensures
        q[head] < dist.len(),
        dist[q[head] as int] is Some,
        dist[q[head] as int]->Some_0 <= head,
        dist.len() == tiles.len(),
        tiles.len() == w * h,
{
    reveal(bfs_inv);
}

proof fn lemma_advance_head(
    tiles: Seq<TileType>,
    w: int,
    h: int,
    s: int,
    dist: Seq<Option<usize>>,
    q: Seq<usize>,
    head: int,
    a: int,
    da: int,
)
    requires
        bfs_inv(tiles, w, h, s, dist, q, head),
        0 <= head < q.len(),
        q[head] == a,
        dist[a] is Some,
        dist[a]->Some_0 == da,
        forall|c: int| 0 <= c < dist.len() && adjacent(w, h, a, c) && passable(tiles[c]) ==> #[trigger] dist[c] is Some
            && dist[c]->Some_0 <= da + 1,
    ensures
        bfs_inv(tiles, w, h, s, dist, q, head + 1),
{
    reveal(bfs_inv);
    assert forall|j: int, b: int|
        #![trigger q[j], dist[b]]
        0 <= j < head + 1 && adjacent(w, h, q[j] as int, b) && passable(tiles[b]) implies dist[b] is Some
            && dist[b]->Some_0 <= dist[q[j] as int]->Some_0 + 1 by {
        if j == head {
            assert(dist[b] is Some);
        }
    }
    if head + 1 < q.len() {
        assert(dist[q[head] as int]->Some_0 <= dist[q[head + 1] as int]->Some_0);
    }
}

/// Breadth-first distance field from `start` over 4-connected passable
/// tiles: an entry holds a distance exactly when its tile is reachable from
/// `start`, and that distance is the length of a shortest walk reaching it.
pub fn distance_field(map: &TileMap, start: usize) -> (dist: Vec<Option<usize>>)
    requires
        map.wf(),
        start < map.tiles@.len(),
    ensures
        is_distance_field(map.tiles@, map.width as int, map.height as int, start as int, dist@),
{
    let n = map.tiles.len();
    let w = map.width as usize;
    let ghost wi = map.width as int;
    let ghost hi = map.height as int;
    let ghost tiles = map.tiles@;
    let mut dist: Vec<Option<usize>> = vec![None; n];
    dist.set(start, Some(0));
    let mut q: Vec<usize> = Vec::new();
    q.push(start);
    let mut head: usize = 0;
    proof {
        reveal(bfs_inv);
        lemma_reach_start(tiles, wi, hi, start as int);
        assert forall|i: int| 0 <= i < dist@.len() && #[trigger] dist@[i] is Some implies exists|j: int|
            0 <= j < q@.len() && #[trigger] q@[j] == i by {
            assert(q@[0] == i);
        }
    }
    while head < q.len()
        invariant
            map.wf(),
            n == tiles.len(),
            tiles == map.tiles@,
            wi == map.width,
            hi == map.height,
            w as int == wi,
            start < n,
            dist@.len() == n,
            dist@[start as int] == Some(0usize),
            bfs_inv(tiles, wi, hi, start as int, dist@, q@, head as int),
        decreases count_none(dist@) + q@.len() - head,
    {
        let ghost before = dist@;
        process_head(&map.tiles, w, map.height as usize, Ghost(wi), Ghost(hi), Ghost(start as int), &mut dist, &mut q, head);
        assert(before[start as int] is Some);
        head = head + 1;
    }
    proof {
        reveal(bfs_inv);
        let d = dist@;
        assert forall|a: int, b: int|
            #![trigger d[a], d[b]]
            d[a] is Some && adjacent(wi, hi, a, b) && passable(tiles[b]) implies d[b] is Some by {
            let j = choose|j: int| 0 <= j < q@.len() && #[trigger] q@[j] == a;
            assert(q@[j] == a);
        }
        assert forall|i: int| 0 <= i < d.len() implies (#[trigger] d[i] is Some <==> reachable(
            tiles, wi, hi, start as int, i)) by {
            if d[i] is Some {
                assert(reach_within(tiles, wi, hi, start as int, i, d[i]->Some_0 as nat));
            }
            if reachable(tiles, wi, hi, start as int, i) {
                let k = choose|k: nat| #[trigger] reach_within(tiles, wi, hi, start as int, i, k);
                lemma_closed_complete(tiles, wi, hi, start as int, d, i, k);
            }
        }
        assert forall|a: int, b: int|
            #![trigger d[a], d[b]]
            d[a] is Some && adjacent(wi, hi, a, b) && passable(tiles[b]) implies d[b] is Some && d[b]->Some_0
                <= d[a]->Some_0 + 1 by {
            let j = choose|j: int| 0 <= j < q@.len() && #[trigger] q@[j] == a;
            assert(q@[j] == a);
        }
        assert forall|i: int, k: nat|
            0 <= i < d.len() && #[trigger] reach_within(tiles, wi, hi, start as int, i, k) implies d[i] is Some
                && d[i]->Some_0 <= k by {
            let p = choose|p: Seq<int>|
                #[trigger] is_walk(tiles, wi, hi, p) && p[0] == start as int && p.last() == i && p.len() <= k + 1;
            lemma_walk_bound(tiles, wi, hi, d, p, p.len() - 1);
        }
    }
    dist
}

} // verus!
