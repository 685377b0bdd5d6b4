use bracket_random::prelude::RandomNumberGenerator;
use vstd::prelude::*;

use crate::map::{TileMap, TileType};
use crate::random::roll;

verus! {

pub open spec fn abs_diff(a: int, b: int) -> int {
    if a >= b {
        a - b
    } else {
        b - a
    }
}

/// Chebyshev distance between tile indices `a` and `b` of a grid `w` wide.
pub open spec fn chebyshev(w: int, a: int, b: int) -> int {
    let dx = abs_diff(a % w, b % w);
    let dy = abs_diff(a / w, b / w);
    if dx >= dy {
        dx
    } else {
        dy
    }
}

/// The first of `seeds[0 .. k]` closest to tile `t`.
pub open spec fn nearest_upto(w: int, seeds: Seq<usize>, t: int, k: nat) -> int
    decreases k,
{
    if k <= 1 {
        0
    } else {
        let b = nearest_upto(w, seeds, t, (k - 1) as nat);
        if chebyshev(w, seeds[k - 1] as int, t) < chebyshev(w, seeds[b] as int, t) {
            k - 1
        } else {
            b
        }
    }
}

/// The region of tile `t`: the first seed at least as close to it as any
/// other.
pub open spec fn nearest_seed(w: int, seeds: Seq<usize>, t: int) -> int {
    nearest_upto(w, seeds, t, seeds.len())
}

/// Floor tiles of `tiles[0 .. u]` whose region is `k`, in increasing order.
pub open spec fn region_prefix(tiles: Seq<TileType>, w: int, seeds: Seq<usize>, k: int, u: nat) -> Seq<usize>
    decreases u,
{
    if u == 0 {
        Seq::empty()
    } else {
        let p = region_prefix(tiles, w, seeds, k, (u - 1) as nat);
        if tiles[u - 1] == TileType::Floor && nearest_seed(w, seeds, u - 1) == k {
            p.push((u - 1) as usize)
        } else {
            p
        }
    }
}

/// All Floor tiles whose region is `k`, in increasing order.
pub open spec fn region_tiles(tiles: Seq<TileType>, w: int, seeds: Seq<usize>, k: int) -> Seq<usize> {
    region_prefix(tiles, w, seeds, k, tiles.len())
}

/// `regions` lists, in increasing order of region, every region that holds
/// at least one Floor tile, each with all its Floor tiles in increasing
/// order.
pub open spec fn is_voronoi_partition(
    tiles: Seq<TileType>,
    w: int,
    seeds: Seq<usize>,
    regions: Seq<(usize, Seq<usize>)>,
) -> bool {
    &&& forall|j: int|
        0 <= j < regions.len() ==> {
            &&& (#[trigger] regions[j]).0 < seeds.len()
            &&& regions[j].1 == region_tiles(tiles, w, seeds, regions[j].0 as int)
            &&& regions[j].1.len() > 0
        }
    &&& forall|j1: int, j2: int|
        0 <= j1 < j2 < regions.len() ==> (#[trigger] regions[j1]).0 < (#[trigger] regions[j2]).0
    &&& forall|k: int|
        0 <= k < seeds.len() && (#[trigger] region_tiles(tiles, w, seeds, k)).len() > 0 ==> exists|j: int|
            0 <= j < regions.len() && (#[trigger] regions[j]).0 == k
}

/// Spec view of a region list.
pub open spec fn regions_view(r: Seq<(usize, Vec<usize>)>) -> Seq<(usize, Seq<usize>)> {
    r.map_values(|e: (usize, Vec<usize>)| (e.0, e.1@))
}

proof fn lemma_region_prefix_members(tiles: Seq<TileType>, w: int, seeds: Seq<usize>, k: int, u: nat)
    requires
        u <= tiles.len(),
        tiles.len() <= usize::MAX,
    ensures
        forall|i: int|
            0 <= i < region_prefix(tiles, w, seeds, k, u).len() ==> {
                let t = #[trigger] region_prefix(tiles, w, seeds, k, u)[i] as int;
                &&& 0 <= t < u
                &&& tiles[t] == TileType::Floor
                &&& nearest_seed(w, seeds, t) == k
            },
        forall|i1: int, i2: int|
            0 <= i1 < i2 < region_prefix(tiles, w, seeds, k, u).len() ==> #[trigger] region_prefix(
                tiles,
                w,
                seeds,
                k,
                u,
            )[i1] < #[trigger] region_prefix(tiles, w, seeds, k, u)[i2],
        forall|t: int|
            0 <= t < u && tiles[t] == TileType::Floor && nearest_seed(w, seeds, t) == k ==> exists|i: int|
                0 <= i < region_prefix(tiles, w, seeds, k, u).len() && #[trigger] region_prefix(
                    tiles,
                    w,
                    seeds,
                    k,
                    u,
                )[i] == t,
    decreases u,
{
    if u > 0 {
        let u1 = (u - 1) as nat;
        lemma_region_prefix_members(tiles, w, seeds, k, u1);
        let p = region_prefix(tiles, w, seeds, k, u1);
        let q = region_prefix(tiles, w, seeds, k, u);
        assert forall|t: int|
            0 <= t < u && tiles[t] == TileType::Floor && nearest_seed(w, seeds, t) == k implies exists|i: int|
                0 <= i < q.len() && #[trigger] q[i] == t by {
            if t < u1 {
                let i = choose|i: int| 0 <= i < p.len() && #[trigger] p[i] == t;
                assert(q[i] == p[i]);
            } else {
                assert(q == p.push(u1 as usize));
                assert(q[q.len() - 1] == t);
            }
        }
    }
}

/// Each Floor tile lies in exactly one listed region, and a listed tile is
/// always a Floor tile: the regions partition the Floor tiles.
pub proof fn lemma_voronoi_partition(
    tiles: Seq<TileType>,
    w: int,
    seeds: Seq<usize>,
    regions: Seq<(usize, Seq<usize>)>,
)
    requires
        seeds.len() > 0,
        tiles.len() <= usize::MAX,
        is_voronoi_partition(tiles, w, seeds, regions),
    ensures
        forall|j: int, i: int|
            0 <= j < regions.len() && 0 <= i < regions[j].1.len() ==> {
                let t = #[trigger] regions[j].1[i] as int;
                0 <= t < tiles.len() && tiles[t] == TileType::Floor
            },
        forall|t: int|
            0 <= t < tiles.len() && tiles[t] == TileType::Floor ==> exists|j: int, i: int|
                0 <= j < regions.len() && 0 <= i < regions[j].1.len() && #[trigger] regions[j].1[i] == t,
        forall|j1: int, i1: int, j2: int, i2: int|
            0 <= j1 < regions.len() && 0 <= i1 < regions[j1].1.len() && 0 <= j2 < regions.len() && 0 <= i2
                < regions[j2].1.len() && #[trigger] regions[j1].1[i1] == #[trigger] regions[j2].1[i2]
                ==> j1 == j2 && i1 == i2,
{
    assert forall|j: int, i: int| 0 <= j < regions.len() && 0 <= i < regions[j].1.len() implies {
        let t = #[trigger] regions[j].1[i] as int;
        0 <= t < tiles.len() && tiles[t] == TileType::Floor
    } by {
        lemma_region_prefix_members(tiles, w, seeds, regions[j].0 as int, tiles.len());
        assert(regions[j].1 == region_tiles(tiles, w, seeds, regions[j].0 as int));
    }
    assert forall|t: int| 0 <= t < tiles.len() && tiles[t] == TileType::Floor implies exists|j: int, i: int|
        0 <= j < regions.len() && 0 <= i < regions[j].1.len() && #[trigger] regions[j].1[i] == t by {
        let k = nearest_seed(w, seeds, t);
        lemma_nearest_in_range(w, seeds, t, seeds.len());
        lemma_region_prefix_members(tiles, w, seeds, k, tiles.len());
        let rt = region_tiles(tiles, w, seeds, k);
        let i = choose|i: int| 0 <= i < rt.len() && #[trigger] rt[i] == t;
        let j = choose|j: int| 0 <= j < regions.len() && (#[trigger] regions[j]).0 == k;
        assert(regions[j].1[i] == t);
    }
    assert forall|j1: int, i1: int, j2: int, i2: int|
        0 <= j1 < regions.len() && 0 <= i1 < regions[j1].1.len() && 0 <= j2 < regions.len() && 0 <= i2
            < regions[j2].1.len() && #[trigger] regions[j1].1[i1] == #[trigger] regions[j2].1[i2]
            implies j1 == j2 && i1 == i2 by {
        let k1 = regions[j1].0 as int;
        let k2 = regions[j2].0 as int;
        lemma_region_prefix_members(tiles, w, seeds, k1, tiles.len());
        lemma_region_prefix_members(tiles, w, seeds, k2, tiles.len());
        let t = regions[j1].1[i1] as int;
        assert(nearest_seed(w, seeds, t) == k1);
        assert(nearest_seed(w, seeds, t) == k2);
        if j1 < j2 {
            assert(regions[j1].0 < regions[j2].0);
        } else if j2 < j1 {
            assert(regions[j2].0 < regions[j1].0);
        }
        assert(j1 == j2);
        let s = regions[j1].1;
        if i1 < i2 {
            assert(s[i1] < s[i2]);
        } else if i2 < i1 {
            assert(s[i2] < s[i1]);
        }
    }
}

proof fn lemma_nearest_in_range(w: int, seeds: Seq<usize>, t: int, k: nat)
    requires
        1 <= k <= seeds.len(),
    ensures
        0 <= nearest_upto(w, seeds, t, k) < k,
    decreases k,
{
    if k > 1 {
        lemma_nearest_in_range(w, seeds, t, (k - 1) as nat);
    }
}

fn chebyshev_exec(w: usize, a: usize, b: usize) -> (r: usize)
    requires
        w > 0,
    ensures
        r as int == chebyshev(w as int, a as int, b as int),
{
    let (ax, ay, bx, by) = (a % w, a / w, b % w, b / w);
    let dx = if ax >= bx {
        ax - bx
    } else {
        bx - ax
    };
    let dy = if ay >= by {
        ay - by
    } else {
        by - ay
    };
    if dx >= dy {
        dx
    } else {
        dy
    }
}

/// Index into `seeds` of the region of tile `t`.
pub fn nearest_seed_exec(w: usize, seeds: &Vec<usize>, t: usize) -> (r: usize)
    requires
        w > 0,
        seeds@.len() > 0,
    ensures
        r as int == nearest_seed(w as int, seeds@, t as int),
        r < seeds@.len(),
{
    let mut best: usize = 0;
    let mut best_d = chebyshev_exec(w, seeds[0], t);
    let mut k: usize = 1;
    while k < seeds.len()
        invariant
            w > 0,
            1 <= k <= seeds@.len(),
            best as int == nearest_upto(w as int, seeds@, t as int, k as nat),
            best < k,
            best_d as int == chebyshev(w as int, seeds@[best as int] as int, t as int),
        decreases seeds@.len() - k,
    {
        let d = chebyshev_exec(w, seeds[k], t);
        if d < best_d {
            best = k;
            best_d = d;
        }
        k = k + 1;
    }
    best
}

/// Floor tiles of `tiles` whose region is `k`, in increasing order.
fn collect_region(tiles: &Vec<TileType>, w: usize, seeds: &Vec<usize>, owner: &Vec<usize>, k: usize) -> (r: Vec<usize>)
    requires
        w > 0,
        seeds@.len() > 0,
        owner@.len() == tiles@.len(),
        forall|t: int|
            0 <= t < tiles@.len() && tiles@[t] == TileType::Floor ==> #[trigger] owner@[t] as int
                == nearest_seed(w as int, seeds@, t),
    ensures
        r@ == region_tiles(tiles@, w as int, seeds@, k as int),
{
    let mut out: Vec<usize> = Vec::new();
    let mut t: usize = 0;
    while t < tiles.len()
        invariant
            owner@.len() == tiles@.len(),
            t <= tiles@.len(),
            forall|t: int|
                0 <= t < tiles@.len() && tiles@[t] == TileType::Floor ==> #[trigger] owner@[t] as int
                    == nearest_seed(w as int, seeds@, t),
            out@ == region_prefix(tiles@, w as int, seeds@, k as int, t as nat),
        decreases tiles@.len() - t,
    {
        if tiles[t] == TileType::Floor && owner[t] == k {
            out.push(t);
        }
        t = t + 1;
    }
    out
}

/// Partitions the Floor tiles of `map` into regions by nearest seed tile
/// (Chebyshev distance, ties to the earlier seed). Regions without Floor
/// tiles are left out.
pub fn voronoi_regions_from_seeds(map: &TileMap, seeds: &Vec<usize>) -> (r: Vec<(usize, Vec<usize>)>)
    requires
        map.wf(),
        map.width > 0,
        seeds@.len() > 0,
    ensures
        is_voronoi_partition(map.tiles@, map.width as int, seeds@, regions_view(r@)),
{
    let w = map.width as usize;
    let n = map.tiles.len();
    let mut owner: Vec<usize> = Vec::with_capacity(n);
    let mut t: usize = 0;
    while t < n
        invariant
            w > 0,
            seeds@.len() > 0,
            n == map.tiles@.len(),
            t <= n,
            owner@.len() == t,
            forall|i: int| 0 <= i < t ==> #[trigger] owner@[i] as int == nearest_seed(w as int, seeds@, i),
        decreases n - t,
    {
        let k = nearest_seed_exec(w, seeds, t);
        owner.push(k);
        t = t + 1;
    }
    let mut regions: Vec<(usize, Vec<usize>)> = Vec::new();
    let mut k: usize = 0;
    while k < seeds.len()
        invariant
            w > 0,
            w == map.width,
            seeds@.len() > 0,
            k <= seeds@.len(),
            owner@.len() == map.tiles@.len(),
            forall|t: int|
                0 <= t < map.tiles@.len() && map.tiles@[t] == TileType::Floor ==> #[trigger] owner@[t] as int
                    == nearest_seed(w as int, seeds@, t),
            forall|j: int|
                0 <= j < regions@.len() ==> {
                    &&& (#[trigger] regions@[j]).0 < k
                    &&& regions@[j].1@ == region_tiles(map.tiles@, w as int, seeds@, regions@[j].0 as int)
                    &&& regions@[j].1@.len() > 0
                },
            forall|j1: int, j2: int|
                0 <= j1 < j2 < regions@.len() ==> (#[trigger] regions@[j1]).0 < (#[trigger] regions@[j2]).0,
            forall|kk: int|
                0 <= kk < k && (#[trigger] region_tiles(map.tiles@, w as int, seeds@, kk)).len() > 0
                    ==> exists|j: int| 0 <= j < regions@.len() && (#[trigger] regions@[j]).0 == kk,
        decreases seeds@.len() - k,
    {
        let list = collect_region(&map.tiles, w, seeds, &owner, k);
        if list.len() > 0 {
            let ghost old_regions = regions@;
            regions.push((k, list));
            proof {
                assert forall|kk: int|
                    0 <= kk < k + 1 && (#[trigger] region_tiles(map.tiles@, w as int, seeds@, kk)).len() > 0
                        implies exists|j: int| 0 <= j < regions@.len() && (#[trigger] regions@[j]).0 == kk by {
                    if kk < k {
                        let j = choose|j: int| 0 <= j < old_regions.len() && (#[trigger] old_regions[j]).0 == kk;
                        assert(regions@[j] == old_regions[j]);
                    } else {
                        assert(regions@[regions@.len() - 1].0 == kk);
                    }
                }
            }
        }
        k = k + 1;
    }
    proof {
        let rv = regions_view(regions@);
        assert forall|j: int| 0 <= j < rv.len() implies #[trigger] rv[j] == (regions@[j].0, regions@[j].1@) by {}
        assert forall|j1: int, j2: int| 0 <= j1 < j2 < rv.len() implies (#[trigger] rv[j1]).0 < (#[trigger] rv[j2]).0 by {
            assert(regions@[j1].0 < regions@[j2].0);
        }
        assert forall|kk: int|
            0 <= kk < seeds@.len() && (#[trigger] region_tiles(map.tiles@, w as int, seeds@, kk)).len() > 0 implies exists|j: int|
                0 <= j < rv.len() && (#[trigger] rv[j]).0 == kk by {
            let j = choose|j: int| 0 <= j < regions@.len() && (#[trigger] regions@[j]).0 == kk;
            assert(rv[j].0 == kk);
        }
    }
    regions
}

/// Partitions the Floor tiles of `map` into at most `seed_count` regions
/// around seed tiles drawn at random among its Floor tiles. A map without
/// Floor tiles, or a seed count of zero, gives no regions.
pub fn voronoi_regions(map: &TileMap, seed_count: usize, rng: &mut RandomNumberGenerator) -> (r: Vec<(usize, Vec<usize>)>)
    requires
        map.wf(),
        map.width > 0,
        map.tiles@.len() < i32::MAX,
    ensures
        seed_count > 0 && (exists|t: int| 0 <= t < map.tiles@.len() && map.tiles@[t] == TileType::Floor)
            ==> exists|seeds: Seq<usize>|
            seeds.len() == seed_count && is_voronoi_partition(map.tiles@, map.width as int, seeds, regions_view(r@))
                && (forall|i: int| 0 <= i < seeds.len() ==> map.tiles@[#[trigger] seeds[i] as int] == TileType::Floor),
        seed_count == 0 || (forall|t: int| 0 <= t < map.tiles@.len() ==> map.tiles@[t] != TileType::Floor)
            ==> r@.len() == 0,
{
    let mut floors: Vec<usize> = Vec::new();
    let mut t: usize = 0;
    while t < map.tiles.len()
        invariant
            t <= map.tiles@.len(),
            forall|i: int| 0 <= i < floors@.len() ==> #[trigger] floors@[i] < map.tiles@.len() && map.tiles@[floors@[i] as int] == TileType::Floor,
            forall|i: int| 0 <= i < t && map.tiles@[i] == TileType::Floor ==> floors@.len() > 0,
            floors@.len() <= t,
        decreases map.tiles@.len() - t,
    {
        if map.tiles[t] == TileType::Floor {
            floors.push(t);
        }
        t = t + 1;
    }
    let mut seeds: Vec<usize> = Vec::new();
    if floors.len() == 0 || seed_count == 0 {
        return Vec::new();
    }
    let mut i: usize = 0;
    while i < seed_count
        invariant
            0 < floors@.len() < i32::MAX,
            forall|i: int| 0 <= i < floors@.len() ==> #[trigger] floors@[i] < map.tiles@.len() && map.tiles@[floors@[i] as int] == TileType::Floor,
            forall|j: int| 0 <= j < seeds@.len() ==> map.tiles@[#[trigger] seeds@[j] as int] == TileType::Floor,
            seeds@.len() == i,
            i <= seed_count,
        decreases seed_count - i,
    {
        let pick = roll(rng, floors.len() as i32) as usize - 1;
        seeds.push(floors[pick]);
        i = i + 1;
    }
    assert(map.tiles@[floors@[0] as int] == TileType::Floor);
    voronoi_regions_from_seeds(map, &seeds)
}

} // verus!
