use vstd::prelude::*;

use crate::map::{idx_of, passable, tile_at, TileMap, TileType};
use crate::reach::{distance_field, is_distance_field, is_walk, lemma_walk_intro, lemma_walk_step, reach_within, reachable};

verus! {

/// An index holding the largest distance of a field; the first such index
/// when `start` does not hold it.
pub fn most_distant(dist: &Vec<Option<usize>>, start: usize) -> (r: usize)
    requires
        start < dist@.len(),
        dist@[start as int] == Some(0usize),
    ensures
        r < dist@.len(),
        dist@[r as int] is Some,
        forall|i: int| 0 <= i < dist@.len() && #[trigger] dist@[i] is Some ==> dist@[i]->Some_0 <= dist@[r as int]->Some_0,
{
    let mut best: usize = start;
    let mut best_d: usize = 0;
    let mut i: usize = 0;
    while i < dist.len()
        invariant
            i <= dist@.len(),
            best < dist@.len(),
            dist@[best as int] == Some(best_d),
            forall|j: int| 0 <= j < i && #[trigger] dist@[j] is Some ==> dist@[j]->Some_0 <= best_d,
            dist@[start as int] == Some(0usize),
            start < dist@.len(),
        decreases dist@.len() - i,
    {
        match dist[i] {
            Some(d) => {
                if d > best_d {
                    best = i;
                    best_d = d;
                }
            },
            None => {},
        }
        i = i + 1;
    }
    best
}

/// Whether `e` is a tile farthest from `s`: its shortest walking distance
/// from `s` is the largest among all tiles reachable from `s`.
pub open spec fn farthest_reachable(tiles: Seq<TileType>, w: int, h: int, s: int, e: int) -> bool {
    exists|dist: Seq<Option<usize>>|
        {
            &&& #[trigger] is_distance_field(tiles, w, h, s, dist)
            &&& dist[e] is Some
            &&& forall|i: int| 0 <= i < dist.len() && #[trigger] dist[i] is Some ==> dist[i]->Some_0 <= dist[e]->Some_0
        }
}

/// Whether `after` is `laid` culled from `s` with DownStairs on a tile
/// farthest from `s`, reachable from it before and after.
pub open spec fn exit_placed(laid: Seq<TileType>, after: Seq<TileType>, w: int, h: int, s: int) -> bool {
    exists|e: int|
        0 <= e < laid.len() && after == culled(laid, w, h, s).update(e, TileType::DownStairs) && #[trigger] farthest_reachable(
            laid,
            w,
            h,
            s,
            e,
        ) && reachable(laid, w, h, s, e) && reachable(after, w, h, s, e)
}

/// The tiles after culling: Floor tiles not reachable from `s` become Wall.
pub open spec fn culled(tiles: Seq<TileType>, w: int, h: int, s: int) -> Seq<TileType> {
    Seq::new(
        tiles.len(),
        |i: int|
            if tiles[i] == TileType::Floor && !reachable(tiles, w, h, s, i) {
                TileType::Wall
            } else {
                tiles[i]
            },
    )
}

proof fn lemma_walk_prefix(tiles: Seq<TileType>, w: int, h: int, p: Seq<int>, i: int)
    requires
        is_walk(tiles, w, h, p),
        0 <= i < p.len(),
    ensures
        reach_within(tiles, w, h, p[0], p[i], i as nat),
{
    let q = p.subrange(0, i + 1);
    assert forall|j: int| 1 <= j < q.len() implies crate::reach::adjacent(w, h, #[trigger] q[j - 1], q[j]) && 0 <= q[j]
        < tiles.len() && passable(tiles[q[j]]) by {
        assert(q[j - 1] == p[j - 1]);
        assert(q[j] == p[j]);
        lemma_walk_step(tiles, w, h, p, j);
    }
    lemma_walk_intro(tiles, w, h, q);
}

/// A walk from `s` stays a walk when every tile reachable from `s` stays
/// passable.
proof fn lemma_reach_transfer(old_tiles: Seq<TileType>, new_tiles: Seq<TileType>, w: int, h: int, s: int, t: int, k: nat)
    requires
        reach_within(old_tiles, w, h, s, t, k),
        new_tiles.len() == old_tiles.len(),
        forall|i: int|
            0 <= i < old_tiles.len() && #[trigger] reachable(old_tiles, w, h, s, i) && passable(old_tiles[i])
                ==> passable(new_tiles[i]),
    ensures
        reach_within(new_tiles, w, h, s, t, k),
{
    let p = choose|p: Seq<int>|
        #[trigger] is_walk(old_tiles, w, h, p) && p[0] == s && p.last() == t && p.len() <= k + 1;
    assert forall|i: int|
        1 <= i < p.len() implies crate::reach::adjacent(w, h, #[trigger] p[i - 1], p[i]) && 0 <= p[i] < new_tiles.len()
            && passable(new_tiles[p[i]]) by {
        lemma_walk_step(old_tiles, w, h, p, i);
        lemma_walk_prefix(old_tiles, w, h, p, i);
        assert(reach_within(old_tiles, w, h, s, p[i], i as nat));
        assert(reachable(old_tiles, w, h, s, p[i]));
        assert(passable(old_tiles[p[i]]));
    }
    lemma_walk_intro(new_tiles, w, h, p);
}

/// Finds the tile farthest (by shortest walking distance over passable
/// tiles) from `start_idx`; when `exclude_unreachable` is set, Floor tiles that cannot be
/// reached from it are turned into Wall first. Returns `start_idx` itself
/// when nothing else is reachable.
pub fn most_distant_reachable(map: &mut TileMap, start_idx: usize, exclude_unreachable: bool) -> (r: usize)
    requires
        old(map).wf(),
        start_idx < old(map).tiles@.len(),
    ensures
        final(map).wf(),
        final(map).width == old(map).width,
        final(map).height == old(map).height,
        final(map).depth == old(map).depth,
        final(map).revealed_tiles == old(map).revealed_tiles,
        final(map).visible_tiles == old(map).visible_tiles,
        final(map).tiles@ == if exclude_unreachable {
            culled(old(map).tiles@, old(map).width as int, old(map).height as int, start_idx as int)
        } else {
            old(map).tiles@
        },
        r < old(map).tiles@.len(),
        reachable(old(map).tiles@, old(map).width as int, old(map).height as int, start_idx as int, r as int),
        farthest_reachable(old(map).tiles@, old(map).width as int, old(map).height as int, start_idx as int, r as int),
{
    let ghost w = map.width as int;
    let ghost h = map.height as int;
    let ghost old_tiles = map.tiles@;
    let dist = distance_field(map, start_idx);
    let exit = most_distant(&dist, start_idx);
    proof {
        assert(dist@[exit as int] is Some);
        assert(reach_within(old_tiles, w, h, start_idx as int, exit as int, dist@[exit as int]->Some_0 as nat));
    }
    if exclude_unreachable {
        let n = map.tiles.len();
        let mut i: usize = 0;
        while i < n
            invariant
                map.wf(),
                map.width == w,
                map.height == h,
                map.depth == old(map).depth,
                map.revealed_tiles == old(map).revealed_tiles,
                map.visible_tiles == old(map).visible_tiles,
                n == map.tiles@.len(),
                old_tiles == old(map).tiles@,
                old_tiles.len() == n,
                dist@.len() == n,
                forall|j: int|
                    0 <= j < n ==> (#[trigger] dist@[j] is Some <==> reachable(old_tiles, w, h, start_idx as int, j)),
                i <= n,
                forall|j: int|
                    0 <= j < n ==> #[trigger] map.tiles@[j] == if j < i {
                        culled(old_tiles, w, h, start_idx as int)[j]
                    } else {
                        old_tiles[j]
                    },
            decreases n - i,
        {
            if map.tiles[i] == TileType::Floor && dist[i].is_none() {
                map.tiles.set(i, TileType::Wall);
            }
            assert(map.tiles@[i as int] == culled(old_tiles, w, h, start_idx as int)[i as int]);
            i = i + 1;
        }
        assert(map.tiles@ =~= culled(old_tiles, w, h, start_idx as int));
    }
    exit
}

/// Places the exit: culls unreachable Floor tiles and turns the tile
/// farthest from `start_idx` into DownStairs, which is then reachable from
/// `start_idx` on the resulting map.
pub fn place_distant_exit(map: &mut TileMap, start_idx: usize) -> (r: usize)
    requires
        old(map).wf(),
        start_idx < old(map).tiles@.len(),
    ensures
        final(map).wf(),
        final(map).width == old(map).width,
        final(map).height == old(map).height,
        final(map).depth == old(map).depth,
        r < old(map).tiles@.len(),
        reachable(old(map).tiles@, old(map).width as int, old(map).height as int, start_idx as int, r as int),
        farthest_reachable(old(map).tiles@, old(map).width as int, old(map).height as int, start_idx as int, r as int),
        final(map).tiles@ == culled(old(map).tiles@, old(map).width as int, old(map).height as int, start_idx as int).update(
            r as int,
            TileType::DownStairs,
        ),
        reachable(final(map).tiles@, final(map).width as int, final(map).height as int, start_idx as int, r as int),
{
    let ghost w = map.width as int;
    let ghost h = map.height as int;
    let ghost old_tiles = map.tiles@;
    let exit = most_distant_reachable(map, start_idx, true);
    map.tiles.set(exit, TileType::DownStairs);
    proof {
        let new_tiles = map.tiles@;
        let k = choose|k: nat| #[trigger] reach_within(old_tiles, w, h, start_idx as int, exit as int, k);
        assert forall|i: int|
            0 <= i < old_tiles.len() && #[trigger] reachable(old_tiles, w, h, start_idx as int, i) && passable(old_tiles[i])
                implies passable(new_tiles[i]) by {
            if i != exit {
                assert(new_tiles[i] == culled(old_tiles, w, h, start_idx as int)[i]);
            }
        }
        lemma_reach_transfer(old_tiles, new_tiles, w, h, start_idx as int, exit as int, k);
    }
    exit
}

/// Whether the left half of the centre row (up to and including the centre
/// column) holds a Floor tile.
pub open spec fn centre_row_has_floor(tiles: Seq<TileType>, w: int, h: int) -> bool {
    exists|x: int|
        0 <= x <= w / 2 && x < w && h > 0 && #[trigger] tile_at(tiles, w, x, h / 2) == TileType::Floor
}

/// Whether `(x, y)` is the start that the centre search finds: on the
/// centre row, at or left of the centre column, a Floor tile, with no Floor
/// between it and the centre column.
pub open spec fn centre_start(tiles: Seq<TileType>, w: int, h: int, x: int, y: int) -> bool {
    &&& y == h / 2
    &&& 0 <= x <= w / 2
    &&& x < w
    &&& h > 0
    &&& tile_at(tiles, w, x, y) == TileType::Floor
    &&& forall|x2: int| x < x2 <= w / 2 && x2 < w ==> #[trigger] tile_at(tiles, w, x2, y) != TileType::Floor
}

/// The start tile used when no stage has chosen one: from the centre of the
/// map, the first Floor tile found walking left along the centre row.
pub fn find_start_from_centre(map: &TileMap) -> (r: Option<usize>)
    requires
        map.wf(),
    ensures
        r is Some <==> centre_row_has_floor(map.tiles@, map.width as int, map.height as int),
        match r {
            Some(i) => {
                &&& i < map.tiles@.len()
                &&& map.tiles@[i as int] == TileType::Floor
                &&& centre_start(map.tiles@, map.width as int, map.height as int, i as int % map.width as int, i as int / map.width as int)
                &&& exists|x: int|
                    0 <= x <= map.width / 2 && i as int == #[trigger] idx_of(map.width as int, x, map.height / 2) && (forall|x2: int|
                        x < x2 <= map.width / 2 && x2 < map.width ==> #[trigger] map.tile(x2, map.height / 2) != TileType::Floor)
            },
            None => forall|x: int|
                0 <= x <= map.width / 2 && x < map.width && map.height > 0 ==> #[trigger] map.tile(x, map.height / 2)
                    != TileType::Floor,
        },
{
    if map.width == 0 || map.height == 0 {
        assert(!centre_row_has_floor(map.tiles@, map.width as int, map.height as int));
        return None;
    }
    let y = map.height / 2;
    let mut x: i32 = map.width / 2;
    if x >= map.width {
        x = map.width - 1;
    }
    let ghost top = map.width / 2;
    while x >= 0
        invariant
            map.wf(),
            map.width > 0,
            map.height > 0,
            y == map.height / 2,
            top == map.width / 2,
            -1 <= x < map.width,
            x <= top,
            forall|x2: int| x < x2 <= top && x2 < map.width ==> #[trigger] map.tile(x2, y as int) != TileType::Floor,
        decreases x + 1,
    {
        let idx = map.xy_idx(x, y);
        if map.tiles[idx] == TileType::Floor {
            assert(idx as int == idx_of(map.width as int, x as int, map.height / 2));
            assert(tile_at(map.tiles@, map.width as int, x as int, map.height / 2) == TileType::Floor);
            proof {
                vstd::arithmetic::div_mod::lemma_fundamental_div_mod_converse(idx as int, map.width as int, y as int, x as int);
                assert forall|x2: int| x < x2 <= map.width / 2 && x2 < map.width implies #[trigger] tile_at(
                    map.tiles@, map.width as int, x2, y as int) != TileType::Floor by {
                    assert(map.tile(x2, y as int) != TileType::Floor);
                }
            }
            return Some(idx);
        }
        x = x - 1;
    }
    assert(!centre_row_has_floor(map.tiles@, map.width as int, map.height as int)) by {
        assert forall|x2: int| 0 <= x2 <= map.width / 2 && x2 < map.width && map.height > 0 implies #[trigger] tile_at(
            map.tiles@, map.width as int, x2, map.height / 2) != TileType::Floor by {
            assert(map.tile(x2, map.height / 2) != TileType::Floor);
        }
    }
    None
}

} // verus!
