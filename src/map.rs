use vstd::arithmetic::div_mod::lemma_fundamental_div_mod_converse;
use vstd::prelude::*;

verus! {

/// The kind of a single grid cell.
#[derive(Clone, Copy, Debug, PartialEq, Eq, Structural)]
pub enum TileType {
    Wall,
    Floor,
    DownStairs,
}

/// A tile coordinate.
#[derive(Clone, Copy, Debug, PartialEq, Eq, Structural)]
pub struct Position {
    pub x: i32,
    pub y: i32,
}

/// A level: a row-major grid of tiles with per-tile fog-of-war state.
#[derive(Debug)]
pub struct TileMap {
    pub tiles: Vec<TileType>,
    pub width: i32,
    pub height: i32,
    pub revealed_tiles: Vec<bool>,
    pub visible_tiles: Vec<bool>,
    pub depth: i32,
}

/// Row-major index of the coordinate `(x, y)` on a grid `w` tiles wide.
pub open spec fn idx_of(w: int, x: int, y: int) -> int {
    y * w + x
}

/// Whether `(x, y)` lies on a `w` by `h` grid.
pub open spec fn in_bounds(w: int, h: int, x: int, y: int) -> bool {
    0 <= x < w && 0 <= y < h
}

/// Whether a tile of this kind can be walked through.
pub open spec fn passable(t: TileType) -> bool {
    t != TileType::Wall
}

/// Tile at `(x, y)` of a row-major grid `w` tiles wide.
pub open spec fn tile_at(tiles: Seq<TileType>, w: int, x: int, y: int) -> TileType {
    tiles[idx_of(w, x, y)]
}

pub proof fn lemma_index_in_range(w: int, h: int, x: int, y: int)
    requires
        in_bounds(w, h, x, y),
    ensures
        0 <= idx_of(w, x, y) < w * h,
{
    assert(0 <= y * w) by (nonlinear_arith)
        requires
            0 <= y,
            0 < w,
    ;
    assert(y * w + x < w * h) by (nonlinear_arith)
        requires
            0 <= x < w,
            0 <= y < h,
    ;
}

/// Coordinate-to-index mapping is a bijection between the in-bounds
/// coordinates of a `w` by `h` grid and the indices `0 .. w * h`: every
/// coordinate maps into range and is recovered as `(i % w, i / w)`, and every
/// index in range comes from the coordinate `(i % w, i / w)`.
pub proof fn lemma_index_round_trip(w: int, h: int, x: int, y: int, i: int)
    requires
        0 < w,
        0 <= h,
    ensures
        in_bounds(w, h, x, y) ==> {
            &&& 0 <= idx_of(w, x, y) < w * h
            &&& idx_of(w, x, y) % w == x
            &&& idx_of(w, x, y) / w == y
        },
        0 <= i < w * h ==> {
            &&& in_bounds(w, h, i % w, i / w)
            &&& idx_of(w, i % w, i / w) == i
        },
{
    if in_bounds(w, h, x, y) {
        lemma_index_in_range(w, h, x, y);
        lemma_fundamental_div_mod_converse(idx_of(w, x, y), w, y, x);
    }
    if 0 <= i < w * h {
        lemma_coords_of_index(w, h, i);
    }
}

pub proof fn lemma_coords_of_index(w: int, h: int, i: int)
    requires
        0 < w,
        0 <= i < w * h,
    ensures
        in_bounds(w, h, i % w, i / w),
        idx_of(w, i % w, i / w) == i,
{
    vstd::arithmetic::div_mod::lemma_fundamental_div_mod(i, w);
    let q = i / w;
    let r = i % w;
    assert(0 <= r < w) by {
        vstd::arithmetic::div_mod::lemma_mod_bound(i, w);
    }
    assert(0 <= q) by {
        vstd::arithmetic::div_mod::lemma_div_pos_is_pos(i, w);
    }
    assert(q < h) by (nonlinear_arith)
        requires
            i == w * q + r,
            0 <= r,
            i < w * h,
            0 < w,
    ;
    assert(idx_of(w, r, q) == i) by (nonlinear_arith)
        requires
            i == w * q + r,
    ;
}

impl TileMap {
    /// Well-formedness: non-negative dimensions and every per-tile array
    /// holding exactly `width * height` entries.
    pub open spec fn wf(&self) -> bool {
        &&& 0 <= self.width
        &&& 0 <= self.height
        &&& self.width * self.height <= usize::MAX
        &&& self.tiles@.len() == self.width * self.height
        &&& self.revealed_tiles@.len() == self.width * self.height
        &&& self.visible_tiles@.len() == self.width * self.height
    }

    pub open spec fn tile(&self, x: int, y: int) -> TileType {
        tile_at(self.tiles@, self.width as int, x, y)
    }

    /// An all-wall map of the given size with every fog-of-war flag cleared.
    pub fn new(new_depth: i32, width: i32, height: i32) -> (r: TileMap)
        requires
            0 <= width,
            0 <= height,
            width * height <= usize::MAX,
        ensures
            r.wf(),
            r.width == width,
            r.height == height,
            r.depth == new_depth,
            forall|i: int| 0 <= i < r.tiles@.len() ==> r.tiles@[i] == TileType::Wall,
            forall|i: int| 0 <= i < r.revealed_tiles@.len() ==> !r.revealed_tiles@[i],
            forall|i: int| 0 <= i < r.visible_tiles@.len() ==> !r.visible_tiles@[i],
    {
        let count: usize = width as usize * height as usize;
        TileMap {
            tiles: vec![TileType::Wall; count],
            width,
            height,
            revealed_tiles: vec![false; count],
            visible_tiles: vec![false; count],
            depth: new_depth,
        }
    }

    /// Row-major index of an in-bounds coordinate.
    pub fn xy_idx(&self, x: i32, y: i32) -> (r: usize)
        requires
            self.wf(),
            in_bounds(self.width as int, self.height as int, x as int, y as int),
        ensures
            r as int == idx_of(self.width as int, x as int, y as int),
            r < self.tiles@.len(),
    {
        proof {
            lemma_index_in_range(self.width as int, self.height as int, x as int, y as int);
            assert(y * self.width <= y * self.width + x);
        }
        y as usize * self.width as usize + x as usize
    }

    /// Coordinate of an index; the inverse of `xy_idx`.
    pub fn idx_xy(&self, idx: usize) -> (r: Position)
        requires
            self.wf(),
            idx < self.tiles@.len(),
        ensures
            in_bounds(self.width as int, self.height as int, r.x as int, r.y as int),
            idx_of(self.width as int, r.x as int, r.y as int) == idx as int,
            r.x as int == idx as int % self.width as int,
            r.y as int == idx as int / self.width as int,
    {
        proof {
            lemma_coords_of_index(self.width as int, self.height as int, idx as int);
        }
        let w = self.width as usize;
        Position { x: (idx % w) as i32, y: (idx / w) as i32 }
    }

    /// Whether the tile at `idx` blocks sight.
    pub fn is_opaque(&self, idx: usize) -> (r: bool)
        requires
            idx < self.tiles@.len(),
        ensures
            r == (self.tiles@[idx as int] == TileType::Wall),
    {
        self.tiles[idx] == TileType::Wall
    }

    /// Whether the tile at `idx` blocks movement.
    pub fn is_blocking(&self, idx: usize) -> (r: bool)
        requires
            idx < self.tiles@.len(),
        ensures
            r == !passable(self.tiles@[idx as int]),
    {
        self.tiles[idx] == TileType::Wall
    }

    /// A deep copy of this map with every tile marked revealed, as kept in a
    /// build history.
    pub fn revealed_copy(&self) -> (r: TileMap)
        requires
            self.wf(),
        ensures
            r.wf(),
            r.width == self.width,
            r.height == self.height,
            r.depth == self.depth,
            r.tiles@ == self.tiles@,
            r.visible_tiles@ == self.visible_tiles@,
            forall|i: int| 0 <= i < r.revealed_tiles@.len() ==> r.revealed_tiles@[i],
    {
        let n = self.tiles.len();
        let mut tiles: Vec<TileType> = Vec::with_capacity(n);
        let mut revealed: Vec<bool> = Vec::with_capacity(n);
        let mut visible: Vec<bool> = Vec::with_capacity(n);
        let mut i: usize = 0;
        while i < n
            invariant
                self.wf(),
                n == self.tiles@.len(),
                i <= n,
                tiles@ == self.tiles@.subrange(0, i as int),
                visible@ == self.visible_tiles@.subrange(0, i as int),
                revealed@.len() == i,
                forall|j: int| 0 <= j < i ==> revealed@[j],
            decreases n - i,
        {
            tiles.push(self.tiles[i]);
            visible.push(self.visible_tiles[i]);
            revealed.push(true);
            i = i + 1;
        }
        assert(tiles@ == self.tiles@);
        assert(visible@ == self.visible_tiles@);
        TileMap {
            tiles,
            width: self.width,
            height: self.height,
            revealed_tiles: revealed,
            visible_tiles: visible,
            depth: self.depth,
        }
    }
}

} // verus!
