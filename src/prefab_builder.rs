use vstd::prelude::*;

use crate::builder_map::{BuildError, BuilderMap};
use crate::exits::{centre_row_has_floor, centre_start, culled, exit_placed, farthest_reachable, find_start_from_centre, place_distant_exit};
use crate::map::{idx_of, in_bounds, lemma_coords_of_index, lemma_index_in_range, Position, TileMap, TileType};
use crate::reach::{distance_field, is_distance_field, reachable};

verus! {

/// Where a prefab comes from.
#[derive(Clone, Copy, Debug, PartialEq)]
pub enum PrefabMode {
    /// A REX Paint level file; the glyph grid is read from it by the caller.
    RexLevel { template: &'static str },
}

/// Horizontal anchor of a prefab section.
#[derive(Clone, Copy, Debug, PartialEq, Eq, Structural)]
pub enum HorizontalPlacement {
    Left,
    Center,
    Right,
}

/// Vertical anchor of a prefab section.
#[derive(Clone, Copy, Debug, PartialEq, Eq, Structural)]
pub enum VerticalPlacement {
    Top,
    Center,
    Bottom,
}

/// A hand-drawn piece of a level and where it is anchored.
#[derive(Clone, Copy, Debug, PartialEq)]
pub struct PrefabSection {
    pub template: &'static str,
    pub width: usize,
    pub height: usize,
    pub placement: (HorizontalPlacement, VerticalPlacement),
}

/// The tile a glyph produces over `old`: space and the entity glyphs give
/// Floor, `#` Wall, `@` Floor, `>` DownStairs; any other glyph leaves the
/// tile as it was.
pub open spec fn glyph_tile(c: char, old: TileType) -> TileType {
    if c == ' ' || c == '@' || c == 'g' || c == 'o' || c == '^' || c == '%' || c == '!' {
        TileType::Floor
    } else if c == '#' {
        TileType::Wall
    } else if c == '>' {
        TileType::DownStairs
    } else {
        old
    }
}

/// The entity a glyph places, if any.
pub open spec fn glyph_tag(c: char) -> Option<Seq<char>> {
    if c == 'g' {
        Some("Goblin"@)
    } else if c == 'o' {
        Some("Orc"@)
    } else if c == '^' {
        Some("Bear Trap"@)
    } else if c == '%' {
        Some("Rations"@)
    } else if c == '!' {
        Some("Health Potion"@)
    } else {
        None
    }
}

/// Whether map tile `i` (of a map `w` wide) is under a `gw` by `gh` template
/// laid at the top-left corner.
pub open spec fn covered(w: int, gw: int, gh: int, i: int) -> bool {
    i % w < gw && i / w < gh
}

/// The template glyph over map tile `i`.
pub open spec fn glyph_of(glyphs: Seq<char>, w: int, gw: int, i: int) -> char {
    glyphs[(i / w) * gw + i % w]
}

/// Map tiles after the template is laid over them.
pub open spec fn template_tiles(tiles: Seq<TileType>, glyphs: Seq<char>, w: int, gw: int, gh: int) -> Seq<TileType> {
    Seq::new(
        tiles.len(),
        |i: int|
            if covered(w, gw, gh, i) {
                glyph_tile(glyph_of(glyphs, w, gw, i), tiles[i])
            } else {
                tiles[i]
            },
    )
}

/// Spawns placed by the template over map tiles `0 .. u`, in tile order.
pub open spec fn template_spawns(glyphs: Seq<char>, w: int, gw: int, gh: int, u: nat) -> Seq<(usize, Seq<char>)>
    decreases u,
{
    if u == 0 {
        Seq::empty()
    } else {
        let p = template_spawns(glyphs, w, gw, gh, (u - 1) as nat);
        let i = u - 1;
        if covered(w, gw, gh, i) && glyph_tag(glyph_of(glyphs, w, gw, i)) is Some {
            p.push((i as usize, glyph_tag(glyph_of(glyphs, w, gw, i))->Some_0))
        } else {
            p
        }
    }
}

/// The starting position after the template is laid over map tiles
/// `0 .. u`: the last `@` among them, else `prev`.
pub open spec fn template_start(glyphs: Seq<char>, w: int, gw: int, gh: int, u: nat, prev: Option<Position>) -> Option<
    Position,
>
    decreases u,
{
    if u == 0 {
        prev
    } else {
        let i = u - 1;
        if covered(w, gw, gh, i) && glyph_of(glyphs, w, gw, i) == '@' {
            Some(Position { x: (i % w) as i32, y: (i / w) as i32 })
        } else {
            template_start(glyphs, w, gw, gh, (u - 1) as nat, prev)
        }
    }
}

/// Spec view of a spawn list.
pub open spec fn spawns_view(s: Seq<(usize, String)>) -> Seq<(usize, Seq<char>)> {
    s.map_values(|e: (usize, String)| (e.0, e.1@))
}

fn glyph_spawn(c: char) -> (r: Option<String>)
    ensures
        match glyph_tag(c) {
            Some(t) => r is Some && r->Some_0@ == t,
            None => r is None,
        },
{
    if c == 'g' {
        Some("Goblin".to_owned())
    } else if c == 'o' {
        Some("Orc".to_owned())
    } else if c == '^' {
        Some("Bear Trap".to_owned())
    } else if c == '%' {
        Some("Rations".to_owned())
    } else if c == '!' {
        Some("Health Potion".to_owned())
    } else {
        None
    }
}

/// Lays a `gw` by `gh` row-major glyph grid over the top-left corner of the
/// map: tiles follow the glyph table, `@` sets the starting position, and
/// entity glyphs append spawns in tile order. Glyphs beyond the map's edge
/// are ignored.
pub fn load_template(build_data: &mut BuilderMap, glyphs: &Vec<char>, gw: usize, gh: usize)
    requires
        old(build_data).wf(),
        old(build_data).map.width > 0,
        glyphs@.len() == gw * gh,
    ensures
        final(build_data).wf(),
        final(build_data).map.width == old(build_data).map.width,
        final(build_data).map.height == old(build_data).map.height,
        final(build_data).map.depth == old(build_data).map.depth,
        final(build_data).rooms == old(build_data).rooms,
        final(build_data).history == old(build_data).history,
        final(build_data).map.tiles@ == template_tiles(
            old(build_data).map.tiles@,
            glyphs@,
            old(build_data).map.width as int,
            gw as int,
            gh as int,
        ),
        spawns_view(final(build_data).spawn_list@) == spawns_view(old(build_data).spawn_list@) + template_spawns(
            glyphs@,
            old(build_data).map.width as int,
            gw as int,
            gh as int,
            old(build_data).map.tiles@.len(),
        ),
        final(build_data).starting_position == template_start(
            glyphs@,
            old(build_data).map.width as int,
            gw as int,
            gh as int,
            old(build_data).map.tiles@.len(),
            old(build_data).starting_position,
        ),
{
    let n = build_data.map.tiles.len();
    let w = build_data.map.width as usize;
    let ghost wi = w as int;
    let ghost hi = build_data.map.height as int;
    let ghost old_tiles = build_data.map.tiles@;
    let ghost old_spawns = spawns_view(build_data.spawn_list@);
    let glyph_count = glyphs.len();
    let mut i: usize = 0;
    while i < n
        invariant
            build_data.wf(),
            w > 0,
            w as int == wi,
            wi == build_data.map.width,
            hi == build_data.map.height,
            build_data.map.width == old(build_data).map.width,
            build_data.map.height == old(build_data).map.height,
            build_data.map.depth == old(build_data).map.depth,
            build_data.rooms == old(build_data).rooms,
            build_data.history == old(build_data).history,
            n == build_data.map.tiles@.len(),
            old_tiles == old(build_data).map.tiles@,
            old_tiles.len() == n,
            old_spawns == spawns_view(old(build_data).spawn_list@),
            glyphs@.len() == gw * gh,
            glyph_count == gw * gh,
            i <= n,
            forall|j: int|
                0 <= j < n ==> #[trigger] build_data.map.tiles@[j] == if j < i {
                    template_tiles(old_tiles, glyphs@, wi, gw as int, gh as int)[j]
                } else {
                    old_tiles[j]
                },
            spawns_view(build_data.spawn_list@) == old_spawns + template_spawns(glyphs@, wi, gw as int, gh as int, i as nat),
            build_data.starting_position == template_start(
                glyphs@,
                wi,
                gw as int,
                gh as int,
                i as nat,
                old(build_data).starting_position,
            ),
        decreases n - i,
    {
        proof {
            lemma_coords_of_index(wi, hi, i as int);
        }
        let x = i % w;
        let y = i / w;
        if x < gw && y < gh {
            proof {
                lemma_index_in_range(gw as int, gh as int, x as int, y as int);
                assert(y * gw <= y * gw + x);
            }
            let c = glyphs[y * gw + x];
            if c == ' ' || c == '@' || c == 'g' || c == 'o' || c == '^' || c == '%' || c == '!' {
                build_data.map.tiles.set(i, TileType::Floor);
            } else if c == '#' {
                build_data.map.tiles.set(i, TileType::Wall);
            } else if c == '>' {
                build_data.map.tiles.set(i, TileType::DownStairs);
            }
            if c == '@' {
                build_data.starting_position = Some(Position { x: x as i32, y: y as i32 });
            }
            let ghost before = build_data.spawn_list@;
            match glyph_spawn(c) {
                Some(tag) => {
                    build_data.spawn_list.push((i, tag));
                    proof {
                        assert(spawns_view(build_data.spawn_list@) =~= spawns_view(before).push(
                            (i, glyph_tag(c)->Some_0),
                        ));
                    }
                },
                None => {},
            }
        }
        proof {
            assert(build_data.map.tiles@[i as int] == template_tiles(old_tiles, glyphs@, wi, gw as int, gh as int)[i as int]);
            assert(template_spawns(glyphs@, wi, gw as int, gh as int, (i + 1) as nat) == if covered(wi, gw as int, gh as int, i as int)
                && glyph_tag(glyph_of(glyphs@, wi, gw as int, i as int)) is Some {
                template_spawns(glyphs@, wi, gw as int, gh as int, i as nat).push(
                    (i, glyph_tag(glyph_of(glyphs@, wi, gw as int, i as int))->Some_0),
                )
            } else {
                template_spawns(glyphs@, wi, gw as int, gh as int, i as nat)
            });
        }
        i = i + 1;
    }
    assert(build_data.map.tiles@ =~= template_tiles(old_tiles, glyphs@, wi, gw as int, gh as int));
}

/// What laying a template and settling its start and exit does, given the
/// context before and after and the result.
pub open spec fn prefab_outcome(
    before: BuilderMap,
    after: BuilderMap,
    glyphs: Seq<char>,
    gw: int,
    gh: int,
    r: Result<(), BuildError>,
) -> bool {
    let w = before.map.width as int;
    let h = before.map.height as int;
    let laid = template_tiles(before.map.tiles@, glyphs, w, gw, gh);
    let start = template_start(glyphs, w, gw, gh, laid.len(), before.starting_position);
    &&& spawns_view(after.spawn_list@) == spawns_view(before.spawn_list@)
        + template_spawns(glyphs, w, gw, gh, laid.len())
    &&& match start {
        Some(p) => if in_bounds(w, h, p.x as int, p.y as int) {
            &&& (r is Ok <==> stairs_reachable(laid, w, h, idx_of(w, p.x as int, p.y as int)))
            &&& r is Ok ==> after.starting_position == start && after.map.tiles@
                == laid
            &&& r is Err ==> r == Err::<(), BuildError>(BuildError::ExitUnreachable)
        } else {
            r == Err::<(), BuildError>(BuildError::NoStartingPosition)
        },
        None => {
            &&& (r is Ok <==> centre_row_has_floor(laid, w, h))
            &&& r is Err ==> r == Err::<(), BuildError>(BuildError::NoStartingTile)
            &&& r is Ok ==> (after.starting_position matches Some(p) && centre_start(
                laid,
                w,
                h,
                p.x as int,
                p.y as int,
            ) && exit_placed(laid, after.map.tiles@, w, h, idx_of(w, p.x as int, p.y as int)))
        },
    }
}

/// Builds a level from a hand-drawn template.
#[derive(Debug)]
pub struct PrefabBuilder {
    pub mode: PrefabMode,
}

impl PrefabBuilder {
    pub fn new(mode: PrefabMode) -> (r: PrefabBuilder)
        ensures
            r.mode == mode,
    {
        PrefabBuilder { mode }
    }

    /// Lays the template (the glyph grid of this builder's level) over the
    /// map. When the template sets no starting position, the first Floor
    /// tile walking left from the centre becomes the start, unreachable Floor
    /// is culled, and DownStairs go on the tile farthest from the start.
    pub fn build_map(&self, build_data: &mut BuilderMap, glyphs: &Vec<char>, gw: usize, gh: usize) -> (r: Result<(), BuildError>)
        requires
            old(build_data).wf(),
            old(build_data).map.width > 0,
            glyphs@.len() == gw * gh,
        ensures
            final(build_data).wf(),
            final(build_data).map.width == old(build_data).map.width,
            final(build_data).map.height == old(build_data).map.height,
            final(build_data).map.depth == old(build_data).map.depth,
            final(build_data).rooms == old(build_data).rooms,
            final(build_data).history@.len() >= old(build_data).history@.len(),
            final(build_data).history@.subrange(0, old(build_data).history@.len() as int) == old(build_data).history@,
            prefab_outcome(*old(build_data), *final(build_data), glyphs@, gw as int, gh as int, r),
    {
        let ghost hist0 = build_data.history@;
        let ghost before = *build_data;
        load_template(build_data, glyphs, gw, gh);
        build_data.take_snapshot();
        let ghost laid = build_data.map.tiles@;
        let ghost w = build_data.map.width as int;
        let ghost h = build_data.map.height as int;
        let ghost hist1 = build_data.history@;
        proof {
            assert(hist1.subrange(0, hist0.len() as int) =~= hist0);
        }
        match build_data.starting_position {
            Some(p) => {
                if p.x < 0 || p.y < 0 || p.x >= build_data.map.width || p.y >= build_data.map.height {
                    return Err(BuildError::NoStartingPosition);
                }
                let s = build_data.map.xy_idx(p.x, p.y);
                let ok = all_stairs_reachable(&build_data.map, s);
                if ok {
                    Ok(())
                } else {
                    Err(BuildError::ExitUnreachable)
                }
            },
            None => {
                let found = find_start_from_centre(&build_data.map);
                assert(found is Some <==> centre_row_has_floor(laid, w, h));
                let start = match found {
                    Some(s) => s,
                    None => {
                        return Err(BuildError::NoStartingTile);
                    },
                };
                let pos = build_data.map.idx_xy(start);
                build_data.starting_position = Some(pos);
                build_data.take_snapshot();
                let ghost hist2 = build_data.history@;
                let e = place_distant_exit(&mut build_data.map, start);
                build_data.take_snapshot();
                proof {
                    assert(idx_of(w, pos.x as int, pos.y as int) == start as int);
                    assert(farthest_reachable(laid, w, h, idx_of(w, pos.x as int, pos.y as int), e as int));
                    assert(build_data.starting_position == Some(pos));
                    let si = idx_of(w, pos.x as int, pos.y as int);
                    assert(centre_start(laid, w, h, pos.x as int, pos.y as int));
                    assert(build_data.map.tiles@ == culled(laid, w, h, si).update(e as int, TileType::DownStairs));
                    assert(reachable(laid, w, h, si, e as int));
                    assert(reachable(build_data.map.tiles@, w, h, si, e as int));
                    assert(laid == template_tiles(before.map.tiles@, glyphs@, w, gw as int, gh as int));
                    assert(prefab_outcome(before, *build_data, glyphs@, gw as int, gh as int, Ok(())));
                    assert(build_data.history@.subrange(0, hist0.len() as int) =~= hist0) by {
                        assert(build_data.history@.subrange(0, hist2.len() as int) == hist2);
                        assert(hist2.subrange(0, hist1.len() as int) == hist1);
                    }
                }
                Ok(())
            },
        }
    }
}

/// Whether every DownStairs tile can be reached from `s`.
pub open spec fn stairs_reachable(tiles: Seq<TileType>, w: int, h: int, s: int) -> bool {
    forall|i: int| 0 <= i < tiles.len() && #[trigger] tiles[i] == TileType::DownStairs ==> reachable(tiles, w, h, s, i)
}

/// Whether every DownStairs tile of `map` can be reached from tile `s`.
pub fn all_stairs_reachable(map: &TileMap, s: usize) -> (r: bool)
    requires
        map.wf(),
        s < map.tiles@.len(),
    ensures
        r == stairs_reachable(map.tiles@, map.width as int, map.height as int, s as int),
{
    let dist = distance_field(map, s);
    let mut i: usize = 0;
    while i < map.tiles.len()
        invariant
            map.wf(),
            is_distance_field(map.tiles@, map.width as int, map.height as int, s as int, dist@),
            i <= map.tiles@.len(),
            forall|j: int|
                0 <= j < i && #[trigger] map.tiles@[j] == TileType::DownStairs ==> reachable(
                    map.tiles@,
                    map.width as int,
                    map.height as int,
                    s as int,
                    j,
                ),
        decreases map.tiles@.len() - i,
    {
        if map.tiles[i] == TileType::DownStairs && dist[i].is_none() {
            assert(!reachable(map.tiles@, map.width as int, map.height as int, s as int, i as int));
            return false;
        }
        i = i + 1;
    }
    true
}

} // verus!
