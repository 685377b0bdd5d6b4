use bracket_random::prelude::RandomNumberGenerator;
use vstd::prelude::*;

use crate::builder_map::{BuildError, BuilderMap};
use crate::exits::{centre_row_has_floor, centre_start, culled, farthest_reachable, find_start_from_centre, place_distant_exit};
use crate::map::{idx_of, in_bounds, TileType};
use crate::reach::reachable;
use crate::voronoi::{is_voronoi_partition, regions_view, voronoi_regions};

verus! {

/// Sets the starting position, unless one is set already, to the first
/// Floor tile found walking left from the centre of the map.
pub fn area_starting_position(build_data: &mut BuilderMap) -> (r: Result<(), BuildError>)
    requires
        old(build_data).wf(),
    ensures
        final(build_data).map == old(build_data).map,
        final(build_data).spawn_list == old(build_data).spawn_list,
        final(build_data).rooms == old(build_data).rooms,
        final(build_data).spawn_regions == old(build_data).spawn_regions,
        old(build_data).starting_position is Some ==> r is Ok && final(build_data).starting_position
            == old(build_data).starting_position,
        old(build_data).starting_position is None && r is Ok ==> (final(build_data).starting_position matches Some(p)
            && in_bounds(old(build_data).map.width as int, old(build_data).map.height as int, p.x as int, p.y as int)
            && old(build_data).map.tile(p.x as int, p.y as int) == TileType::Floor && centre_start(
            old(build_data).map.tiles@,
            old(build_data).map.width as int,
            old(build_data).map.height as int,
            p.x as int,
            p.y as int,
        )),
        r is Err ==> r == Err::<(), BuildError>(BuildError::NoStartingTile) && old(build_data).starting_position is None,
        old(build_data).starting_position is None ==> (r is Ok <==> centre_row_has_floor(
            old(build_data).map.tiles@,
            old(build_data).map.width as int,
            old(build_data).map.height as int,
        )),
{
    if build_data.starting_position.is_some() {
        return Ok(());
    }
    match find_start_from_centre(&build_data.map) {
        Some(idx) => {
            let pos = build_data.map.idx_xy(idx);
            build_data.starting_position = Some(pos);
            build_data.take_snapshot();
            Ok(())
        },
        None => Err(BuildError::NoStartingTile),
    }
}

/// Culls Floor tiles unreachable from the starting position and places
/// DownStairs on the reachable tile farthest from it. Fails when no
/// starting position on the map is set.
pub fn distant_exit(build_data: &mut BuilderMap) -> (r: Result<usize, BuildError>)
    requires
        old(build_data).wf(),
    ensures
        final(build_data).wf(),
        final(build_data).map.width == old(build_data).map.width,
        final(build_data).map.height == old(build_data).map.height,
        final(build_data).map.depth == old(build_data).map.depth,
        final(build_data).starting_position == old(build_data).starting_position,
        final(build_data).spawn_list == old(build_data).spawn_list,
        final(build_data).rooms == old(build_data).rooms,
        final(build_data).spawn_regions == old(build_data).spawn_regions,
        match old(build_data).starting_position {
            Some(p) => if in_bounds(old(build_data).map.width as int, old(build_data).map.height as int, p.x as int, p.y as int) {
                (r matches Ok(e) && {
                    let w = old(build_data).map.width as int;
                    let h = old(build_data).map.height as int;
                    let s = idx_of(w, p.x as int, p.y as int);
                    &&& e < old(build_data).map.tiles@.len()
                    &&& final(build_data).map.tiles@ == culled(old(build_data).map.tiles@, w, h, s).update(
                        e as int,
                        TileType::DownStairs,
                    )
                    &&& reachable(old(build_data).map.tiles@, w, h, s, e as int)
                    &&& farthest_reachable(old(build_data).map.tiles@, w, h, s, e as int)
                    &&& reachable(final(build_data).map.tiles@, w, h, s, e as int)
                })
            } else {
                r == Err::<usize, BuildError>(BuildError::NoStartingPosition) && final(build_data).map == old(build_data).map
            },
            None => r == Err::<usize, BuildError>(BuildError::NoStartingPosition) && final(build_data).map == old(
                build_data,
            ).map,
        },
{
    let p = match build_data.starting_position {
        Some(p) => p,
        None => {
            return Err(BuildError::NoStartingPosition);
        },
    };
    if p.x < 0 || p.y < 0 || p.x >= build_data.map.width || p.y >= build_data.map.height {
        return Err(BuildError::NoStartingPosition);
    }
    let start = build_data.map.xy_idx(p.x, p.y);
    let exit = place_distant_exit(&mut build_data.map, start);
    build_data.take_snapshot();
    Ok(exit)
}

/// Groups the Floor tiles into at most `seed_count` spawn regions around
/// random Floor seeds and stores them for the spawning phase.
pub fn voronoi_spawning(build_data: &mut BuilderMap, seed_count: usize, rng: &mut RandomNumberGenerator) -> (r: Result<
    (),
    BuildError,
>)
    requires
        old(build_data).wf(),
    ensures
        final(build_data).map == old(build_data).map,
        final(build_data).starting_position == old(build_data).starting_position,
        final(build_data).spawn_list == old(build_data).spawn_list,
        final(build_data).rooms == old(build_data).rooms,
        final(build_data).history == old(build_data).history,
        old(build_data).map.width == 0 <==> r == Err::<(), BuildError>(BuildError::MapTooSmall),
        old(build_data).map.width > 0 && old(build_data).map.tiles@.len() >= i32::MAX <==> r == Err::<(), BuildError>(
            BuildError::MapTooLarge,
        ),
        r is Err <==> (old(build_data).map.width == 0 || old(build_data).map.tiles@.len() >= i32::MAX),
        r is Err ==> final(build_data).spawn_regions == old(build_data).spawn_regions,
        r is Ok && (seed_count == 0 || forall|t: int|
            0 <= t < old(build_data).map.tiles@.len() ==> old(build_data).map.tiles@[t] != TileType::Floor)
            ==> final(build_data).spawn_regions@.len() == 0,
        r is Ok && seed_count > 0 && (exists|t: int|
            0 <= t < old(build_data).map.tiles@.len() && old(build_data).map.tiles@[t] == TileType::Floor) ==> exists|
            seeds: Seq<usize>,
        |
            seeds.len() == seed_count && #[trigger] is_voronoi_partition(
                old(build_data).map.tiles@,
                old(build_data).map.width as int,
                seeds,
                regions_view(final(build_data).spawn_regions@),
            ),
{
    if build_data.map.width == 0 {
        return Err(BuildError::MapTooSmall);
    }
    if build_data.map.tiles.len() >= i32::MAX as usize {
        return Err(BuildError::MapTooLarge);
    }
    let regions = voronoi_regions(&build_data.map, seed_count, rng);
    let ghost rv = regions_view(regions@);
    build_data.spawn_regions = regions;
    proof {
        if seed_count > 0 && (exists|t: int|
            0 <= t < build_data.map.tiles@.len() && build_data.map.tiles@[t] == TileType::Floor) {
            let seeds = choose|seeds: Seq<usize>|
                seeds.len() == seed_count && is_voronoi_partition(build_data.map.tiles@, build_data.map.width as int, seeds, rv)
                    && (forall|i: int| 0 <= i < seeds.len() ==> build_data.map.tiles@[#[trigger] seeds[i] as int] == TileType::Floor);
            assert(regions_view(build_data.spawn_regions@) == rv);
            assert(is_voronoi_partition(build_data.map.tiles@, build_data.map.width as int, seeds, regions_view(build_data.spawn_regions@)));
        }
    }
    Ok(())
}

} // verus!
