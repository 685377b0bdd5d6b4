use vstd::prelude::*;

use crate::builder_map::{BuildError, BuilderMap};
use crate::map::{lemma_coords_of_index, TileMap, TileType};
use crate::rect::Rect;

verus! {

/// Whether tile `i` of a grid `w` wide lies strictly inside `r`.
pub open spec fn room_covers(r: Rect, w: int, i: int) -> bool {
    r.x1 < i % w < r.x2 && r.y1 < i / w < r.y2
}

/// `tiles` with the interior of `r` set to Floor.
pub open spec fn paint_room(tiles: Seq<TileType>, w: int, r: Rect) -> Seq<TileType> {
    Seq::new(tiles.len(), |i: int| if room_covers(r, w, i) { TileType::Floor } else { tiles[i] })
}

/// `tiles` with the interiors of the first `k` rooms set to Floor.
pub open spec fn paint_rooms(tiles: Seq<TileType>, w: int, rooms: Seq<Rect>, k: nat) -> Seq<TileType>
    decreases k,
{
    if k == 0 {
        tiles
    } else {
        paint_room(paint_rooms(tiles, w, rooms, (k - 1) as nat), w, rooms[k - 1])
    }
}

fn draw_room(map: &mut TileMap, room: &Rect)
    requires
        old(map).wf(),
        old(map).width > 0,
    ensures
        final(map).wf(),
        final(map).width == old(map).width,
        final(map).height == old(map).height,
        final(map).depth == old(map).depth,
        final(map).tiles@ == paint_room(old(map).tiles@, old(map).width as int, *room),
{
    let n = map.tiles.len();
    let w = map.width as usize;
    let ghost old_tiles = map.tiles@;
    let mut i: usize = 0;
    while i < n
        invariant
            map.wf(),
            w > 0,
            w == map.width,
            map.width == old(map).width,
            map.height == old(map).height,
            map.depth == old(map).depth,
            n == map.tiles@.len(),
            old_tiles == old(map).tiles@,
            old_tiles.len() == n,
            i <= n,
            forall|j: int|
                0 <= j < n ==> #[trigger] map.tiles@[j] == if j < i {
                    paint_room(old_tiles, w as int, *room)[j]
                } else {
                    old_tiles[j]
                },
        decreases n - i,
    {
        proof {
            lemma_coords_of_index(w as int, map.height as int, i as int);
        }
        let x = (i % w) as i64;
        let y = (i / w) as i64;
        if (room.x1 as i64) < x && x < (room.x2 as i64) && (room.y1 as i64) < y && y < (room.y2 as i64) {
            map.tiles.set(i, TileType::Floor);
        }
        assert(map.tiles@[i as int] == paint_room(old_tiles, w as int, *room)[i as int]);
        i = i + 1;
    }
    assert(map.tiles@ =~= paint_room(old_tiles, w as int, *room));
}

/// Writes Floor into the interior of every room of the context, taking a
/// snapshot after each room. Fails when no step has produced rooms or the
/// room list is empty.
#[derive(Debug)]
pub struct RoomDrawer {}

impl RoomDrawer {
    pub fn new() -> (r: RoomDrawer) {
        RoomDrawer {}
    }

    pub fn build_map(&mut self, build_data: &mut BuilderMap) -> (r: Result<(), BuildError>)
        requires
            old(build_data).wf(),
            old(build_data).map.width > 0,
        ensures
            final(build_data).wf(),
            final(build_data).map.width == old(build_data).map.width,
            final(build_data).map.height == old(build_data).map.height,
            final(build_data).map.depth == old(build_data).map.depth,
            final(build_data).rooms == old(build_data).rooms,
            final(build_data).spawn_list == old(build_data).spawn_list,
            final(build_data).starting_position == old(build_data).starting_position,
            final(build_data).history@.subrange(0, old(build_data).history@.len() as int) == old(build_data).history@,
            match old(build_data).rooms {
                None => r == Err::<(), BuildError>(BuildError::NoRooms) && final(build_data).map == old(build_data).map
                    && final(build_data).history == old(build_data).history,
                Some(rooms) => if rooms@.len() == 0 {
                    r == Err::<(), BuildError>(BuildError::NoRooms) && final(build_data).map == old(build_data).map
                        && final(build_data).history == old(build_data).history
                } else {
                    r is Ok && final(build_data).map.tiles@ == paint_rooms(
                        old(build_data).map.tiles@,
                        old(build_data).map.width as int,
                        rooms@,
                        rooms@.len(),
                    ) && final(build_data).history@.len() == old(build_data).history@.len() + rooms@.len()
                },
            },
    {
        let rooms: Vec<Rect> = match &build_data.rooms {
            Some(r) => r.clone(),
            None => {
                return Err(BuildError::NoRooms);
            },
        };
        if rooms.len() == 0 {
            return Err(BuildError::NoRooms);
        }
        let ghost old_history = build_data.history@;
        let ghost w = build_data.map.width as int;
        let ghost start = build_data.map.tiles@;
        let ghost orig = build_data.rooms->Some_0@;
        assert(rooms@ == orig) by {
            assert forall|j: int| 0 <= j < rooms@.len() implies rooms@[j] == orig[j] by {}
            assert(rooms@ =~= orig);
        }
        let mut k: usize = 0;
        while k < rooms.len()
            invariant
                build_data.wf(),
                build_data.map.width == w,
                w > 0,
                build_data.map.height == old(build_data).map.height,
                build_data.map.depth == old(build_data).map.depth,
                build_data.rooms == old(build_data).rooms,
                build_data.spawn_list == old(build_data).spawn_list,
                build_data.starting_position == old(build_data).starting_position,
                start == old(build_data).map.tiles@,
                k <= rooms@.len(),
                old_history == old(build_data).history@,
                build_data.history@.len() == old_history.len() + k,
                build_data.history@.subrange(0, old_history.len() as int) == old_history,
                build_data.map.tiles@ == paint_rooms(start, w, rooms@, k as nat),
            decreases rooms@.len() - k,
        {
            draw_room(&mut build_data.map, &rooms[k]);
            let ghost h0 = build_data.history@;
            build_data.take_snapshot();
            proof {
                assert(build_data.history@.subrange(0, old_history.len() as int) =~= h0.subrange(0, old_history.len() as int));
            }
            k = k + 1;
        }
        Ok(())
    }
}

} // verus!
