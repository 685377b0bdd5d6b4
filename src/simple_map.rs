use bracket_random::prelude::RandomNumberGenerator;
use vstd::prelude::*;

use crate::builder_map::BuilderMap;
use crate::random::roll;
use crate::rect::{rects_intersect, Rect};

verus! {

/// Room placements tried per map.
pub const MAX_ROOMS: usize = 30;

/// Smallest room side.
pub const MIN_SIZE: i32 = 6;

/// Largest room side.
pub const MAX_SIZE: i32 = 10;

/// Whether `r` is a room the generator may place on a `w` by `h` map: its
/// sides between the size bounds and its outline off the last row and
/// column.
pub open spec fn room_fits(r: Rect, w: int, h: int) -> bool {
    &&& 0 <= r.x1
    &&& 0 <= r.y1
    &&& MIN_SIZE <= r.x2 - r.x1 <= MAX_SIZE
    &&& MIN_SIZE <= r.y2 - r.y1 <= MAX_SIZE
    &&& r.x2 <= w - 2
    &&& r.y2 <= h - 2
}

/// Whether every room fits the map and no two rooms overlap or touch.
pub open spec fn rooms_valid(rooms: Seq<Rect>, w: int, h: int) -> bool {
    &&& forall|i: int| 0 <= i < rooms.len() ==> room_fits(#[trigger] rooms[i], w, h)
    &&& forall|i: int, j: int|
        0 <= i < j < rooms.len() ==> !rects_intersect(#[trigger] rooms[i], #[trigger] rooms[j])
}

/// The rooms kept from the first `k` proposals: each proposal is kept
/// unless it overlaps or touches a room kept before it.
pub open spec fn kept_rooms(proposals: Seq<Rect>, k: nat) -> Seq<Rect>
    decreases k,
{
    if k == 0 {
        Seq::empty()
    } else {
        let prev = kept_rooms(proposals, (k - 1) as nat);
        let r = proposals[k - 1];
        if forall|j: int| 0 <= j < prev.len() ==> !rects_intersect(r, #[trigger] prev[j]) {
            prev.push(r)
        } else {
            prev
        }
    }
}

proof fn lemma_kept_nonempty(proposals: Seq<Rect>, k: nat)
    requires
        1 <= k,
    ensures
        kept_rooms(proposals, k).len() >= 1,
    decreases k,
{
    if k > 1 {
        lemma_kept_nonempty(proposals, (k - 1) as nat);
    }
}

/// Whether `r` is one of the proposals.
pub open spec fn proposed(ps: Seq<Rect>, r: Rect) -> bool {
    exists|j: int| 0 <= j < ps.len() && ps[j] == r
}

/// Rejection sampling over a list of proposed rooms: each is kept unless it
/// overlaps or touches a room kept before it.
pub fn keep_rooms(proposals: &Vec<Rect>) -> (r: Vec<Rect>)
    ensures
        r@ == kept_rooms(proposals@, proposals@.len()),
        forall|i: int, j: int| 0 <= i < j < r@.len() ==> !rects_intersect(#[trigger] r@[i], #[trigger] r@[j]),
        forall|i: int| 0 <= i < r@.len() ==> proposed(proposals@, #[trigger] r@[i]),
{
    let mut rooms: Vec<Rect> = Vec::new();
    let mut k: usize = 0;
    while k < proposals.len()
        invariant
            k <= proposals@.len(),
            rooms@ == kept_rooms(proposals@, k as nat),
            forall|i: int, j: int| 0 <= i < j < rooms@.len() ==> !rects_intersect(#[trigger] rooms@[i], #[trigger] rooms@[j]),
            forall|i: int| 0 <= i < rooms@.len() ==> proposed(proposals@, #[trigger] rooms@[i]),
        decreases proposals@.len() - k,
    {
        let new_room = proposals[k];
        let mut ok = true;
        let mut j: usize = 0;
        while j < rooms.len()
            invariant
                j <= rooms@.len(),
                ok == forall|m: int| 0 <= m < j ==> !rects_intersect(new_room, #[trigger] rooms@[m]),
            decreases rooms@.len() - j,
        {
            if new_room.intersect(&rooms[j]) {
                ok = false;
            }
            j = j + 1;
        }
        let ghost before = rooms@;
        if ok {
            rooms.push(new_room);
            proof {
                assert forall|a: int, b: int|
                    0 <= a < b < rooms@.len() implies !rects_intersect(#[trigger] rooms@[a], #[trigger] rooms@[b]) by {
                    if b == before.len() {
                        assert(!rects_intersect(new_room, before[a]));
                    } else {
                        assert(rooms@[a] == before[a] && rooms@[b] == before[b]);
                    }
                }
                assert forall|i: int| 0 <= i < rooms@.len() implies proposed(proposals@, #[trigger] rooms@[i]) by {
                    if i < before.len() {
                        assert(rooms@[i] == before[i]);
                        assert(proposed(proposals@, before[i]));
                    } else {
                        assert(proposals@[k as int] == rooms@[i]);
                    }
                }
            }
        }
        k = k + 1;
    }
    rooms
}

/// Produces room geometry by rejection sampling: a number of random
/// rectangles are proposed and each is kept unless it overlaps or touches
/// one already kept. Drawing the rooms is left to later steps.
#[derive(Debug)]
pub struct SimpleMapBuilder {}

impl SimpleMapBuilder {
    pub fn new() -> (r: SimpleMapBuilder) {
        SimpleMapBuilder {}
    }

    /// Proposes up to `MAX_ROOMS` random rooms that fit the map (every
    /// proposal fits once the map is at least `MAX_SIZE + 2` on each side)
    /// and keeps those that do not overlap or touch an earlier kept room.
    pub fn build_map(&self, rng: &mut RandomNumberGenerator, build_data: &mut BuilderMap)
        requires
            old(build_data).wf(),
        ensures
            final(build_data).map == old(build_data).map,
            final(build_data).spawn_list == old(build_data).spawn_list,
            final(build_data).starting_position == old(build_data).starting_position,
            final(build_data).history == old(build_data).history,
            final(build_data).rooms matches Some(rooms) && rooms_valid(
                rooms@,
                old(build_data).map.width as int,
                old(build_data).map.height as int,
            ),
            final(build_data).rooms->Some_0@.len() <= MAX_ROOMS,
            exists|proposals: Seq<Rect>|
                {
                    &&& proposals.len() <= MAX_ROOMS
                    &&& forall|i: int|
                        0 <= i < proposals.len() ==> room_fits(
                            #[trigger] proposals[i],
                            old(build_data).map.width as int,
                            old(build_data).map.height as int,
                        )
                    &&& (old(build_data).map.width >= MAX_SIZE + 2 && old(build_data).map.height >= MAX_SIZE + 2)
                        ==> proposals.len() == MAX_ROOMS
                    &&& final(build_data).rooms->Some_0@ == #[trigger] kept_rooms(proposals, proposals.len())
                },
            old(build_data).map.width >= MAX_SIZE + 2 && old(build_data).map.height >= MAX_SIZE + 2
                ==> final(build_data).rooms->Some_0@.len() >= 1,
    {
        let width = build_data.map.width;
        let height = build_data.map.height;
        let mut proposals: Vec<Rect> = Vec::new();
        let mut attempt: usize = 0;
        while attempt < MAX_ROOMS
            invariant
                width == build_data.map.width,
                height == build_data.map.height,
                0 <= width,
                0 <= height,
                forall|i: int| 0 <= i < proposals@.len() ==> room_fits(#[trigger] proposals@[i], width as int, height as int),
                proposals@.len() <= attempt <= MAX_ROOMS,
                (width >= MAX_SIZE + 2 && height >= MAX_SIZE + 2) ==> proposals@.len() == attempt,
            decreases MAX_ROOMS - attempt,
        {
            let w = roll(rng, MAX_SIZE - MIN_SIZE + 1) + MIN_SIZE - 1;
            let h = roll(rng, MAX_SIZE - MIN_SIZE + 1) + MIN_SIZE - 1;
            if width - w - 1 >= 1 && height - h - 1 >= 1 {
                let x = roll(rng, width - w - 1) - 1;
                let y = roll(rng, height - h - 1) - 1;
                proposals.push(Rect::new(x, y, w, h));
            }
            attempt = attempt + 1;
        }
        let rooms = keep_rooms(&proposals);
        proof {
            if width >= MAX_SIZE + 2 && height >= MAX_SIZE + 2 {
                lemma_kept_nonempty(proposals@, proposals@.len());
            }
            assert forall|i: int| 0 <= i < rooms@.len() implies room_fits(#[trigger] rooms@[i], width as int, height as int) by {
                assert(proposed(proposals@, rooms@[i]));
                let j = choose|j: int| 0 <= j < proposals@.len() && proposals@[j] == rooms@[i];
                assert(room_fits(proposals@[j], width as int, height as int));
            }
            lemma_kept_len(proposals@, proposals@.len());
        }
        build_data.rooms = Some(rooms);
    }
}

proof fn lemma_kept_len(proposals: Seq<Rect>, k: nat)
    ensures
        kept_rooms(proposals, k).len() <= k,
    decreases k,
{
    if k > 0 {
        lemma_kept_len(proposals, (k - 1) as nat);
    }
}

} // verus!
