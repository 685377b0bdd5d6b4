use vstd::prelude::*;

use crate::map::{Position, TileMap};
use crate::rect::Rect;

verus! {

/// Whether `a` is a prefix of `b`.
pub open spec fn is_prefix(a: Seq<TileMap>, b: Seq<TileMap>) -> bool {
    a.len() <= b.len() && b.subrange(0, a.len() as int) == a
}

pub proof fn lemma_prefix_trans(a: Seq<TileMap>, b: Seq<TileMap>, c: Seq<TileMap>)
    requires
        is_prefix(a, b),
        is_prefix(b, c),
    ensures
        is_prefix(a, c),
{
    assert(c.subrange(0, a.len() as int) =~= b.subrange(0, a.len() as int));
}

/// Why a build step could not run.
#[derive(Clone, Copy, Debug, PartialEq, Eq, Structural)]
pub enum BuildError {
    /// A step that draws rooms ran before any step produced rooms.
    NoRooms,
    /// A step needs a starting position and none has been set.
    NoStartingPosition,
    /// No passable tile was found for the starting position.
    NoStartingTile,
    /// A template does not fit the map it is applied to.
    TemplateSize,
    /// A template sets the start but some DownStairs cannot be reached from
    /// it.
    ExitUnreachable,
    /// The map is too small for the step.
    MapTooSmall,
    /// The map is too large for the step's bookkeeping to fit in memory
    /// indices.
    MapTooLarge,
    /// The chain has no initial generator.
    NoInitialBuilder,
    /// The Wave Function Collapse solver failed on every attempt.
    SolverExhausted,
    /// A chain was given a second initial generator.
    StarterAlreadySet,
    /// Spawns were asked for before the chain was built.
    NotBuilt,
}

/// The state that the steps of one generation run share: the working map,
/// where the player starts, the rooms and spawns placed so far, and a
/// history of snapshots.
#[derive(Debug)]
pub struct BuilderMap {
    pub spawn_list: Vec<(usize, String)>,
    pub map: TileMap,
    pub starting_position: Option<Position>,
    pub rooms: Option<Vec<Rect>>,
    pub history: Vec<TileMap>,
    /// Floor tiles grouped into spawn regions, each with its region number.
    pub spawn_regions: Vec<(usize, Vec<usize>)>,
}

impl BuilderMap {
    pub open spec fn wf(&self) -> bool {
        self.map.wf()
    }

    /// A fresh context around an all-wall map.
    pub fn new(new_depth: i32, width: i32, height: i32) -> (r: BuilderMap)
        requires
            0 <= width,
            0 <= height,
            width * height <= usize::MAX,
        ensures
            r.wf(),
            r.map.width == width,
            r.map.height == height,
            r.map.depth == new_depth,
            forall|i: int| 0 <= i < r.map.tiles@.len() ==> r.map.tiles@[i] == crate::map::TileType::Wall,
            r.spawn_list@.len() == 0,
            r.starting_position is None,
            r.rooms is None,
            r.history@.len() == 0,
            r.spawn_regions@.len() == 0,
    {
        BuilderMap {
            spawn_list: Vec::new(),
            map: TileMap::new(new_depth, width, height),
            starting_position: None,
            rooms: None,
            history: Vec::new(),
            spawn_regions: Vec::new(),
        }
    }

    /// Appends a deep copy of the current map, fully revealed, to the history.
    pub fn take_snapshot(&mut self)
        requires
            old(self).wf(),
        ensures
            final(self).map == old(self).map,
            final(self).spawn_list == old(self).spawn_list,
            final(self).starting_position == old(self).starting_position,
            final(self).rooms == old(self).rooms,
            final(self).spawn_regions == old(self).spawn_regions,
            final(self).history@.len() == old(self).history@.len() + 1,
            final(self).history@.subrange(0, old(self).history@.len() as int) == old(self).history@,
            final(self).history@.last().tiles@ == old(self).map.tiles@,
            final(self).history@.last().width == old(self).map.width,
            final(self).history@.last().height == old(self).map.height,
            final(self).history@.last().depth == old(self).map.depth,
            final(self).history@.last().visible_tiles@ == old(self).map.visible_tiles@,
            final(self).history@.last().wf(),
            forall|i: int|
                0 <= i < final(self).history@.last().revealed_tiles@.len()
                    ==> #[trigger] final(self).history@.last().revealed_tiles@[i],
    {
        let snapshot = self.map.revealed_copy();
        self.history.push(snapshot);
        proof {
            assert(self.history@.subrange(0, old(self).history@.len() as int) =~= old(self).history@);
        }
    }
}

} // verus!
