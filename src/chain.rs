use bracket_random::prelude::RandomNumberGenerator;
use vstd::prelude::*;

use crate::builder_map::{BuildError, BuilderMap};
use crate::cellular_automata::{cave_run, cave_of, lemma_cave_has_no_stairs, CellularAutomataBuilder};
use crate::map::{idx_of, in_bounds, TileType};
use crate::prefab_builder::PrefabBuilder;
use crate::reach::reachable;
use crate::room_draw::RoomDrawer;
use crate::simple_map::{rooms_valid, SimpleMapBuilder};
use crate::exits::{centre_row_has_floor, centre_start, exit_placed};
use crate::transforms::{area_starting_position, distant_exit, voronoi_spawning};
use crate::waveform_collapse::WaveformCollapseBuilder;

verus! {

/// Spawn regions that a generated level is divided into.
pub const VORONOI_SEEDS: usize = 32;

/// The generator that produces a chain's first draft.
#[derive(Debug)]
pub enum InitialBuilder {
    CellularAutomata(CellularAutomataBuilder),
    SimpleMap(SimpleMapBuilder),
    /// A prefab and its row-major glyph grid with its width and height.
    Prefab(PrefabBuilder, Vec<char>, usize, usize),
}

/// A step that reworks the draft.
#[derive(Debug)]
pub enum MetaBuilder {
    RoomDrawer,
    AreaStartingPosition,
    DistantExit,
    VoronoiSpawning { seeds: usize },
    WaveformCollapse,
}

/// One initial generator followed by meta steps, run in order over one
/// shared build context.
#[derive(Debug)]
pub struct BuilderChain {
    pub starter: Option<InitialBuilder>,
    pub builders: Vec<MetaBuilder>,
    pub built: bool,
    pub build_data: BuilderMap,
}

impl BuilderChain {
    pub open spec fn has_starter(&self) -> bool {
        self.starter is Some
    }

    pub open spec fn meta_count(&self) -> nat {
        self.builders@.len()
    }

    pub open spec fn is_built(&self) -> bool {
        self.built
    }

    /// A chain with no steps around a fresh all-wall map.
    pub fn new(new_depth: i32, width: i32, height: i32) -> (r: BuilderChain)
        requires
            0 < width,
            0 < height,
            width * height < i32::MAX,
        ensures
            !r.has_starter(),
            r.meta_count() == 0,
            !r.is_built(),
            r.build_data.wf(),
            r.build_data.map.width == width,
            r.build_data.map.height == height,
            r.build_data.map.depth == new_depth,
    {
        BuilderChain {
            starter: None,
            builders: Vec::new(),
            built: false,
            build_data: BuilderMap::new(new_depth, width, height),
        }
    }

    /// Sets the initial generator; a chain takes only one.
    pub fn start_with(&mut self, starter: InitialBuilder) -> (r: Result<(), BuildError>)
        ensures
            final(self).build_data == old(self).build_data,
            final(self).meta_count() == old(self).meta_count(),
            final(self).is_built() == old(self).is_built(),
            final(self).has_starter(),
            old(self).has_starter() <==> r == Err::<(), BuildError>(BuildError::StarterAlreadySet),
            old(self).has_starter() ==> final(self).starter == old(self).starter,
            !old(self).has_starter() ==> final(self).starter == Some(starter),
            final(self).builders == old(self).builders,
            r is Ok <==> !old(self).has_starter(),
    {
        if self.starter.is_some() {
            return Err(BuildError::StarterAlreadySet);
        }
        self.starter = Some(starter);
        Ok(())
    }

    /// Appends a meta step.
    pub fn with(&mut self, builder: MetaBuilder)
        ensures
            final(self).build_data == old(self).build_data,
            final(self).meta_count() == old(self).meta_count() + 1,
            final(self).builders@ == old(self).builders@.push(builder),
            final(self).starter == old(self).starter,
            final(self).has_starter() == old(self).has_starter(),
            final(self).is_built() == old(self).is_built(),
    {
        self.builders.push(builder);
    }

    /// Runs the initial generator, then every meta step in order, stopping
    /// at the first step that fails and passing its error on.
    pub fn build_map(&mut self, rng: &mut RandomNumberGenerator) -> (r: Result<(), BuildError>)
        requires
            old(self).build_data.wf(),
            old(self).build_data.map.width > 0,
            old(self).build_data.map.height > 0,
            old(self).build_data.map.width * old(self).build_data.map.height < i32::MAX,
        ensures
            final(self).build_data.wf(),
            final(self).build_data.map.width == old(self).build_data.map.width,
            final(self).build_data.map.height == old(self).build_data.map.height,
            !old(self).has_starter() <==> r == Err::<(), BuildError>(BuildError::NoInitialBuilder),
            final(self).is_built() <==> (r is Ok || old(self).is_built()),
            (old(self).starter matches Some(InitialBuilder::Prefab(_, glyphs, gw, gh)) && glyphs@.len() != gw * gh)
                <==> r == Err::<(), BuildError>(BuildError::TemplateSize),
            (old(self).meta_count() == 0 && old(self).starter matches Some(InitialBuilder::SimpleMap(_))) ==> r is Ok
                && final(self).build_data.map == old(self).build_data.map && (final(self).build_data.rooms matches Some(
                rooms) && rooms_valid(rooms@, old(self).build_data.map.width as int, old(self).build_data.map.height as int)),
            (old(self).meta_count() == 0 && old(self).starter matches Some(InitialBuilder::CellularAutomata(_))) ==> r is Ok
                && exists|rolls: Seq<i32>|
                rolls.len() == old(self).build_data.map.tiles@.len() && (forall|i: int|
                    0 <= i < rolls.len() ==> 1 <= #[trigger] rolls[i] <= 100) && #[trigger] cave_run(
                    old(self).build_data,
                    final(self).build_data,
                    rolls,
                ),
    {
        let width = self.build_data.map.width;
        let height = self.build_data.map.height;
        let ghost bd0 = self.build_data;
        let first = match &self.starter {
            None => {
                return Err(BuildError::NoInitialBuilder);
            },
            Some(s) => match s {
                InitialBuilder::CellularAutomata(b) => {
                    b.build_map(rng, &mut self.build_data);
                    Ok(())
                },
                InitialBuilder::SimpleMap(b) => {
                    b.build_map(rng, &mut self.build_data);
                    Ok(())
                },
                InitialBuilder::Prefab(b, glyphs, gw, gh) => {
                    match gw.checked_mul(*gh) {
                        Some(count) => if count == glyphs.len() {
                            let res = b.build_map(&mut self.build_data, glyphs, *gw, *gh);
                            assert(res != Err::<(), BuildError>(BuildError::TemplateSize));
                            res
                        } else {
                            Err(BuildError::TemplateSize)
                        },
                        None => {
                            let count = glyphs.len();
                            assert(glyphs@.len() == count);
                            Err(BuildError::TemplateSize)
                        },
                    }
                },
            },
        };
        if first.is_err() {
            return first;
        }
        let ghost bd1 = self.build_data;
        let mut i: usize = 0;
        while i < self.builders.len()
            invariant
                self.build_data.wf(),
                self.build_data.map.width == width,
                self.build_data.map.height == height,
                width == old(self).build_data.map.width,
                height == old(self).build_data.map.height,
                width > 0,
                height > 0,
                width * height < i32::MAX,
                self.built == old(self).built,
                old(self).has_starter(),
                self.builders == old(self).builders,
                self.builders@.len() == 0 ==> self.build_data == bd1,
                !(old(self).starter matches Some(InitialBuilder::Prefab(_, glyphs, gw, gh)) && glyphs@.len() != gw * gh),
                i <= self.builders@.len(),
            decreases self.builders@.len() - i,
        {
            let step = match &self.builders[i] {
                MetaBuilder::RoomDrawer => {
                    let mut d = RoomDrawer::new();
                    d.build_map(&mut self.build_data)
                },
                MetaBuilder::AreaStartingPosition => area_starting_position(&mut self.build_data),
                MetaBuilder::DistantExit => match distant_exit(&mut self.build_data) {
                    Ok(_) => Ok(()),
                    Err(e) => Err(e),
                },
                MetaBuilder::VoronoiSpawning { seeds } => voronoi_spawning(&mut self.build_data, *seeds, rng),
                MetaBuilder::WaveformCollapse => {
                    let mut w = WaveformCollapseBuilder::new();
                    w.build_map(rng, &mut self.build_data)
                },
            };
            if step.is_err() {
                return step;
            }
            i = i + 1;
        }
        self.built = true;
        Ok(())
    }

    /// The spawn list, once the chain has been built.
    pub fn spawn_entries(&self) -> (r: Result<&Vec<(usize, String)>, BuildError>)
        ensures
            self.is_built() ==> (r matches Ok(s) && s == &self.build_data.spawn_list),
            !self.is_built() ==> r == Err::<&Vec<(usize, String)>, BuildError>(BuildError::NotBuilt),
    {
        if self.built {
            Ok(&self.build_data.spawn_list)
        } else {
            Err(BuildError::NotBuilt)
        }
    }
}

/// The chain used for ordinary levels: a cave, a start near the centre, the
/// exit at the far end, and spawn regions.
pub fn level_builder(new_depth: i32, width: i32, height: i32) -> (r: BuilderChain)
    requires
        0 < width,
        0 < height,
        width * height < i32::MAX,
    ensures
        r.starter matches Some(InitialBuilder::CellularAutomata(_)),
        r.builders@.len() == 3,
        r.builders@[0] matches MetaBuilder::AreaStartingPosition,
        r.builders@[1] matches MetaBuilder::DistantExit,
        r.builders@[2] matches MetaBuilder::VoronoiSpawning { seeds } && seeds == VORONOI_SEEDS,
        r.has_starter(),
        r.meta_count() == 3,
        !r.is_built(),
        r.build_data.wf(),
        r.build_data.map.width == width,
        r.build_data.map.height == height,
        r.build_data.map.depth == new_depth,
{
    let mut chain = BuilderChain::new(new_depth, width, height);
    let _ = chain.start_with(InitialBuilder::CellularAutomata(CellularAutomataBuilder::new()));
    chain.with(MetaBuilder::AreaStartingPosition);
    chain.with(MetaBuilder::DistantExit);
    chain.with(MetaBuilder::VoronoiSpawning { seeds: VORONOI_SEEDS });
    chain
}

/// The all-wall tiles of a fresh `w` by `h` map.
pub open spec fn all_walls(w: int, h: int) -> Seq<TileType> {
    Seq::new((w * h) as nat, |i: int| TileType::Wall)
}

/// What `generate_level` yields for given fill rolls: it succeeds exactly
/// when the cave has a Floor tile on the left half of its centre row; the
/// start is the first such tile walking left from the centre, and the map is
/// the cave culled from the start with DownStairs on a farthest tile.
pub open spec fn level_from_rolls(rolls: Seq<i32>, w: int, h: int, r: Result<BuilderMap, BuildError>) -> bool {
    let cave = cave_of(all_walls(w, h), w, h, rolls);
    &&& (r is Ok <==> centre_row_has_floor(cave, w, h))
    &&& r matches Ok(ctx) ==> (ctx.starting_position matches Some(p) && centre_start(cave, w, h, p.x as int, p.y as int)
        && exit_placed(cave, ctx.map.tiles@, w, h, idx_of(w, p.x as int, p.y as int)))
}

/// Generates a level: a cave, a start near the centre, DownStairs on the
/// reachable tile farthest from it, and spawn regions. On success the
/// stairs are reachable from the start on the finished map.
pub fn generate_level(new_depth: i32, rng: &mut RandomNumberGenerator, width: i32, height: i32) -> (r: Result<BuilderMap, BuildError>)
    requires
        0 < width,
        0 < height,
        width * height < i32::MAX,
    ensures
        r is Err ==> r == Err::<BuilderMap, BuildError>(BuildError::NoStartingTile),
        exists|rolls: Seq<i32>|
            rolls.len() == width * height && (forall|i: int| 0 <= i < rolls.len() ==> 1 <= #[trigger] rolls[i] <= 100)
                && #[trigger] level_from_rolls(rolls, width as int, height as int, r),
        r matches Ok(ctx) ==> {
            &&& ctx.wf()
            &&& ctx.map.width == width
            &&& ctx.map.height == height
            &&& ctx.map.depth == new_depth
            &&& ctx.starting_position matches Some(p)
            &&& in_bounds(width as int, height as int, p.x as int, p.y as int)
            &&& exists|e: int|
                0 <= e < ctx.map.tiles@.len() && ctx.map.tiles@[e] == TileType::DownStairs && #[trigger] reachable(
                    ctx.map.tiles@,
                    width as int,
                    height as int,
                    idx_of(width as int, p.x as int, p.y as int),
                    e,
                ) && (forall|i: int|
                    0 <= i < ctx.map.tiles@.len() && #[trigger] ctx.map.tiles@[i] == TileType::DownStairs ==> i == e)
        },
{
    let mut ctx = BuilderMap::new(new_depth, width, height);
    let cave = CellularAutomataBuilder::new();
    let ghost walls = ctx.map.tiles@;
    assert(walls =~= all_walls(width as int, height as int));
    cave.build_map(rng, &mut ctx);
    let ghost rolls = choose|rolls: Seq<i32>|
        rolls.len() == walls.len() && (forall|i: int| 0 <= i < rolls.len() ==> 1 <= #[trigger] rolls[i] <= 100)
            && ctx.map.tiles@ == cave_of(walls, width as int, height as int, rolls);
    proof {
        lemma_cave_has_no_stairs(walls, width as int, height as int, rolls);
    }
    let ghost cave_tiles = ctx.map.tiles@;
    match area_starting_position(&mut ctx) {
        Ok(()) => {},
        Err(e) => {
            assert(level_from_rolls(rolls, width as int, height as int, Err(e)));
            return Err(e);
        },
    }
    let exit = match distant_exit(&mut ctx) {
        Ok(e) => e,
        Err(_) => {
            return Err(BuildError::NoStartingTile);
        },
    };
    let ghost tiles = ctx.map.tiles@;
    let _ = voronoi_spawning(&mut ctx, VORONOI_SEEDS, rng);
    proof {
        assert(ctx.map.tiles@ == tiles);
        assert(tiles[exit as int] == TileType::DownStairs);
        let p = ctx.starting_position->Some_0;
        assert(exit_placed(cave_tiles, tiles, width as int, height as int, idx_of(width as int, p.x as int, p.y as int)));
        assert(level_from_rolls(rolls, width as int, height as int, Ok(ctx)));
        assert forall|i: int| 0 <= i < tiles.len() && #[trigger] tiles[i] == TileType::DownStairs implies i == exit by {
            if i != exit {
                assert(cave_tiles[i] != TileType::DownStairs);
            }
        }
    }
    Ok(ctx)
}

} // verus!
