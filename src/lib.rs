//! Procedural level generation: a tile-grid model, reachability and region
//! analysis, initial generators, meta transformers, a Wave Function Collapse
//! solver, and a builder chain that composes them.

pub mod builder_map;
pub mod cellular_automata;
pub mod chain;
pub mod exits;
pub mod map;
pub mod prefab_builder;
pub mod random;
pub mod reach;
pub mod rect;
pub mod room_draw;
pub mod simple_map;
pub mod transforms;
pub mod voronoi;
pub mod waveform_collapse;
pub mod wfc_common;
pub mod wfc_solver;

pub use builder_map::{BuildError, BuilderMap};
pub use cellular_automata::CellularAutomataBuilder;
pub use chain::{generate_level, level_builder, BuilderChain, InitialBuilder, MetaBuilder};
pub use map::{Position, TileMap, TileType};
pub use prefab_builder::{HorizontalPlacement, PrefabBuilder, PrefabMode, PrefabSection, VerticalPlacement};
pub use rect::Rect;
pub use room_draw::RoomDrawer;
pub use simple_map::SimpleMapBuilder;
pub use waveform_collapse::WaveformCollapseBuilder;
