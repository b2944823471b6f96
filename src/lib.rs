//! Procedural level generation: a grid of classified tiles, generation
//! algorithms that carve and decorate it, reachability and placement
//! utilities, spawn planning, and a builder chain that composes them.
pub mod tile_type;
pub mod map;
pub mod rng;
pub mod grid;
pub mod reach;
pub mod rect;
pub mod builder_map;
pub mod area_based;
pub mod cellular_automata;
pub mod room_based;
pub mod spawner;
pub mod limestone_cavern;
pub mod drunkard;
pub mod systems;
pub mod raws;
pub mod connectivity;
pub mod waveform_collapse;
pub mod map_builders;
pub mod prefab_builder;
