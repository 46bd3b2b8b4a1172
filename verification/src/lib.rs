pub mod app;
pub mod app_stage;
pub mod effect_mechanics;
pub mod errors;
pub mod floor_configs;
pub mod floor_data;
pub mod floor_generator;
pub mod main_menu;
pub mod grid_math;
pub mod trie;
pub mod assets;
pub mod bitset;
pub mod completer;
pub mod editor;
pub mod tile_corners;
