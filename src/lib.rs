//! Solvers for six daily puzzles. The centre is the staged range remapper of the
//! almanac: values, or whole ranges of values, pushed through seven mapping
//! tables without walking the ranges value by value.
pub mod text;
pub mod rules;
pub mod interval;
pub mod remap;
pub mod pipeline;
pub mod parse;
pub mod boat_race;
pub mod calibration;
pub mod cube_game;
pub mod schematic;
pub mod scratchcards;
