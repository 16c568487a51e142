//! A sliding-merge puzzle engine on a fixed 4×4 board: line shifting with a
//! single merge per line, weighted initial content, biased next tiles,
//! terminal-state detection, scoring and one level of undo.

pub mod random;
pub mod series;
pub mod distribution;
pub mod buckets;
pub mod dimension;
pub mod direction;
pub mod line;
pub mod grid;
pub mod matrix_any;
pub mod tile;
pub mod state;
