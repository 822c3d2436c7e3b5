//! Tiling of spatial transcript tables.
//!
//! A transcript table is cut into overlapping rectangular tiles. Control
//! probes are removed first, packed cell identifiers are decoded to plain
//! integers, and a tile that holds too few transcripts grows on all four
//! sides until it holds enough.

pub mod bounds;
pub mod cell_id;
pub mod error;
pub mod pipeline;
pub mod probe;
pub mod table;
pub mod text;
pub mod tile;

pub use crate::pipeline::run;
pub use crate::pipeline::Args;
