//! Game-session core for a two-player naval board game played on a
//! 10x10 grid: fleet placement, shot resolution, sunk detection,
//! board rendering, coordinate parsing, and the shared session state
//! machine that arbitrates turns and detects victory.

pub mod board;
pub mod parse;
pub mod render;
pub mod rng;
pub mod session;
pub mod sunk;
