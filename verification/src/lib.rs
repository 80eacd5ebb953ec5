//! An authoritative multiplayer maze: seeded generation and validation of
//! mazes, breadth-first path distances over their floor tiles, the fixed
//! legacy level table, and the server's admission and naming rules.

pub mod carving;
pub mod levels;
pub mod maze;
pub mod paths;
pub mod rng;
pub mod session;
pub mod sync;
