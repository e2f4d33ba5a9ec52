//! Rule engine for a sliding-tile merge puzzle: a square grid of optional
//! numeric tiles that compacts and merges tiles when swiped in one of four
//! directions, and that can place a new tile at a random empty position.

pub mod cells;
pub mod data;
pub mod laws;
