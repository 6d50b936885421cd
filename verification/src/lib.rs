//! Rules engine of a grid-based block-placement puzzle: polyomino shapes with
//! integer-matrix rotation, a fixed-size occupancy board with collision
//! detection and line clearing, a supply generator that only offers placeable
//! shapes, and a session that ties placement and scoring together.

pub mod blast;
pub mod block;
pub mod canvas;
pub mod game;
