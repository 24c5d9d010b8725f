//! Simulation core of a pixel-precise 2D platformer: a sparse collision
//! index over a bounded integer world, and the integer rules that the
//! physics and size-change steps apply to it.

pub mod collision_tree;
pub mod geometry;
pub mod sprite;
pub mod potion;
pub mod physics;
pub mod tiles;
pub mod scene;
pub mod level;
