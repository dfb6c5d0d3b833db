//! The simulation state: the entity store and the world generator.

pub mod base;
pub mod block;
pub mod entity;
pub mod generation;
pub mod placement;
pub mod player;
