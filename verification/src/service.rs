//! Services over the units of the world.

pub mod unit;
