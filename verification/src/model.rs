//! The units of the world.

pub mod unit;
