//! A spatially indexed entity store and a lazy, chunk-by-chunk world generator.
//!
//! Positions are single-precision binary floating-point vectors. The library
//! holds them as IEEE 754 bit patterns and computes on them with integer
//! arithmetic only, so that every operation carries a proved contract.

pub mod assets;
pub mod game_loop;
pub mod geometry;
pub mod hashing;
pub mod model;
pub mod random;
pub mod renderer;
pub mod scalar;
pub mod service;
pub mod slabs;
