//! What of drawing is arithmetic on integers.

pub mod block;
