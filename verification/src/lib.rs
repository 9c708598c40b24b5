//! A cardinality-estimation sketch: a fixed-size structure that approximates
//! the number of distinct elements seen in a stream, using sub-linear memory.
//!
//! A sketch owns `2^p` one-byte registers, where `p` is the precision chosen
//! at construction. Each added item is hashed to 64 bits; the top `p` bits
//! select a register and the remaining bits yield a "rank" (one past the
//! position of their lowest set bit). A register keeps the maximum rank it
//! has seen. The estimator combines the registers through a harmonic mean
//! with small-range and large-range corrections, all in fixed-point integer
//! arithmetic so that every step carries a proved contract. Sketches of equal
//! precision merge by register-wise maximum, which estimates the union of the
//! two streams, and a sketch round-trips through a two-byte header plus one
//! byte per register.

pub mod bits;
pub mod codec;
pub mod error;
pub mod estimator;
pub mod hashing;
pub mod sketch;

pub use bits::{get_first_x_bits, leftmost_pos};
pub use error::SketchError;
pub use sketch::Sketch;
