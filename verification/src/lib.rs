//! A streaming CSV codec: an incremental, allocation-free writer that turns
//! field data into correctly quoted CSV bytes under caller-supplied output
//! buffers, and a record decoder that maps already-tokenized fields back into
//! typed values, with automatic type inference when the target is untyped.
//!
//! The crate also carries a few small verified algorithm exercises (memoized
//! Fibonacci, longest common subsequence, coin change, quicksort, tic-tac-toe)
//! that share the repository with the codec.

pub mod coins;
pub mod decode;
pub mod encode;
pub mod fib;
pub mod lcs;
pub mod numeric;
pub mod sort;
pub mod tictactoe;
pub mod writer;
