//! The cores of a learned index over sorted integer keys.
//!
//! `FAST` is a read-only search tree laid out in pages of cache lines. It is
//! built once from a sorted key array and a value array of the same length,
//! and answers bracketing lookups: for a query it returns the value of the
//! last entry that the query has reached and the value of the entry after it.
//!
//! `stream` is the state machine that a piecewise linear regression over a
//! stream of points runs; the regression itself works in floating point and
//! stands outside this library.

pub mod descent;
pub mod error;
pub mod key;
pub mod laws;
pub mod layers;
pub mod model;
pub mod search;
pub mod shape;
pub mod stream;
pub mod tree;

pub use error::FastError;
pub use key::FastKey;
pub use tree::FAST;
