//! Binary floating point, carried out on bit patterns.
//!
//! Every operation is correctly rounded, so a result is a fact about integers
//! that a contract can state and a proof can use. [`F32`] and [`F64`] are the
//! two types the rest of the library computes with.

pub mod double;
pub mod errors;
pub mod facts;
pub mod model;
pub mod raw;
pub mod root;
pub mod round;
pub mod single;
pub mod whole;

pub use double::F64;
pub use single::F32;
