//! The search for finite models: the assignment with its trail, the clauses
//! with their evaluation buffers, the axioms of existence, and the driver
//! that propagates, decides and backtracks.

pub mod clause;
pub mod complete;
pub mod course;
pub mod domain;
pub mod driver;
pub mod error;
pub mod exist;
pub mod sound;
pub mod state;
pub mod text;
