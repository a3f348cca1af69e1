//! A finite-model search engine for first-order theories over many-sorted
//! relational vocabularies.

pub mod bitops;
pub mod bitvec;
pub mod buffer;
pub mod compute;
pub mod counting;
pub mod ground;
pub mod shape;
mod shared;
pub mod solver;
pub mod strided;
pub mod theory;
pub mod tokenizer;
