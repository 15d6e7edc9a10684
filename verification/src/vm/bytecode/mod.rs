//! Values of the bytecode machine.

pub mod bits;
pub mod equal;
pub mod hamt;
pub mod hash;
pub mod header;
pub mod iter;
pub mod merge;
pub mod norm;
pub mod object;
pub mod release;
pub mod seq;
pub mod shape;
pub mod sound;
pub mod tree;
pub mod trie;
pub mod value;
pub mod weight;
pub mod word;
