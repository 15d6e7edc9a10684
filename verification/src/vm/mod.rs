//! The virtual machine: its values, how they are laid out, shared, compared,
//! hashed and built, and the programs that run on them.

pub mod bytecode;
pub mod rrb;
pub mod run;
pub mod value;
pub mod record;
pub mod heap;
pub mod cells;
pub mod nodes;
pub mod tree;
pub mod join;
pub mod sound;
pub mod array;
pub mod bigint;
pub mod binary;
pub mod bitio;
pub mod meaning;
pub mod eq;
pub mod sip;
pub mod hash;
pub mod feed;
pub mod core_ir;
pub mod instr;
pub mod code;
pub mod layout;
pub mod scene;
pub mod compute;
pub mod list;
pub mod compute_text;
pub mod compute_array;
pub mod exec;
pub mod sense;
pub mod arrays;
pub mod builtins;
pub mod eval;
pub mod runs;
pub mod trace;
pub mod float;
pub mod host;
