//! Scarlet's type layer and virtual machine.

pub mod entries;
pub mod names;
pub mod slots;
pub mod small;
pub mod syntax;
pub mod text;
pub mod type_def;
pub mod types;
pub mod vm;
