//! The type layer.

pub mod annotation;
pub mod arena;
pub mod arms;
pub mod covered;
pub mod environment;
pub mod exhaustiveness;
pub mod fun_type;
pub mod generalize;
pub mod hydrator;
pub mod infer;
pub mod instance;
pub mod letters;
pub mod meant;
pub mod naming;
pub mod node;
pub mod pool;
pub mod quantified;
pub mod report;
pub mod resolve;
pub mod resolved;
pub mod rewrite;
pub mod shape;
pub mod suggest;
pub mod term;
pub mod type_env;
pub mod unify;
pub mod unrolled;
pub mod usefulness;
pub mod written;
