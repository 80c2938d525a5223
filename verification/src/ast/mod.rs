//! Typed views of the syntax tree, and the values that scalars stand for.

pub mod collections;
pub mod comment;
pub mod decode;
pub mod entries;
pub mod nodes;
pub mod scalar;
pub mod trivia;
pub mod value;
