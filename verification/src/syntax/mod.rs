//! The concrete syntax tree.

pub mod blanks;
pub mod clear;
pub mod green;
pub mod kind;
pub mod known;
pub mod node;
pub mod path;
pub mod tree;
pub mod tree_utils;
pub mod walk;
