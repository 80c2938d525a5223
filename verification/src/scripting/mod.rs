//! What scripts do with a tree: cursors, comments, and the files they name.

pub mod change;
pub mod comment;
pub mod cursor;
pub mod file;
pub mod fs;
pub mod lint;
pub mod place;
pub mod quote;

