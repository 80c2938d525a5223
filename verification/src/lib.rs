//! Lossless YAML: a lexer, a parser that keeps every byte of its input, and
//! the edits, readers and fixers that work on the resulting syntax tree.

pub mod ast;
pub mod builder;
pub mod debug;
pub mod edit;
pub mod error;
pub mod fixers;
pub mod grammar;
pub mod laws;
pub mod lexer;
pub mod parser;
pub mod scripting;
pub mod syntax;
pub mod text;

pub use builder::Yaml;
pub use error::ParseError;
pub use parser::{parse, parse_recover};
pub use syntax::kind::{SyntaxKind, YamlLang};
pub use syntax::node::{SyntaxElement, SyntaxNode, SyntaxToken};
pub use syntax::tree::SyntaxTree;
