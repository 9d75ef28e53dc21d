//! A grammar-agnostic framework for concrete syntax trees: a token-stream
//! builder, a stack-machine tree builder and an arena-backed tree with lazily
//! computed spans, together with a few small grammars built on top of it.

pub mod ast;
pub mod chars;
pub mod codegen;
pub mod conform;
pub mod decimal;
pub mod golden;
pub mod lazy_cell;
pub mod node_type;
pub mod pretty;
pub mod pyt;
pub mod range;
pub mod ring_buffer;
pub mod rst;
pub mod runtime;
pub mod target;
pub mod tiny;
pub mod token;

pub use golden::{check_parser, check_tokenizer};
pub use lazy_cell::LazyCell;
pub use node_type::{error, whitespace, NodeType};
pub use range::Range;
pub use rst::builder::RstBuilder;
pub use rst::node::{ChildrenIterator, Node, RstFile};
pub use rst::tree::Tree;
pub use token::{RawToken, Token, TokenBuilder, TokenFile};
