//! Concrete syntax trees: the arena that stores them, the stack machine that
//! builds them and the handles that read them.

pub mod builder;
pub mod layout;
pub mod node;
pub mod raw;
pub mod tree;
