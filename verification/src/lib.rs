//! A lazy tokenizer for an S-expression syntax whose atoms are views into the
//! text they were read from.

pub mod adapter;
pub mod chars;
pub mod grammar;
pub mod laws;
pub mod number;
pub mod parser;
pub mod render;
pub mod scan;
pub mod source;

pub use adapter::AtomIter;
pub use parser::{Atom, LispIter};
