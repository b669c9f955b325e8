//! Parsing, conversion and normalization of sequence-coordinate identifiers.
//!
//! An identifier names a sequence, optionally prefixed by an assembly, and a chain
//! of nested sub-ranges with strand orientation. Two legacy grammars are detected
//! and converted to the canonical grammar; canonical text is parsed strictly; and a
//! chain of nested ranges is folded into the single absolute range it denotes.
pub mod types;
pub mod text;
pub mod tail;
pub mod head;
pub mod chain;
pub mod convert;
pub mod parse;
pub mod normalize;
pub mod identifier;
pub mod laws;

pub use types::{IDVersion, IdError, IdView, Identifier, Range};
