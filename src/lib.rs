//! Reinterprets the bytes of a file as literal arrays of fixed-width unsigned
//! integers, ready to be spliced into Rust source text.
//!
//! The library is split into a small text toolkit, the element shapes and
//! their literal rendering, the argument grammar, and a streaming emitter
//! that consumes input in chunks.

pub mod text;
pub mod shape;
pub mod syntax;
pub mod stream;
pub mod laws;

pub use shape::{ByteOrder, Primitive, Type};
pub use stream::{expand, Emitter, SizeMismatch};
pub use text::escape_literal;
pub use syntax::{Input, ParseError, ParseErrorModel};
