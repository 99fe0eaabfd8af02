//! A compiler for a compact dialogue-script notation.
//!
//! The notation packs, per comma-separated statement: an optional boolean
//! condition made of toggleable facts, probability checks and function calls;
//! an output value; and an optional list of side-effecting calls.  The
//! [`parser`] module turns source text into a [`parser::Ast`] of zero-copy
//! spans, and the [`rebuild`] module lowers that tree into Lua source text
//! together with a position map over the generated output.

pub mod parser;
pub mod rebuild;

pub use parser::Ast;
pub use parser::Block;
pub use parser::Condition;
pub use parser::Effect;
pub use parser::ParseError;
pub use parser::ParseErrorKind;
pub use parser::Slice;
pub use parser::Statement;
