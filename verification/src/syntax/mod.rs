//! Language-agnostic lossless syntax trees: an immutable green layer,
//! offset-carrying red cursors, a builder for recursive-descent parsers,
//! and the typed-view contract. Kinds are opaque per-language `u16`
//! spaces; core interprets none of them. Handles are `Rc`-based.

pub mod green;
pub mod builder;
pub mod red;
pub mod line_index;
pub mod line_bytes;
pub mod ast;
pub mod sink;

pub use ast::{child, children, token, AstNode};
pub use builder::{Checkpoint, TreeBuilder};
pub use green::{GreenElement, GreenNode, GreenToken, SyntaxKind};
pub use line_index::TextLineIndex;
pub use red::{debug_dump, SyntaxElement, SyntaxNode, SyntaxToken, TextRange};
pub use sink::{layout, EndRule, GreenSink, LayoutToken, SigLayout, TokenClass};
