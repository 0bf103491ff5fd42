//! A parser and in-memory document model for the figtree configuration
//! language: documents hold named nodes, which hold key/value attributes and
//! nested subnodes.  A hand-written lexer turns characters into tokens, a
//! context-stack pull-parser turns tokens into structural events, and a
//! builder turns events into a `Document` tree.

pub mod position;
pub use position::Position;
pub use position::MutablePosition;

pub mod utils;
pub use utils::CharReader;

pub mod lexutils;
pub use lexutils::Token;
pub use lexutils::TokenCollection;

pub mod lexer;
pub use lexer::LexToken;
pub use lexer::LexError;
pub use lexer::Lexer;

pub mod parser;
pub use parser::ParseError;
pub use parser::ParseEvent;
pub use parser::ParsedValue;
pub use parser::ParseContext;
pub use parser::Parser;

pub mod types;
pub use types::Value;
pub use types::Node;
pub use types::Document;
pub use types::Dict;
pub use types::List;

pub mod figtree;
pub use figtree::Figtree;
