//! Front end of the morph schema compiler: a lexer, a recursive-descent
//! parser, a chain of semantic analyzers and a generic dependency graph
//! engine for the packet description language.

pub mod error;
pub mod graph;
pub mod lexer;
pub mod parser;
pub mod semantics;
pub mod text;
pub mod token;

pub use text::capitalize;
pub use token::as_token_kind;
pub use token::Token;
pub use token::TokenKind;
pub use token::KeywordKind;
pub use token::OperatorKind;
pub use token::FieldType;
