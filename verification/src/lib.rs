//! Tokenization and parsing of source code into syntax trees.
//!
//! A text is cut into words, a tokenizer turns the words into tokens, and a
//! parser turns the tokens into a syntax tree. Functions that the source
//! invokes are found in a scope and parse their own bodies.

pub mod func;
pub mod parse_laws;
pub mod parsing;
pub mod stream;
pub mod stream_laws;
pub mod syntax;
pub mod text;
pub mod token_laws;
pub mod tokens;

pub use func::{BodyTokens, Function, Scope};
pub use parsing::{parse_body, try_parse_body, ParseError, ParseResult, Parser};
pub use stream::{FuncTokens, TokenStream};
pub use syntax::{Expression, FuncCall, FuncHeader, Ident, Node, SyntaxTree, Token};
pub use tokens::Tokens;
