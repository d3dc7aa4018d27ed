//! Lexical and expression-syntax front end of a small dynamically-typed
//! scripting language.
//!
//! The [`scanner::Scanner`] turns raw source text into a stream of classified
//! [`scanner::token::Token`]s, and the [`parser::Parser`] turns a prefix of
//! that stream into an [`expression::Expression`] tree by recursive descent
//! over a fixed precedence grammar.  Diagnostics are accumulated in an
//! explicit [`lox::Lox`] collector instead of ambient global state.

pub mod digits;
pub mod expression;
pub mod lox;
pub mod parser;
pub mod scanner;

pub use crate::expression::Expression;
pub use crate::lox::Diagnostic;
pub use crate::lox::Lox;
pub use crate::parser::ParseError;
pub use crate::parser::Parser;
pub use crate::scanner::token::literal::Literal;
pub use crate::scanner::token::literal::NumberValue;
pub use crate::scanner::token::token_type::TokenType;
pub use crate::scanner::token::Token;
pub use crate::scanner::Scanner;
