//! Tokens: the classified lexical units a scanner produces.

use vstd::prelude::*;
use vstd::string::*;

pub mod literal;
pub mod token_type;

use literal::{lit_wf, render_literal, Literal, LiteralV};
use token_type::{type_text, TokenType};

verus! {

/// Mathematical model of a [`Token`].
pub struct TokenV {
    pub token_type: TokenType,
    pub lexeme: Seq<char>,
    pub literal: LiteralV,
    pub line: nat,
}

/// An immutable record combining a lexical category, the exact source
/// substring that produced the token, an optional literal payload, and the
/// 1-based source line the token started on.  The lexeme is empty only for
/// the `EOF` token.
#[derive(Debug, PartialEq)]
pub struct Token {
    pub token_type: TokenType,
    pub lexeme: String,
    pub literal: Literal,
    pub line: u32,
}

impl View for Token {
    type V = TokenV;

    open spec fn view(&self) -> TokenV {
        TokenV {
            token_type: self.token_type,
            lexeme: self.lexeme@,
            literal: self.literal@,
            line: self.line as nat,
        }
    }
}

impl Clone for Token {
    fn clone(&self) -> (r: Self)
        ensures
            r@ == self@,
    {
        Token {
            token_type: self.token_type,
            lexeme: self.lexeme.clone(),
            literal: self.literal.clone(),
            line: self.line,
        }
    }
}

/// The models of a sequence of tokens.
pub open spec fn token_views(ts: Seq<Token>) -> Seq<TokenV> {
    ts.map_values(|t: Token| t@)
}

/// How a token renders for diagnostics: its category name, its lexeme and
/// its literal payload, separated by single spaces.
pub open spec fn render_token(t: TokenV) -> Seq<char> {
    type_text(t.token_type) + " "@ + t.lexeme + " "@ + render_literal(t.literal)
}

impl Token {
    /// Builds a token from its four parts.
    pub fn new(token_type: TokenType, lexeme: String, literal: Literal, line: u32) -> (r: Token)
        ensures
            r@ == (TokenV { token_type, lexeme: lexeme@, literal: literal@, line: line as nat }),
    {
        Token { token_type, lexeme, literal, line }
    }

    /// Renders the token for diagnostics, where a particular warning or
    /// error needs to show the token it concerns.
    pub fn to_string(&self) -> (r: String)
        requires
            lit_wf(self@.literal),
        ensures
            r@ == render_token(self@),
    {
        let mut r = self.token_type.name().to_owned();
        r.append(" ");
        r.append(self.lexeme.as_str());
        r.append(" ");
        let lit = self.literal.render();
        r.append(lit.as_str());
        r
    }
}

} // verus!
