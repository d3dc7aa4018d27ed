//! The parser: recursive descent over a fixed precedence expression
//! grammar.
//!
//! The grammar, precedence lowest to highest, each binary rule
//! left-associative:
//!
//! ```text
//! expression -> equality
//! equality   -> comparison ( ("!=" | "==") comparison )*
//! comparison -> term ( (">" | ">=" | "<" | "<=") term )*
//! term       -> factor ( ("-" | "+") factor )*
//! factor     -> unary ( ("/" | "*") unary )*
//! unary      -> ("!" | "-") unary | primary
//! primary    -> NUMBER | STRING | "true" | "false" | "nil"
//!            | "(" expression ")"
//! ```
//!
//! Each rule is modelled by a specification function over the token
//! sequence and a cursor; the executable [`Parser`] is proved to return
//! exactly the tree, the cursor position and the diagnostics of that
//! model.

use vstd::prelude::*;
use vstd::string::*;

use crate::expression::{ExprV, Expression};
use crate::lox::{DiagV, Lox};
use crate::scanner::token::literal::{Literal, LiteralV};
use crate::scanner::token::token_type::TokenType;
use crate::scanner::token::{token_views, Token, TokenV};

verus! {

/// The two ways an expression parse can fail: a group missing its closing
/// parenthesis, or no token that can begin an expression.
#[derive(Clone, Copy, Debug, PartialEq, Eq, Structural)]
pub enum ParseErrorKind {
    ExpectedRightParen,
    ExpectedExpression,
}

/// The message reported for each failure kind.
pub open spec fn message_text(k: ParseErrorKind) -> Seq<char> {
    match k {
        ParseErrorKind::ExpectedRightParen => "Expect ')' after expression."@,
        ParseErrorKind::ExpectedExpression => "Expect expression."@,
    }
}

/// The location phrase reported for a failure at token `t`: the end of
/// input, or the token's lexeme in quotes.
pub open spec fn location_text(t: TokenV) -> Seq<char> {
    if t.token_type == TokenType::EOF {
        "at end"@
    } else {
        "at '"@ + t.lexeme + "'"@
    }
}

/// Mathematical model of a [`ParseError`]: what was unmet, and the index
/// of the token at which parsing failed.
pub struct PeV {
    pub kind: ParseErrorKind,
    pub at: int,
}

/// An aborted expression parse: the token at which the failure was
/// detected and the reported message.  The caller receives no partial
/// tree.
#[derive(Debug, PartialEq)]
pub struct ParseError {
    pub token: Token,
    pub message: String,
}

/// `j` where it indexes `t`, else the last index of `t`: the token a
/// failure is attributed to.
pub open spec fn clamp_idx(t: Seq<TokenV>, j: int) -> int {
    if 0 <= j < t.len() {
        j
    } else if t.len() > 0 {
        t.len() - 1
    } else {
        0
    }
}

/// The `expression` rule at cursor `i`: the whole grammar, lowest
/// precedence first.
pub open spec fn expression_at(t: Seq<TokenV>, i: int) -> Result<(ExprV, int), PeV>
    decreases t.len() - i, 10int when 0 <= i <= t.len()
{
    equality_at(t, i)
}

/// The `equality` rule at cursor `i`.
pub open spec fn equality_at(t: Seq<TokenV>, i: int) -> Result<(ExprV, int), PeV>
    decreases t.len() - i, 9int when 0 <= i <= t.len()
{
    match comparison_at(t, i) {
        Ok((e, j)) => if i <= j <= t.len() {
            equality_rest(e, t, j)
        } else {
            Ok((e, j))
        },
        Err(pe) => Err(pe),
    }
}

/// The `( ("!=" | "==") comparison )*` loop of the `equality` rule, with
/// `e` the expression accumulated so far.
pub open spec fn equality_rest(e: ExprV, t: Seq<TokenV>, i: int) -> Result<(ExprV, int), PeV>
    decreases t.len() - i, 8int when 0 <= i <= t.len()
{
    if 0 <= i < t.len() && (t[i].token_type == TokenType::BANG_EQUAL || t[i].token_type
        == TokenType::EQUAL_EQUAL) {
        match comparison_at(t, i + 1) {
            Ok((right, j)) => if i < j <= t.len() {
                equality_rest(
                    ExprV::Binary { left: Box::new(e), operator: t[i], right: Box::new(right) },
                    t,
                    j,
                )
            } else {
                Ok((e, j))
            },
            Err(pe) => Err(pe),
        }
    } else {
        Ok((e, i))
    }
}

/// The `comparison` rule at cursor `i`.
pub open spec fn comparison_at(t: Seq<TokenV>, i: int) -> Result<(ExprV, int), PeV>
    decreases t.len() - i, 7int when 0 <= i <= t.len()
{
    match term_at(t, i) {
        Ok((e, j)) => if i <= j <= t.len() {
            comparison_rest(e, t, j)
        } else {
            Ok((e, j))
        },
        Err(pe) => Err(pe),
    }
}

/// The `( (">" | ">=" | "<" | "<=") term )*` loop of the `comparison`
/// rule.
pub open spec fn comparison_rest(e: ExprV, t: Seq<TokenV>, i: int) -> Result<(ExprV, int), PeV>
    decreases t.len() - i, 6int when 0 <= i <= t.len()
{
    if 0 <= i < t.len() && (t[i].token_type == TokenType::GREATER || t[i].token_type
        == TokenType::GREATER_EQUAL || t[i].token_type == TokenType::LESS || t[i].token_type
        == TokenType::LESS_EQUAL) {
        match term_at(t, i + 1) {
            Ok((right, j)) => if i < j <= t.len() {
                comparison_rest(
                    ExprV::Binary { left: Box::new(e), operator: t[i], right: Box::new(right) },
                    t,
                    j,
                )
            } else {
                Ok((e, j))
            },
            Err(pe) => Err(pe),
        }
    } else {
        Ok((e, i))
    }
}

/// The `term` rule at cursor `i`.
pub open spec fn term_at(t: Seq<TokenV>, i: int) -> Result<(ExprV, int), PeV>
    decreases t.len() - i, 5int when 0 <= i <= t.len()
{
    match factor_at(t, i) {
        Ok((e, j)) => if i <= j <= t.len() {
            term_rest(e, t, j)
        } else {
            Ok((e, j))
        },
        Err(pe) => Err(pe),
    }
}

/// The `( ("-" | "+") factor )*` loop of the `term` rule.
pub open spec fn term_rest(e: ExprV, t: Seq<TokenV>, i: int) -> Result<(ExprV, int), PeV>
    decreases t.len() - i, 4int when 0 <= i <= t.len()
{
    if 0 <= i < t.len() && (t[i].token_type == TokenType::MINUS || t[i].token_type
        == TokenType::PLUS) {
        match factor_at(t, i + 1) {
            Ok((right, j)) => if i < j <= t.len() {
                term_rest(
                    ExprV::Binary { left: Box::new(e), operator: t[i], right: Box::new(right) },
                    t,
                    j,
                )
            } else {
                Ok((e, j))
            },
            Err(pe) => Err(pe),
        }
    } else {
        Ok((e, i))
    }
}

/// The `factor` rule at cursor `i`.
pub open spec fn factor_at(t: Seq<TokenV>, i: int) -> Result<(ExprV, int), PeV>
    decreases t.len() - i, 3int when 0 <= i <= t.len()
{
    match unary_at(t, i) {
        Ok((e, j)) => if i <= j <= t.len() {
            factor_rest(e, t, j)
        } else {
            Ok((e, j))
        },
        Err(pe) => Err(pe),
    }
}

/// The `( ("/" | "*") unary )*` loop of the `factor` rule.
pub open spec fn factor_rest(e: ExprV, t: Seq<TokenV>, i: int) -> Result<(ExprV, int), PeV>
    decreases t.len() - i, 2int when 0 <= i <= t.len()
{
    if 0 <= i < t.len() && (t[i].token_type == TokenType::SLASH || t[i].token_type
        == TokenType::STAR) {
        match unary_at(t, i + 1) {
            Ok((right, j)) => if i < j <= t.len() {
                factor_rest(
                    ExprV::Binary { left: Box::new(e), operator: t[i], right: Box::new(right) },
                    t,
                    j,
                )
            } else {
                Ok((e, j))
            },
            Err(pe) => Err(pe),
        }
    } else {
        Ok((e, i))
    }
}

/// The `unary` rule at cursor `i`: any number of prefix `!`/`-` nest,
/// right-associative, before falling through to `primary`.
pub open spec fn unary_at(t: Seq<TokenV>, i: int) -> Result<(ExprV, int), PeV>
    decreases t.len() - i, 1int when 0 <= i <= t.len()
{
    if 0 <= i < t.len() && (t[i].token_type == TokenType::BANG || t[i].token_type
        == TokenType::MINUS) {
        match unary_at(t, i + 1) {
            Ok((right, j)) => Ok(
                (ExprV::Unary { operator: t[i], right: Box::new(right) }, j),
            ),
            Err(pe) => Err(pe),
        }
    } else {
        primary_at(t, i)
    }
}

/// The `primary` rule at cursor `i`: a literal, or a parenthesized
/// expression that must find its `)`.  Anything else is a parse error at
/// the current token.
pub open spec fn primary_at(t: Seq<TokenV>, i: int) -> Result<(ExprV, int), PeV>
    decreases t.len() - i, 0int when 0 <= i <= t.len()
{
    if 0 <= i < t.len() && t[i].token_type == TokenType::FALSE {
        Ok((ExprV::Literal(LiteralV::Bool(false)), i + 1))
    } else if 0 <= i < t.len() && t[i].token_type == TokenType::TRUE {
        Ok((ExprV::Literal(LiteralV::Bool(true)), i + 1))
    } else if 0 <= i < t.len() && t[i].token_type == TokenType::NIL {
        Ok((ExprV::Literal(LiteralV::Nil), i + 1))
    } else if 0 <= i < t.len() && (t[i].token_type == TokenType::NUMBER || t[i].token_type
        == TokenType::STRING) {
        Ok((ExprV::Literal(t[i].literal), i + 1))
    } else if 0 <= i < t.len() && t[i].token_type == TokenType::LEFT_PAREN {
        match expression_at(t, i + 1) {
            Ok((e, j)) => if 0 <= j < t.len() && t[j].token_type == TokenType::RIGHT_PAREN {
                Ok((ExprV::Grouping(Box::new(e)), j + 1))
            } else {
                Err(PeV { kind: ParseErrorKind::ExpectedRightParen, at: clamp_idx(t, j) })
            },
            Err(pe) => Err(pe),
        }
    } else {
        Err(PeV { kind: ParseErrorKind::ExpectedExpression, at: clamp_idx(t, i) })
    }
}

/// What a rule's executable method guarantees when it returns a tree: the
/// model parse succeeds with exactly that tree and final cursor, at least
/// one token was consumed, and no diagnostic was recorded.
pub open spec fn parse_ok(
    sp: Result<(ExprV, int), PeV>,
    i0: int,
    e: Expression,
    i1: int,
    lox0: crate::lox::LoxV,
    lox1: crate::lox::LoxV,
) -> bool {
    &&& sp == Ok::<(ExprV, int), PeV>((e@, i1))
    &&& i0 < i1
    &&& lox1 == lox0
}

/// What a rule's executable method guarantees when it raises an error:
/// the model parse fails the same way, the returned error carries the
/// failing token and the message of the failure kind, and exactly that
/// diagnostic was recorded with the failure flag set.
pub open spec fn parse_err(
    sp: Result<(ExprV, int), PeV>,
    t: Seq<TokenV>,
    e: ParseError,
    lox0: crate::lox::LoxV,
    lox1: crate::lox::LoxV,
) -> bool {
    sp matches Err(pe) && {
        &&& 0 <= pe.at < t.len()
        &&& e.token@ == t[pe.at]
        &&& e.message@ == message_text(pe.kind)
        &&& lox1.had_error == true
        &&& lox1.diags == lox0.diags.push(
            DiagV {
                line: t[pe.at].line,
                location: location_text(t[pe.at]),
                message: message_text(pe.kind),
            },
        )
    }
}

/// Whether `tv` is a non-`EOF` token of one of the candidate types.
pub open spec fn matches_one(tv: TokenV, types: Seq<TokenType>) -> bool {
    tv.token_type != TokenType::EOF && types.contains(tv.token_type)
}

proof fn lemma_contains1<A>(s: Seq<A>, a: A, x: A)
    requires
        s =~= seq![a],
    ensures
        s.contains(x) <==> x == a,
{
    if x == a {
        assert(s[0] == x);
        assert(s.contains(x));
    }
    if s.contains(x) {
        let i = choose|i: int| 0 <= i < s.len() && s[i] == x;
        assert(s[i] == x);
    }
}

proof fn lemma_contains2<A>(s: Seq<A>, a: A, b: A, x: A)
    requires
        s =~= seq![a, b],
    ensures
        s.contains(x) <==> (x == a || x == b),
{
    if x == a {
        assert(s[0] == x);
        assert(s.contains(x));
    }
    if x == b {
        assert(s[1] == x);
        assert(s.contains(x));
    }
    if s.contains(x) {
        let i = choose|i: int| 0 <= i < s.len() && s[i] == x;
        assert(s[i] == x);
    }
}

proof fn lemma_contains4<A>(s: Seq<A>, a: A, b: A, c: A, d: A, x: A)
    requires
        s =~= seq![a, b, c, d],
    ensures
        s.contains(x) <==> (x == a || x == b || x == c || x == d),
{
    if x == a {
        assert(s[0] == x);
        assert(s.contains(x));
    }
    if x == b {
        assert(s[1] == x);
        assert(s.contains(x));
    }
    if x == c {
        assert(s[2] == x);
        assert(s.contains(x));
    }
    if x == d {
        assert(s[3] == x);
        assert(s.contains(x));
    }
    if s.contains(x) {
        let i = choose|i: int| 0 <= i < s.len() && s[i] == x;
        assert(s[i] == x);
    }
}

/// Consumes a scanned token sequence by recursive descent, holding a
/// single cursor index into it.
pub struct Parser {
    pub tokens: Vec<Token>,
    pub current: usize,
}

impl Parser {
    /// The models of the tokens being parsed.
    pub open spec fn toks(self) -> Seq<TokenV> {
        token_views(self.tokens@)
    }

    /// Well-formedness: the cursor is on a token, and the sequence ends
    /// with the `EOF` sentinel the scanner always appends, so the cursor
    /// can never run past the end.
    pub open spec fn wf(self) -> bool {
        &&& self.tokens@.len() >= 1
        &&& self.current < self.tokens@.len()
        &&& self.toks().last().token_type == TokenType::EOF
    }

    /// A parser positioned at the first token of `tokens`, which must end
    /// with the `EOF` sentinel.
    pub fn new(tokens: Vec<Token>) -> (r: Parser)
        requires
            tokens@.len() >= 1,
            tokens@.last()@.token_type == TokenType::EOF,
        ensures
            r.wf(),
            r.toks() == token_views(tokens@),
            r.current == 0,
    {
        let r = Parser { tokens, current: 0 };
        proof {
            assert(r.toks().last() == r.tokens@.last()@);
        }
        r
    }

    /// The current token, yet to be consumed.
    fn peek(&self) -> (t: Token)
        requires
            self.wf(),
        ensures
            t@ == self.toks()[self.current as int],
    {
        self.tokens[self.current].clone()
    }

    /// The most recently consumed token.
    fn previous(&self) -> (t: Token)
        requires
            self.wf(),
            self.current >= 1,
        ensures
            t@ == self.toks()[self.current as int - 1],
    {
        self.tokens[self.current - 1].clone()
    }

    /// Whether the cursor has reached the `EOF` sentinel.
    fn is_at_end(&self) -> (r: bool)
        requires
            self.wf(),
        ensures
            r == (self.toks()[self.current as int].token_type == TokenType::EOF),
    {
        self.peek().token_type == TokenType::EOF
    }

    /// Whether the current token is of the given type; the `EOF` sentinel
    /// matches nothing.
    fn check(&self, token_type: TokenType) -> (r: bool)
        requires
            self.wf(),
        ensures
            r == (self.toks()[self.current as int].token_type != TokenType::EOF
                && self.toks()[self.current as int].token_type == token_type),
    {
        if self.is_at_end() {
            return false;
        }
        self.peek().token_type == token_type
    }

    /// Consumes the current token, which must not be the `EOF` sentinel,
    /// and returns it.
    fn advance(&mut self) -> (t: Token)
        requires
            old(self).wf(),
            old(self).toks()[old(self).current as int].token_type != TokenType::EOF,
        ensures
            final(self).wf(),
            final(self).tokens == old(self).tokens,
            final(self).current == old(self).current + 1,
            t@ == old(self).toks()[old(self).current as int],
    {
        proof {
            assert(self.toks().last() == self.toks()[self.tokens@.len() - 1]);
        }
        let n = self.tokens.len();
        proof {
            assert(self.current < n);
        }
        self.current = self.current + 1;
        self.previous()
    }

    /// Tests the current token against a candidate set of types: on a
    /// match it is consumed and `true` is returned, otherwise nothing is
    /// consumed.
    fn match_tokens(&mut self, token_types: Vec<TokenType>) -> (r: bool)
        requires
            old(self).wf(),
        ensures
            final(self).wf(),
            final(self).tokens == old(self).tokens,
            r == matches_one(old(self).toks()[old(self).current as int], token_types@),
            final(self).current == old(self).current + (if r {
                1int
            } else {
                0int
            }),
    {
        let n = token_types.len();
        let mut k: usize = 0;
        while k < n
            invariant
                self.wf(),
                self.tokens == old(self).tokens,
                self.current == old(self).current,
                k <= n,
                n == token_types@.len(),
                forall|j: int|
                    0 <= j < k ==> !(self.toks()[self.current as int].token_type
                        != TokenType::EOF && self.toks()[self.current as int].token_type
                        == token_types@[j]),
            decreases n - k,
        {
            if self.check(*token_types.get(k).unwrap()) {
                self.advance();
                proof {
                    assert(token_types@.contains(
                        old(self).toks()[old(self).current as int].token_type,
                    ));
                }
                return true;
            }
            k = k + 1;
        }
        proof {
            let tv = self.toks()[self.current as int];
            if token_types@.contains(tv.token_type) {
                let j = choose|j: int|
                    0 <= j < token_types@.len() && token_types@[j] == tv.token_type;
                assert(!(tv.token_type != TokenType::EOF && tv.token_type == token_types@[j]));
            }
        }
        false
    }

    /// Records a parse error at `token` in the collector and builds the
    /// error value the parse aborts with.
    fn error_at(lox: &mut Lox, token: Token, message: String) -> (e: ParseError)
        ensures
            e.token@ == token@,
            e.message@ == message@,
            final(lox)@.had_error == true,
            final(lox)@.diags == old(lox)@.diags.push(
                DiagV {
                    line: token@.line,
                    location: location_text(token@),
                    message: message@,
                },
            ),
    {
        let location = if token.token_type == TokenType::EOF {
            "at end".to_owned()
        } else {
            let mut l = "at '".to_owned();
            l.append(token.lexeme.as_str());
            l.append("'");
            l
        };
        lox.report(token.line, location, message.clone());
        ParseError { token, message }
    }

    /// Consumes the current token when it is of the expected type;
    /// otherwise reports `message` at the current token and returns the
    /// error, consuming nothing.
    fn consume(&mut self, lox: &mut Lox, token_type: TokenType, message: String) -> (r: Result<
        Token,
        ParseError,
    >)
        requires
            old(self).wf(),
        ensures
            final(self).wf(),
            final(self).tokens == old(self).tokens,
            ({
                let tv = old(self).toks()[old(self).current as int];
                if tv.token_type != TokenType::EOF && tv.token_type == token_type {
                    &&& r matches Ok(tok) && tok@ == tv
                    &&& final(self).current == old(self).current + 1
                    &&& final(lox)@ == old(lox)@
                } else {
                    &&& r matches Err(e) && e.token@ == tv && e.message@ == message@
                    &&& final(self).current == old(self).current
                    &&& final(lox)@.had_error == true
                    &&& final(lox)@.diags == old(lox)@.diags.push(
                        DiagV { line: tv.line, location: location_text(tv), message: message@ },
                    )
                }
            }),
    {
        if self.check(token_type) {
            Ok(self.advance())
        } else {
            let tok = self.peek();
            Err(Parser::error_at(lox, tok, message))
        }
    }

    /// The `equality` rule: one `comparison`, then a left-associative fold of
    /// `!=` / `==` operators over further `comparison` operands.
    #[verifier::rlimit(100)]
    #[verifier::spinoff_prover]
    #[verifier::loop_isolation(false)]
    fn equality(&mut self, lox: &mut Lox) -> (r: Result<Expression, ParseError>)
        requires
            old(self).wf(),
        ensures
            final(self).wf(),
            final(self).tokens == old(self).tokens,
            old(self).current <= final(self).current,
            match r {
                Ok(e) => parse_ok(
                    equality_at(old(self).toks(), old(self).current as int),
                    old(self).current as int,
                    e,
                    final(self).current as int,
                    old(lox)@,
                    final(lox)@,
                ),
                Err(e) => parse_err(
                    equality_at(old(self).toks(), old(self).current as int),
                    old(self).toks(),
                    e,
                    old(lox)@,
                    final(lox)@,
                ),
            },
        decreases self.tokens@.len() - self.current, 9int,
    {
        let ghost t = self.toks();
        let ghost i0 = self.current as int;
        let mut expr = match self.comparison(lox) {
            Ok(e) => e,
            Err(e) => {
                return Err(e);
            },
        };
        proof {
            assert(equality_at(t, i0) == equality_rest(expr@, t, self.current as int));
        }
        let ghost p0 = self.current as int;
        let mut matched = self.match_tokens(vec![TokenType::BANG_EQUAL, TokenType::EQUAL_EQUAL]);
        proof {
            lemma_contains2(seq![TokenType::BANG_EQUAL, TokenType::EQUAL_EQUAL], TokenType::BANG_EQUAL, TokenType::EQUAL_EQUAL, t[p0].token_type);
        }
        while matched
            invariant
                self.wf(),
                self.tokens == old(self).tokens,
                lox@ == old(lox)@,
                i0 < self.current as int,
                matched ==> 1 <= self.current as int,
                matched ==> (t[self.current as int - 1].token_type == TokenType::BANG_EQUAL || t[self.current as int - 1].token_type == TokenType::EQUAL_EQUAL),
                matched ==> equality_at(t, i0) == equality_rest(
                    expr@,
                    t,
                    self.current as int - 1,
                ),
                !matched ==> equality_at(t, i0) == Ok::<(ExprV, int), PeV>((
                    expr@,
                    self.current as int,
                )),
            decreases t.len() - self.current,
        {
            let operator = self.previous();
            let ghost op_pos = self.current as int - 1;
            let right = match self.comparison(lox) {
                Ok(e) => e,
                Err(e) => {
                    return Err(e);
                },
            };
            expr = Expression::Binary { left: Box::new(expr), operator, right: Box::new(right) };
            proof {
                assert(equality_at(t, i0) == equality_rest(expr@, t, self.current as int));
            }
            let ghost p = self.current as int;
            matched = self.match_tokens(vec![TokenType::BANG_EQUAL, TokenType::EQUAL_EQUAL]);
            proof {
                lemma_contains2(seq![TokenType::BANG_EQUAL, TokenType::EQUAL_EQUAL], TokenType::BANG_EQUAL, TokenType::EQUAL_EQUAL, t[p].token_type);
            }
        }
        Ok(expr)
    }

    /// The `comparison` rule: one `term`, then a left-associative fold of
    /// `>` / `>=` / `<` / `<=` operators over further `term` operands.
    #[verifier::rlimit(100)]
    #[verifier::spinoff_prover]
    #[verifier::loop_isolation(false)]
    fn comparison(&mut self, lox: &mut Lox) -> (r: Result<Expression, ParseError>)
        requires
            old(self).wf(),
        ensures
            final(self).wf(),
            final(self).tokens == old(self).tokens,
            old(self).current <= final(self).current,
            match r {
                Ok(e) => parse_ok(
                    comparison_at(old(self).toks(), old(self).current as int),
                    old(self).current as int,
                    e,
                    final(self).current as int,
                    old(lox)@,
                    final(lox)@,
                ),
                Err(e) => parse_err(
                    comparison_at(old(self).toks(), old(self).current as int),
                    old(self).toks(),
                    e,
                    old(lox)@,
                    final(lox)@,
                ),
            },
        decreases self.tokens@.len() - self.current, 7int,
    {
        let ghost t = self.toks();
        let ghost i0 = self.current as int;
        let mut expr = match self.term(lox) {
            Ok(e) => e,
            Err(e) => {
                return Err(e);
            },
        };
        proof {
            assert(comparison_at(t, i0) == comparison_rest(expr@, t, self.current as int));
        }
        let ghost p0 = self.current as int;
        let mut matched = self.match_tokens(vec![TokenType::GREATER, TokenType::GREATER_EQUAL, TokenType::LESS, TokenType::LESS_EQUAL]);
        proof {
            lemma_contains4(seq![TokenType::GREATER, TokenType::GREATER_EQUAL, TokenType::LESS, TokenType::LESS_EQUAL], TokenType::GREATER, TokenType::GREATER_EQUAL, TokenType::LESS, TokenType::LESS_EQUAL, t[p0].token_type);
        }
        while matched
            invariant
                self.wf(),
                self.tokens == old(self).tokens,
                lox@ == old(lox)@,
                i0 < self.current as int,
                matched ==> 1 <= self.current as int,
                matched ==> (t[self.current as int - 1].token_type == TokenType::GREATER || t[self.current as int - 1].token_type == TokenType::GREATER_EQUAL || t[self.current as int - 1].token_type == TokenType::LESS || t[self.current as int - 1].token_type == TokenType::LESS_EQUAL),
                matched ==> comparison_at(t, i0) == comparison_rest(
                    expr@,
                    t,
                    self.current as int - 1,
                ),
                !matched ==> comparison_at(t, i0) == Ok::<(ExprV, int), PeV>((
                    expr@,
                    self.current as int,
                )),
            decreases t.len() - self.current,
        {
            let operator = self.previous();
            let ghost op_pos = self.current as int - 1;
            let right = match self.term(lox) {
                Ok(e) => e,
                Err(e) => {
                    return Err(e);
                },
            };
            expr = Expression::Binary { left: Box::new(expr), operator, right: Box::new(right) };
            proof {
                assert(comparison_at(t, i0) == comparison_rest(expr@, t, self.current as int));
            }
            let ghost p = self.current as int;
            matched = self.match_tokens(vec![TokenType::GREATER, TokenType::GREATER_EQUAL, TokenType::LESS, TokenType::LESS_EQUAL]);
            proof {
                lemma_contains4(seq![TokenType::GREATER, TokenType::GREATER_EQUAL, TokenType::LESS, TokenType::LESS_EQUAL], TokenType::GREATER, TokenType::GREATER_EQUAL, TokenType::LESS, TokenType::LESS_EQUAL, t[p].token_type);
            }
        }
        Ok(expr)
    }

    /// The `term` rule: one `factor`, then a left-associative fold of
    /// `-` / `+` operators over further `factor` operands.
    #[verifier::rlimit(100)]
    #[verifier::spinoff_prover]
    #[verifier::loop_isolation(false)]
    fn term(&mut self, lox: &mut Lox) -> (r: Result<Expression, ParseError>)
        requires
            old(self).wf(),
        ensures
            final(self).wf(),
            final(self).tokens == old(self).tokens,
            old(self).current <= final(self).current,
            match r {
                Ok(e) => parse_ok(
                    term_at(old(self).toks(), old(self).current as int),
                    old(self).current as int,
                    e,
                    final(self).current as int,
                    old(lox)@,
                    final(lox)@,
                ),
                Err(e) => parse_err(
                    term_at(old(self).toks(), old(self).current as int),
                    old(self).toks(),
                    e,
                    old(lox)@,
                    final(lox)@,
                ),
            },
        decreases self.tokens@.len() - self.current, 5int,
    {
        let ghost t = self.toks();
        let ghost i0 = self.current as int;
        let mut expr = match self.factor(lox) {
            Ok(e) => e,
            Err(e) => {
                return Err(e);
            },
        };
        proof {
            assert(term_at(t, i0) == term_rest(expr@, t, self.current as int));
        }
        let ghost p0 = self.current as int;
        let mut matched = self.match_tokens(vec![TokenType::MINUS, TokenType::PLUS]);
        proof {
            lemma_contains2(seq![TokenType::MINUS, TokenType::PLUS], TokenType::MINUS, TokenType::PLUS, t[p0].token_type);
        }
        while matched
            invariant
                self.wf(),
                self.tokens == old(self).tokens,
                lox@ == old(lox)@,
                i0 < self.current as int,
                matched ==> 1 <= self.current as int,
                matched ==> (t[self.current as int - 1].token_type == TokenType::MINUS || t[self.current as int - 1].token_type == TokenType::PLUS),
                matched ==> term_at(t, i0) == term_rest(
                    expr@,
                    t,
                    self.current as int - 1,
                ),
                !matched ==> term_at(t, i0) == Ok::<(ExprV, int), PeV>((
                    expr@,
                    self.current as int,
                )),
            decreases t.len() - self.current,
        {
            let operator = self.previous();
            let ghost op_pos = self.current as int - 1;
            let right = match self.factor(lox) {
                Ok(e) => e,
                Err(e) => {
                    return Err(e);
                },
            };
            expr = Expression::Binary { left: Box::new(expr), operator, right: Box::new(right) };
            proof {
                assert(term_at(t, i0) == term_rest(expr@, t, self.current as int));
            }
            let ghost p = self.current as int;
            matched = self.match_tokens(vec![TokenType::MINUS, TokenType::PLUS]);
            proof {
                lemma_contains2(seq![TokenType::MINUS, TokenType::PLUS], TokenType::MINUS, TokenType::PLUS, t[p].token_type);
            }
        }
        Ok(expr)
    }

    /// The `factor` rule: one `unary`, then a left-associative fold of
    /// `/` / `*` operators over further `unary` operands.
    #[verifier::rlimit(100)]
    #[verifier::spinoff_prover]
    #[verifier::loop_isolation(false)]
    fn factor(&mut self, lox: &mut Lox) -> (r: Result<Expression, ParseError>)
        requires
            old(self).wf(),
        ensures
            final(self).wf(),
            final(self).tokens == old(self).tokens,
            old(self).current <= final(self).current,
            match r {
                Ok(e) => parse_ok(
                    factor_at(old(self).toks(), old(self).current as int),
                    old(self).current as int,
                    e,
                    final(self).current as int,
                    old(lox)@,
                    final(lox)@,
                ),
                Err(e) => parse_err(
                    factor_at(old(self).toks(), old(self).current as int),
                    old(self).toks(),
                    e,
                    old(lox)@,
                    final(lox)@,
                ),
            },
        decreases self.tokens@.len() - self.current, 3int,
    {
        let ghost t = self.toks();
        let ghost i0 = self.current as int;
        let mut expr = match self.unary(lox) {
            Ok(e) => e,
            Err(e) => {
                return Err(e);
            },
        };
        proof {
            assert(factor_at(t, i0) == factor_rest(expr@, t, self.current as int));
        }
        let ghost p0 = self.current as int;
        let mut matched = self.match_tokens(vec![TokenType::SLASH, TokenType::STAR]);
        proof {
            lemma_contains2(seq![TokenType::SLASH, TokenType::STAR], TokenType::SLASH, TokenType::STAR, t[p0].token_type);
        }
        while matched
            invariant
                self.wf(),
                self.tokens == old(self).tokens,
                lox@ == old(lox)@,
                i0 < self.current as int,
                matched ==> 1 <= self.current as int,
                matched ==> (t[self.current as int - 1].token_type == TokenType::SLASH || t[self.current as int - 1].token_type == TokenType::STAR),
                matched ==> factor_at(t, i0) == factor_rest(
                    expr@,
                    t,
                    self.current as int - 1,
                ),
                !matched ==> factor_at(t, i0) == Ok::<(ExprV, int), PeV>((
                    expr@,
                    self.current as int,
                )),
            decreases t.len() - self.current,
        {
            let operator = self.previous();
            let ghost op_pos = self.current as int - 1;
            let right = match self.unary(lox) {
                Ok(e) => e,
                Err(e) => {
                    return Err(e);
                },
            };
            expr = Expression::Binary { left: Box::new(expr), operator, right: Box::new(right) };
            proof {
                assert(factor_at(t, i0) == factor_rest(expr@, t, self.current as int));
            }
            let ghost p = self.current as int;
            matched = self.match_tokens(vec![TokenType::SLASH, TokenType::STAR]);
            proof {
                lemma_contains2(seq![TokenType::SLASH, TokenType::STAR], TokenType::SLASH, TokenType::STAR, t[p].token_type);
            }
        }
        Ok(expr)
    }

    /// The whole expression grammar, lowest precedence first.  On failure
    /// the unmet expectation has been reported in `lox` and the parse of
    /// this expression is aborted: the caller receives no partial tree.
    pub fn parse_expression(&mut self, lox: &mut Lox) -> (r: Result<Expression, ParseError>)
        requires
            old(self).wf(),
        ensures
            final(self).wf(),
            final(self).tokens == old(self).tokens,
            old(self).current <= final(self).current,
            match r {
                Ok(e) => parse_ok(
                    expression_at(old(self).toks(), old(self).current as int),
                    old(self).current as int,
                    e,
                    final(self).current as int,
                    old(lox)@,
                    final(lox)@,
                ),
                Err(e) => parse_err(
                    expression_at(old(self).toks(), old(self).current as int),
                    old(self).toks(),
                    e,
                    old(lox)@,
                    final(lox)@,
                ),
            },
        decreases self.tokens@.len() - self.current, 10int,
    {
        self.equality(lox)
    }

    /// The `unary` rule: any number of prefix `!`/`-` operators,
    /// right-associative, then a `primary`.
    fn unary(&mut self, lox: &mut Lox) -> (r: Result<Expression, ParseError>)
        requires
            old(self).wf(),
        ensures
            final(self).wf(),
            final(self).tokens == old(self).tokens,
            old(self).current <= final(self).current,
            match r {
                Ok(e) => parse_ok(
                    unary_at(old(self).toks(), old(self).current as int),
                    old(self).current as int,
                    e,
                    final(self).current as int,
                    old(lox)@,
                    final(lox)@,
                ),
                Err(e) => parse_err(
                    unary_at(old(self).toks(), old(self).current as int),
                    old(self).toks(),
                    e,
                    old(lox)@,
                    final(lox)@,
                ),
            },
        decreases self.tokens@.len() - self.current, 1int,
    {
        let ghost t = self.toks();
        let ghost i0 = self.current as int;
        let matched = self.match_tokens(vec![TokenType::BANG, TokenType::MINUS]);
        proof {
            lemma_contains2(
                seq![TokenType::BANG, TokenType::MINUS],
                TokenType::BANG,
                TokenType::MINUS,
                t[i0].token_type,
            );
        }
        if matched {
            let operator = self.previous();
            match self.unary(lox) {
                Ok(right) => Ok(Expression::Unary { operator, right: Box::new(right) }),
                Err(e) => Err(e),
            }
        } else {
            self.primary(lox)
        }
    }

    /// The `primary` rule: a number, string, `true`, `false` or `nil`
    /// literal, or a parenthesized expression that must find its closing
    /// `)`.  Any other token is a parse error at that token.
    fn primary(&mut self, lox: &mut Lox) -> (r: Result<Expression, ParseError>)
        requires
            old(self).wf(),
        ensures
            final(self).wf(),
            final(self).tokens == old(self).tokens,
            old(self).current <= final(self).current,
            match r {
                Ok(e) => parse_ok(
                    primary_at(old(self).toks(), old(self).current as int),
                    old(self).current as int,
                    e,
                    final(self).current as int,
                    old(lox)@,
                    final(lox)@,
                ),
                Err(e) => parse_err(
                    primary_at(old(self).toks(), old(self).current as int),
                    old(self).toks(),
                    e,
                    old(lox)@,
                    final(lox)@,
                ),
            },
        decreases self.tokens@.len() - self.current, 0int,
    {
        let ghost t = self.toks();
        let ghost i0 = self.current as int;
        let matched_false = self.match_tokens(vec![TokenType::FALSE]);
        proof {
            lemma_contains1(seq![TokenType::FALSE], TokenType::FALSE, t[i0].token_type);
        }
        if matched_false {
            return Ok(Expression::Literal(Literal::Bool(false)));
        }
        let matched_true = self.match_tokens(vec![TokenType::TRUE]);
        proof {
            lemma_contains1(seq![TokenType::TRUE], TokenType::TRUE, t[i0].token_type);
        }
        if matched_true {
            return Ok(Expression::Literal(Literal::Bool(true)));
        }
        let matched_nil = self.match_tokens(vec![TokenType::NIL]);
        proof {
            lemma_contains1(seq![TokenType::NIL], TokenType::NIL, t[i0].token_type);
        }
        if matched_nil {
            return Ok(Expression::Literal(Literal::Nil));
        }
        let matched_value = self.match_tokens(vec![TokenType::NUMBER, TokenType::STRING]);
        proof {
            lemma_contains2(
                seq![TokenType::NUMBER, TokenType::STRING],
                TokenType::NUMBER,
                TokenType::STRING,
                t[i0].token_type,
            );
        }
        if matched_value {
            let prev = self.previous();
            return Ok(Expression::Literal(prev.literal));
        }
        let matched_paren = self.match_tokens(vec![TokenType::LEFT_PAREN]);
        proof {
            lemma_contains1(seq![TokenType::LEFT_PAREN], TokenType::LEFT_PAREN, t[i0].token_type);
        }
        if matched_paren {
            let inner = match self.parse_expression(lox) {
                Ok(e) => e,
                Err(e) => {
                    return Err(e);
                },
            };
            match self.consume(lox, TokenType::RIGHT_PAREN, "Expect ')' after expression.".to_owned()) {
                Ok(_) => Ok(Expression::Grouping(Box::new(inner))),
                Err(e) => Err(e),
            }
        } else {
            let tok = self.peek();
            let e = Parser::error_at(lox, tok, "Expect expression.".to_owned());
            Err(e)
        }
    }
}

} // verus!
