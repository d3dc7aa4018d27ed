//! The scanner: turns source text into an ordered sequence of tokens.
//!
//! Scanning is deterministic, total, single pass and left-to-right.  The
//! whole pass is modelled by the specification function [`scan_from`], which
//! classifies one lexeme per step with [`next_step`]; the executable
//! [`Scanner`] is proved to produce exactly the tokens and the diagnostics
//! of that model.

use vstd::prelude::*;
use vstd::string::*;

pub mod token;

use crate::lox::{DiagV, Lox};
use token::literal::{canon_frac, canon_int, Literal, LiteralV, NumV, NumberValue};
use token::token_type::TokenType;
use token::{token_views, Token, TokenV};

verus! {

/// A decimal digit, `0` through `9`.
pub open spec fn is_digit_char(c: char) -> bool {
    ('0' as u32) <= (c as u32) && (c as u32) <= ('9' as u32)
}

/// An ASCII letter or an underscore: what may start an identifier.
pub open spec fn is_alpha_char(c: char) -> bool {
    ||| ('a' as u32) <= (c as u32) && (c as u32) <= ('z' as u32)
    ||| ('A' as u32) <= (c as u32) && (c as u32) <= ('Z' as u32)
    ||| c == '_'
}

/// What may continue an identifier.
pub open spec fn is_alnum_char(c: char) -> bool {
    is_alpha_char(c) || is_digit_char(c)
}

/// The numeric value of a digit character.
pub open spec fn digit_val(c: char) -> u8
    recommends
        is_digit_char(c),
{
    ((c as u32) - ('0' as u32)) as u8
}

/// The index just past the maximal run of digits starting at `i`.
pub open spec fn digit_run_end(s: Seq<char>, i: int) -> int
    decreases s.len() - i when 0 <= i <= s.len()
{
    if i < s.len() && is_digit_char(s[i]) {
        digit_run_end(s, i + 1)
    } else {
        i
    }
}

/// The index just past the maximal run of identifier characters starting at
/// `i`.
pub open spec fn ident_run_end(s: Seq<char>, i: int) -> int
    decreases s.len() - i when 0 <= i <= s.len()
{
    if i < s.len() && is_alnum_char(s[i]) {
        ident_run_end(s, i + 1)
    } else {
        i
    }
}

/// The index of the first newline at or after `i`, or the end of input.
pub open spec fn line_comment_end(s: Seq<char>, i: int) -> int
    decreases s.len() - i when 0 <= i <= s.len()
{
    if i < s.len() && s[i] != '\n' {
        line_comment_end(s, i + 1)
    } else {
        i
    }
}

/// The index of the first closing quote at or after `i`, or the end of
/// input.
pub open spec fn string_body_end(s: Seq<char>, i: int) -> int
    decreases s.len() - i when 0 <= i <= s.len()
{
    if i < s.len() && s[i] != '"' {
        string_body_end(s, i + 1)
    } else {
        i
    }
}

/// The index just past the first `*/` at or after `i`, or the end of input
/// when the block comment is unterminated.
pub open spec fn block_comment_end(s: Seq<char>, i: int) -> int
    decreases s.len() - i when 0 <= i <= s.len()
{
    if i >= s.len() {
        s.len() as int
    } else if s[i] == '*' && i + 1 < s.len() && s[i + 1] == '/' {
        i + 2
    } else {
        block_comment_end(s, i + 1)
    }
}

/// How many newline characters `s` holds in index range `[a, b)`.
pub open spec fn count_newlines(s: Seq<char>, a: int, b: int) -> nat
    decreases b - a when a <= b
{
    if a < b {
        (if s[a] == '\n' {
            1nat
        } else {
            0nat
        }) + count_newlines(s, a + 1, b)
    } else {
        0
    }
}

/// The maximal digit run starting at `i` ends at the first non-digit.
pub proof fn lemma_digit_run_end(s: Seq<char>, i: int)
    requires
        0 <= i <= s.len(),
    ensures
        i <= digit_run_end(s, i) <= s.len(),
        forall|k: int| i <= k < digit_run_end(s, i) ==> is_digit_char(s[k]),
        digit_run_end(s, i) < s.len() ==> !is_digit_char(s[digit_run_end(s, i)]),
    decreases s.len() - i,
{
    if i < s.len() && is_digit_char(s[i]) {
        lemma_digit_run_end(s, i + 1);
    }
}

/// The maximal identifier run starting at `i` ends at the first character
/// that cannot continue an identifier.
pub proof fn lemma_ident_run_end(s: Seq<char>, i: int)
    requires
        0 <= i <= s.len(),
    ensures
        i <= ident_run_end(s, i) <= s.len(),
        forall|k: int| i <= k < ident_run_end(s, i) ==> is_alnum_char(s[k]),
        ident_run_end(s, i) < s.len() ==> !is_alnum_char(s[ident_run_end(s, i)]),
    decreases s.len() - i,
{
    if i < s.len() && is_alnum_char(s[i]) {
        lemma_ident_run_end(s, i + 1);
    }
}

/// A line comment runs to the first newline or to the end of input.
pub proof fn lemma_line_comment_end(s: Seq<char>, i: int)
    requires
        0 <= i <= s.len(),
    ensures
        i <= line_comment_end(s, i) <= s.len(),
        forall|k: int| i <= k < line_comment_end(s, i) ==> s[k] != '\n',
        line_comment_end(s, i) < s.len() ==> s[line_comment_end(s, i)] == '\n',
    decreases s.len() - i,
{
    if i < s.len() && s[i] != '\n' {
        lemma_line_comment_end(s, i + 1);
    }
}

/// A string body runs to the first closing quote or to the end of input.
pub proof fn lemma_string_body_end(s: Seq<char>, i: int)
    requires
        0 <= i <= s.len(),
    ensures
        i <= string_body_end(s, i) <= s.len(),
        forall|k: int| i <= k < string_body_end(s, i) ==> s[k] != '"',
        string_body_end(s, i) < s.len() ==> s[string_body_end(s, i)] == '"',
    decreases s.len() - i,
{
    if i < s.len() && s[i] != '"' {
        lemma_string_body_end(s, i + 1);
    }
}

/// A block comment ends within the input.
pub proof fn lemma_block_comment_end(s: Seq<char>, i: int)
    requires
        0 <= i <= s.len(),
    ensures
        i <= block_comment_end(s, i) <= s.len(),
    decreases s.len() - i,
{
    if i < s.len() && !(s[i] == '*' && i + 1 < s.len() && s[i + 1] == '/') {
        lemma_block_comment_end(s, i + 1);
    }
}

/// There are no more newlines in a range than characters.
pub proof fn lemma_count_newlines_bound(s: Seq<char>, a: int, b: int)
    requires
        a <= b,
    ensures
        count_newlines(s, a, b) <= b - a,
    decreases b - a,
{
    if a < b {
        lemma_count_newlines_bound(s, a + 1, b);
    }
}

/// Extending a range one character to the right adds that character's
/// newline count.
pub proof fn lemma_count_newlines_snoc(s: Seq<char>, a: int, b: int)
    requires
        a <= b,
    ensures
        count_newlines(s, a, b + 1) == count_newlines(s, a, b) + (if s[b] == '\n' {
            1nat
        } else {
            0nat
        }),
    decreases b - a,
{
    if a < b {
        lemma_count_newlines_snoc(s, a + 1, b);
    } else {
        assert(count_newlines(s, b, b) == 0);
        assert(count_newlines(s, b + 1, b + 1) == 0);
    }
}

/// The numeric values of a run of digit characters.
pub open spec fn digit_vals(cs: Seq<char>) -> Seq<u8> {
    cs.map_values(|c: char| digit_val(c))
}

/// The fixed keyword table: the token type of a reserved word, or
/// `IDENTIFIER` for any other identifier text.
pub open spec fn keyword_lookup(text: Seq<char>) -> TokenType {
    if text == "and"@ {
        TokenType::AND
    } else if text == "class"@ {
        TokenType::CLASS
    } else if text == "else"@ {
        TokenType::ELSE
    } else if text == "false"@ {
        TokenType::FALSE
    } else if text == "for"@ {
        TokenType::FOR
    } else if text == "fun"@ {
        TokenType::FUN
    } else if text == "if"@ {
        TokenType::IF
    } else if text == "nil"@ {
        TokenType::NIL
    } else if text == "or"@ {
        TokenType::OR
    } else if text == "print"@ {
        TokenType::PRINT
    } else if text == "return"@ {
        TokenType::RETURN
    } else if text == "super"@ {
        TokenType::SUPER
    } else if text == "this"@ {
        TokenType::THIS
    } else if text == "true"@ {
        TokenType::TRUE
    } else if text == "var"@ {
        TokenType::VAR
    } else if text == "while"@ {
        TokenType::WHILE
    } else {
        TokenType::IDENTIFIER
    }
}

/// The literal payload carried by an identifier or keyword token: the
/// boolean keywords carry their value, `nil` and every other identifier
/// carry no value.
pub open spec fn keyword_literal(t: TokenType) -> LiteralV {
    match t {
        TokenType::TRUE => LiteralV::Bool(true),
        TokenType::FALSE => LiteralV::Bool(false),
        _ => LiteralV::Nil,
    }
}

/// The message recorded for a character no rule recognizes.
pub open spec fn unexpected_char_message() -> Seq<char> {
    "Unexpected character."@
}

/// The message recorded for a string literal the input ends inside of.
pub open spec fn unterminated_string_message() -> Seq<char> {
    "Unterminated string."@
}

/// The outcome of classifying one lexeme: where scanning resumes, the line
/// counter there, and the token or the error the lexeme contributed, if
/// any.
pub struct ScanStep {
    pub next: int,
    pub line: nat,
    pub token: Option<TokenV>,
    pub error: Option<DiagV>,
}

/// A step that emits the token of kind `tt` with payload `lit` for the
/// lexeme `s[i..j)` and resumes at `j` on the same line.
pub open spec fn tok_step(s: Seq<char>, i: int, line: nat, j: int, tt: TokenType, lit: LiteralV) -> ScanStep {
    ScanStep {
        next: j,
        line,
        token: Some(TokenV { token_type: tt, lexeme: s.subrange(i, j), literal: lit, line }),
        error: None,
    }
}

/// A step that discards its characters: whitespace and comments.
pub open spec fn skip_step(j: int, line: nat) -> ScanStep {
    ScanStep { next: j, line, token: None, error: None }
}

/// One character of lookahead after an operator character: `=` completes
/// the two-character operator, anything else leaves the one-character one.
pub open spec fn two_char_step(s: Seq<char>, i: int, line: nat, two: TokenType, one: TokenType) -> ScanStep {
    if i + 1 < s.len() && s[i + 1] == '=' {
        tok_step(s, i, line, i + 2, two, LiteralV::Nil)
    } else {
        tok_step(s, i, line, i + 1, one, LiteralV::Nil)
    }
}

/// A string literal opened by the quote at `i`: either it closes and emits
/// a `STRING` token whose payload is the text strictly between the quotes,
/// or the input ends first and exactly one lexical error is recorded.
/// Embedded newlines advance the line counter; the token keeps the line it
/// started on.
pub open spec fn string_step(s: Seq<char>, i: int, line: nat) -> ScanStep {
    let e = string_body_end(s, i + 1);
    let after = line + count_newlines(s, i + 1, e);
    if e >= s.len() {
        ScanStep {
            next: s.len() as int,
            line: after,
            token: None,
            error: Some(
                DiagV {
                    line: after,
                    location: Seq::<char>::empty(),
                    message: unterminated_string_message(),
                },
            ),
        }
    } else {
        ScanStep {
            next: e + 1,
            line: after,
            token: Some(
                TokenV {
                    token_type: TokenType::STRING,
                    lexeme: s.subrange(i, e + 1),
                    literal: LiteralV::Str(s.subrange(i + 1, e)),
                    line,
                },
            ),
            error: None,
        }
    }
}

/// A number literal started by the digit at `i`: a maximal digit run, then
/// optionally one `.` followed by at least one digit and that maximal run
/// too.  A trailing `.` not followed by a digit is not consumed.  The
/// payload is the canonical decimal value of the matched text.
pub open spec fn number_step(s: Seq<char>, i: int, line: nat) -> ScanStep {
    let nd = digit_run_end(s, i + 1);
    if nd < s.len() && s[nd] == '.' && nd + 1 < s.len() && is_digit_char(s[nd + 1]) {
        let j = digit_run_end(s, nd + 1);
        tok_step(
            s,
            i,
            line,
            j,
            TokenType::NUMBER,
            LiteralV::Num(
                NumV {
                    int: canon_int(digit_vals(s.subrange(i, nd))),
                    frac: canon_frac(digit_vals(s.subrange(nd + 1, j))),
                },
            ),
        )
    } else {
        tok_step(
            s,
            i,
            line,
            nd,
            TokenType::NUMBER,
            LiteralV::Num(
                NumV { int: canon_int(digit_vals(s.subrange(i, nd))), frac: Seq::<u8>::empty() },
            ),
        )
    }
}

/// An identifier or keyword started by the letter or underscore at `i`:
/// the maximal run of identifier characters, looked up in the keyword
/// table.  The lexeme is the raw matched text regardless of keyword status.
pub open spec fn ident_step(s: Seq<char>, i: int, line: nat) -> ScanStep {
    let j = ident_run_end(s, i + 1);
    let tt = keyword_lookup(s.subrange(i, j));
    tok_step(s, i, line, j, tt, keyword_literal(tt))
}

/// Classifies the single lexeme starting at `i` (which must be inside the
/// input), on line `line`.
pub open spec fn next_step(s: Seq<char>, i: int, line: nat) -> ScanStep
    recommends
        0 <= i < s.len(),
{
    let c = s[i];
    if c == '(' {
        tok_step(s, i, line, i + 1, TokenType::LEFT_PAREN, LiteralV::Nil)
    } else if c == ')' {
        tok_step(s, i, line, i + 1, TokenType::RIGHT_PAREN, LiteralV::Nil)
    } else if c == '{' {
        tok_step(s, i, line, i + 1, TokenType::LEFT_BRACE, LiteralV::Nil)
    } else if c == '}' {
        tok_step(s, i, line, i + 1, TokenType::RIGHT_BRACE, LiteralV::Nil)
    } else if c == ',' {
        tok_step(s, i, line, i + 1, TokenType::COMMA, LiteralV::Nil)
    } else if c == '.' {
        tok_step(s, i, line, i + 1, TokenType::DOT, LiteralV::Nil)
    } else if c == '-' {
        tok_step(s, i, line, i + 1, TokenType::MINUS, LiteralV::Nil)
    } else if c == '+' {
        tok_step(s, i, line, i + 1, TokenType::PLUS, LiteralV::Nil)
    } else if c == ';' {
        tok_step(s, i, line, i + 1, TokenType::SEMICOLON, LiteralV::Nil)
    } else if c == '*' {
        tok_step(s, i, line, i + 1, TokenType::STAR, LiteralV::Nil)
    } else if c == '!' {
        two_char_step(s, i, line, TokenType::BANG_EQUAL, TokenType::BANG)
    } else if c == '=' {
        two_char_step(s, i, line, TokenType::EQUAL_EQUAL, TokenType::EQUAL)
    } else if c == '<' {
        two_char_step(s, i, line, TokenType::LESS_EQUAL, TokenType::LESS)
    } else if c == '>' {
        two_char_step(s, i, line, TokenType::GREATER_EQUAL, TokenType::GREATER)
    } else if c == '/' {
        if i + 1 < s.len() && s[i + 1] == '/' {
            // A line comment is consumed through, not including, the next
            // newline, and contributes no token.
            skip_step(line_comment_end(s, i + 2), line)
        } else if i + 1 < s.len() && s[i + 1] == '*' {
            // A block comment is consumed until the first `*/`, not
            // nesting-aware, its internal newlines still counted.
            let j = block_comment_end(s, i + 2);
            skip_step(j, line + count_newlines(s, i + 2, j))
        } else {
            tok_step(s, i, line, i + 1, TokenType::SLASH, LiteralV::Nil)
        }
    } else if c == ' ' || c == '\r' || c == '\t' {
        skip_step(i + 1, line)
    } else if c == '\n' {
        skip_step(i + 1, (line + 1) as nat)
    } else if c == '"' {
        string_step(s, i, line)
    } else if is_digit_char(c) {
        number_step(s, i, line)
    } else if is_alpha_char(c) {
        ident_step(s, i, line)
    } else {
        // An unrecognized character is consumed and recorded; scanning
        // continues with the next character.
        ScanStep {
            next: i + 1,
            line,
            token: None,
            error: Some(
                DiagV {
                    line,
                    location: Seq::<char>::empty(),
                    message: unexpected_char_message(),
                },
            ),
        }
    }
}

/// Every step consumes at least one character, stays inside the input, and
/// never moves the line counter backwards nor by more than the characters
/// it consumed.
pub proof fn lemma_next_step_bounds(s: Seq<char>, i: int, line: nat)
    requires
        0 <= i < s.len(),
    ensures
        i < next_step(s, i, line).next <= s.len(),
        line <= next_step(s, i, line).line <= line + (next_step(s, i, line).next - i),
{
    let c = s[i];
    if c == '/' {
        if i + 1 < s.len() && s[i + 1] == '/' {
            lemma_line_comment_end(s, i + 2);
        } else if i + 1 < s.len() && s[i + 1] == '*' {
            lemma_block_comment_end(s, i + 2);
            lemma_count_newlines_bound(s, i + 2, block_comment_end(s, i + 2));
        }
    } else if c == '"' {
        lemma_string_body_end(s, i + 1);
        lemma_count_newlines_bound(s, i + 1, string_body_end(s, i + 1));
    } else if is_digit_char(c) {
        let nd = digit_run_end(s, i + 1);
        lemma_digit_run_end(s, i + 1);
        if nd < s.len() && s[nd] == '.' && nd + 1 < s.len() && is_digit_char(s[nd + 1]) {
            lemma_digit_run_end(s, nd + 1);
        }
    } else if is_alpha_char(c) {
        lemma_ident_run_end(s, i + 1);
    }
}

/// What a whole scan produces: the token sequence and the recorded lexical
/// errors, in source order.
pub struct ScanOut {
    pub tokens: Seq<TokenV>,
    pub errors: Seq<DiagV>,
}

/// A sequence of the content of an option: one element or none.
pub open spec fn opt_seq<T>(o: Option<T>) -> Seq<T> {
    match o {
        Some(x) => seq![x],
        None => Seq::<T>::empty(),
    }
}

/// The whole scan of `s` from position `i` with line counter `line`: one
/// classification step per lexeme until the input is exhausted, then
/// exactly one `EOF` token with an empty lexeme and the final line value.
pub open spec fn scan_from(s: Seq<char>, i: int, line: nat) -> ScanOut
    decreases s.len() - i when 0 <= i
{
    if i >= s.len() {
        ScanOut {
            tokens: seq![
                TokenV {
                    token_type: TokenType::EOF,
                    lexeme: Seq::<char>::empty(),
                    literal: LiteralV::Nil,
                    line,
                },
            ],
            errors: Seq::<DiagV>::empty(),
        }
    } else {
        let st = next_step(s, i, line);
        proof {
            lemma_next_step_bounds(s, i, line);
        }
        let rest = scan_from(s, st.next, st.line);
        ScanOut {
            tokens: opt_seq(st.token) + rest.tokens,
            errors: opt_seq(st.error) + rest.errors,
        }
    }
}

/// For all input text, the scan's result ends with exactly one `EOF`
/// token, whose lexeme is the empty string: the last token is `EOF` and no
/// earlier token is.
pub proof fn lemma_scan_ends_with_one_eof(s: Seq<char>, i: int, line: nat)
    requires
        0 <= i <= s.len(),
    ensures
        scan_from(s, i, line).tokens.len() >= 1,
        scan_from(s, i, line).tokens.last().token_type == TokenType::EOF,
        scan_from(s, i, line).tokens.last().lexeme == Seq::<char>::empty(),
        forall|k: int|
            0 <= k < scan_from(s, i, line).tokens.len() - 1 ==> scan_from(
                s,
                i,
                line,
            ).tokens[k].token_type != TokenType::EOF,
    decreases s.len() - i,
{
    if i < s.len() {
        let st = next_step(s, i, line);
        lemma_next_step_bounds(s, i, line);
        lemma_scan_ends_with_one_eof(s, st.next, st.line);
        if st.token is Some {
            assert(st.token.unwrap().token_type != TokenType::EOF);
        }
    }
}

/// Whether a token's lexeme is an exact substring of the source `s`.
pub open spec fn lexeme_from_source(s: Seq<char>, t: TokenV) -> bool {
    exists|a: int, b: int| 0 <= a <= b <= s.len() && t.lexeme == s.subrange(a, b)
}

/// Every produced token's lexeme is an exact substring of the source: the
/// characters between some start and end offset of the scanned range (for
/// the `EOF` token, the empty substring).
pub proof fn lemma_lexemes_are_substrings(s: Seq<char>, i: int, line: nat)
    requires
        0 <= i <= s.len(),
    ensures
        forall|k: int|
            0 <= k < scan_from(s, i, line).tokens.len() ==> lexeme_from_source(
                s,
                #[trigger] scan_from(s, i, line).tokens[k],
            ),
    decreases s.len() - i,
{
    let out = scan_from(s, i, line);
    if i >= s.len() {
        assert(out.tokens[0].lexeme =~= s.subrange(0, 0));
        assert(lexeme_from_source(s, out.tokens[0]));
    } else {
        let st = next_step(s, i, line);
        lemma_next_step_bounds(s, i, line);
        lemma_lexemes_are_substrings(s, st.next, st.line);
        let rest = scan_from(s, st.next, st.line);
        if st.token is Some {
            assert(out.tokens[0].lexeme == s.subrange(i, st.next));
            assert(lexeme_from_source(s, out.tokens[0]));
            assert(forall|k: int|
                1 <= k < out.tokens.len() ==> #[trigger] out.tokens[k] == rest.tokens[k - 1]);
        } else {
            assert(forall|k: int|
                0 <= k < out.tokens.len() ==> #[trigger] out.tokens[k] == rest.tokens[k]);
        }
    }
}

/// Across a scanned token sequence, the line number is monotonically
/// non-decreasing, and no token's line precedes the line the scan started
/// on.
pub proof fn lemma_token_lines_monotonic(s: Seq<char>, i: int, line: nat)
    requires
        0 <= i <= s.len(),
    ensures
        forall|k: int|
            0 <= k < scan_from(s, i, line).tokens.len() ==> #[trigger] scan_from(
                s,
                i,
                line,
            ).tokens[k].line >= line,
        forall|k1: int, k2: int|
            0 <= k1 <= k2 < scan_from(s, i, line).tokens.len() ==> #[trigger] scan_from(
                s,
                i,
                line,
            ).tokens[k1].line <= #[trigger] scan_from(s, i, line).tokens[k2].line,
    decreases s.len() - i,
{
    let out = scan_from(s, i, line);
    if i < s.len() {
        let st = next_step(s, i, line);
        lemma_next_step_bounds(s, i, line);
        lemma_token_lines_monotonic(s, st.next, st.line);
        let rest = scan_from(s, st.next, st.line);
        if st.token is Some {
            assert(st.token.unwrap().line == line);
            assert(forall|k: int|
                1 <= k < out.tokens.len() ==> #[trigger] out.tokens[k] == rest.tokens[k - 1]);
        } else {
            assert(forall|k: int|
                0 <= k < out.tokens.len() ==> #[trigger] out.tokens[k] == rest.tokens[k]);
        }
    }
}

/// Every number literal a scan produces is well formed and canonical: its
/// payload can always be rendered.
pub proof fn lemma_scan_literals_renderable(s: Seq<char>, i: int, line: nat)
    requires
        0 <= i <= s.len(),
    ensures
        forall|k: int|
            0 <= k < scan_from(s, i, line).tokens.len() ==> crate::scanner::token::literal::lit_wf(
                #[trigger] scan_from(s, i, line).tokens[k].literal,
            ),
    decreases s.len() - i,
{
    let out = scan_from(s, i, line);
    if i < s.len() {
        let st = next_step(s, i, line);
        lemma_next_step_bounds(s, i, line);
        lemma_scan_literals_renderable(s, st.next, st.line);
        let rest = scan_from(s, st.next, st.line);
        if is_digit_char(s[i]) {
            let nd = digit_run_end(s, i + 1);
            lemma_digit_run_end(s, i + 1);
            let ints = digit_vals(s.subrange(i, nd));
            assert(forall|k: int| 0 <= k < ints.len() ==> ints[k] < 10) by {
                assert(forall|k: int|
                    0 <= k < ints.len() ==> ints[k] == digit_val(s.subrange(i, nd)[k]));
            }
            crate::scanner::token::literal::lemma_canon_int_wf(ints);
            if nd < s.len() && s[nd] == '.' && nd + 1 < s.len() && is_digit_char(s[nd + 1]) {
                let j = digit_run_end(s, nd + 1);
                lemma_digit_run_end(s, nd + 1);
                let fracs = digit_vals(s.subrange(nd + 1, j));
                assert(forall|k: int| 0 <= k < fracs.len() ==> fracs[k] < 10) by {
                    assert(forall|k: int|
                        0 <= k < fracs.len() ==> fracs[k] == digit_val(s.subrange(nd + 1, j)[k]));
                }
                crate::scanner::token::literal::lemma_canon_frac_bound(fracs);
            } else {
                crate::scanner::token::literal::lemma_canon_frac_bound(Seq::<u8>::empty());
            }
        }
        if st.token is Some {
            assert(crate::scanner::token::literal::lit_wf(st.token.unwrap().literal));
            assert(forall|k: int|
                1 <= k < out.tokens.len() ==> #[trigger] out.tokens[k] == rest.tokens[k - 1]);
        } else {
            assert(forall|k: int|
                0 <= k < out.tokens.len() ==> #[trigger] out.tokens[k] == rest.tokens[k]);
        }
    }
}

/// Whether two string slices hold the same characters.
fn eq_str(a: &str, b: &str) -> (r: bool)
    ensures
        r == (a@ == b@),
{
    let la = a.unicode_len();
    let lb = b.unicode_len();
    if la != lb {
        return false;
    }
    let mut k: usize = 0;
    while k < la
        invariant
            k <= la,
            la == a@.len(),
            la == b@.len(),
            forall|j: int| 0 <= j < k ==> a@[j] == b@[j],
        decreases la - k,
    {
        if a.get_char(k) != b.get_char(k) {
            return false;
        }
        k = k + 1;
    }
    proof {
        assert(a@ =~= b@);
    }
    true
}

/// Looks identifier text up in the fixed keyword table.
fn keyword_type(text: &str) -> (t: TokenType)
    ensures
        t == keyword_lookup(text@),
{
    if eq_str(text, "and") {
        TokenType::AND
    } else if eq_str(text, "class") {
        TokenType::CLASS
    } else if eq_str(text, "else") {
        TokenType::ELSE
    } else if eq_str(text, "false") {
        TokenType::FALSE
    } else if eq_str(text, "for") {
        TokenType::FOR
    } else if eq_str(text, "fun") {
        TokenType::FUN
    } else if eq_str(text, "if") {
        TokenType::IF
    } else if eq_str(text, "nil") {
        TokenType::NIL
    } else if eq_str(text, "or") {
        TokenType::OR
    } else if eq_str(text, "print") {
        TokenType::PRINT
    } else if eq_str(text, "return") {
        TokenType::RETURN
    } else if eq_str(text, "super") {
        TokenType::SUPER
    } else if eq_str(text, "this") {
        TokenType::THIS
    } else if eq_str(text, "true") {
        TokenType::TRUE
    } else if eq_str(text, "var") {
        TokenType::VAR
    } else if eq_str(text, "while") {
        TokenType::WHILE
    } else {
        TokenType::IDENTIFIER
    }
}

/// The numeric value of a digit character.
fn digit_value(c: char) -> (r: u8)
    requires
        is_digit_char(c),
    ensures
        r == digit_val(c),
{
    ((c as u32) - ('0' as u32)) as u8
}

/// Consumes a source string, producing its ordered token sequence.  Keeps
/// two offsets into the source: `start`, the beginning of the lexeme being
/// recognized, and `current`, the next unread character, plus the 1-based
/// `line` counter of `current`.
pub struct Scanner {
    pub source: String,
    pub tokens: Vec<Token>,
    pub start: usize,
    pub current: usize,
    pub end: usize,
    pub line: u32,
}

impl Scanner {
    /// The characters of the source.
    pub open spec fn src(self) -> Seq<char> {
        self.source@
    }

    /// The models of the tokens produced so far.
    pub open spec fn toks(self) -> Seq<TokenV> {
        token_views(self.tokens@)
    }

    /// Well-formedness: `end` caches the character count, the offsets stay
    /// in range, and the line counter never exceeds one more than the
    /// characters consumed (which keeps it within `u32`).
    pub open spec fn wf(self) -> bool {
        &&& self.end == self.src().len()
        &&& self.src().len() < u32::MAX as nat
        &&& self.start <= self.current <= self.end
        &&& 1 <= self.line
        &&& self.line as nat <= 1 + self.current as nat
    }

    /// A fresh scanner over `source`, positioned at its first character.
    ///
    /// The source must leave the 32-bit line counter room: fewer characters
    /// than `u32::MAX`.
    pub fn new(source: String) -> (r: Scanner)
        requires
            source@.len() < u32::MAX as nat,
        ensures
            r.wf(),
            r.src() == source@,
            r.current == 0,
            r.start == 0,
            r.line == 1,
            r.toks() == Seq::<TokenV>::empty(),
    {
        let end = source.as_str().unicode_len();
        let r = Scanner { source, tokens: Vec::new(), start: 0, current: 0, end, line: 1 };
        proof {
            assert(r.toks() =~= Seq::<TokenV>::empty());
        }
        r
    }

    /// Whether the whole source has been consumed.
    fn is_at_end(&self) -> (r: bool)
        requires
            self.wf(),
        ensures
            r == (self.current >= self.end),
    {
        self.current >= self.end
    }

    /// Consumes and returns the next character.
    fn advance(&mut self) -> (c: char)
        requires
            old(self).wf(),
            old(self).current < old(self).end,
        ensures
            final(self).wf(),
            c == old(self).src()[old(self).current as int],
            final(self).current == old(self).current + 1,
            final(self).source == old(self).source,
            final(self).tokens == old(self).tokens,
            final(self).start == old(self).start,
            final(self).end == old(self).end,
            final(self).line == old(self).line,
    {
        let c = self.source.as_str().get_char(self.current);
        self.current = self.current + 1;
        c
    }

    /// The next unread character, or `'\0'` at the end of input.
    fn peek(&self) -> (c: char)
        requires
            self.wf(),
        ensures
            c == (if self.current < self.end {
                self.src()[self.current as int]
            } else {
                '\0'
            }),
    {
        if self.current >= self.end {
            return '\0';
        }
        self.source.as_str().get_char(self.current)
    }

    /// The character after the next unread one, or `'\0'` past the end.
    fn peek_next(&self) -> (c: char)
        requires
            self.wf(),
        ensures
            c == (if self.current + 1 < self.end {
                self.src()[self.current as int + 1]
            } else {
                '\0'
            }),
    {
        if self.current + 1 >= self.end {
            return '\0';
        }
        self.source.as_str().get_char(self.current + 1)
    }

    /// One character of conditional lookahead: consumes the next character
    /// exactly when it equals `expected`.
    fn match_token(&mut self, expected: char) -> (r: bool)
        requires
            old(self).wf(),
        ensures
            final(self).wf(),
            r == (old(self).current < old(self).end && old(self).src()[old(self).current as int]
                == expected),
            final(self).current == old(self).current + (if r {
                1int
            } else {
                0int
            }),
            final(self).source == old(self).source,
            final(self).tokens == old(self).tokens,
            final(self).start == old(self).start,
            final(self).end == old(self).end,
            final(self).line == old(self).line,
    {
        if self.is_at_end() {
            return false;
        }
        let c = self.source.as_str().get_char(self.current);
        if c != expected {
            return false;
        }
        self.current = self.current + 1;
        true
    }

    /// Whether `c` may start an identifier.
    fn is_alpha(&self, c: char) -> (r: bool)
        ensures
            r == is_alpha_char(c),
    {
        let u = c as u32;
        (('a' as u32) <= u && u <= ('z' as u32)) || (('A' as u32) <= u && u <= ('Z' as u32)) || c
            == '_'
    }

    /// Whether `c` may continue an identifier.
    fn is_alpha_numeric(&self, c: char) -> (r: bool)
        ensures
            r == is_alnum_char(c),
    {
        self.is_alpha(c) || self.is_digit(c)
    }

    /// Whether `c` is a decimal digit.
    fn is_digit(&self, c: char) -> (r: bool)
        ensures
            r == is_digit_char(c),
    {
        let u = c as u32;
        ('0' as u32) <= u && u <= ('9' as u32)
    }

    /// Emits a token with no literal payload for the current lexeme.
    fn add_token(&mut self, token_type: TokenType)
        requires
            old(self).wf(),
        ensures
            final(self).wf(),
            final(self).toks() == old(self).toks().push(
                TokenV {
                    token_type,
                    lexeme: old(self).src().subrange(
                        old(self).start as int,
                        old(self).current as int,
                    ),
                    literal: LiteralV::Nil,
                    line: old(self).line as nat,
                },
            ),
            final(self).source == old(self).source,
            final(self).start == old(self).start,
            final(self).current == old(self).current,
            final(self).end == old(self).end,
            final(self).line == old(self).line,
    {
        self.add_token_complete(token_type, Literal::Nil);
    }

    /// Emits a token for the current lexeme, the exact source text between
    /// `start` and `current`, on the current line.
    fn add_token_complete(&mut self, token_type: TokenType, literal: Literal)
        requires
            old(self).wf(),
        ensures
            final(self).wf(),
            final(self).toks() == old(self).toks().push(
                TokenV {
                    token_type,
                    lexeme: old(self).src().subrange(
                        old(self).start as int,
                        old(self).current as int,
                    ),
                    literal: literal@,
                    line: old(self).line as nat,
                },
            ),
            final(self).source == old(self).source,
            final(self).start == old(self).start,
            final(self).current == old(self).current,
            final(self).end == old(self).end,
            final(self).line == old(self).line,
    {
        let ghost before = self.tokens@;
        let lexeme = self.source.as_str().substring_char(self.start, self.current).to_owned();
        let t = Token::new(token_type, lexeme, literal, self.line);
        self.tokens.push(t);
        proof {
            assert(self.tokens@.map_values(|t: Token| t@) =~= before.map_values(|t: Token| t@)
                .push(self.tokens@.last()@));
        }
    }

    /// Recognizes the identifier or keyword whose first character, at
    /// `start`, has just been consumed.
    #[verifier::loop_isolation(false)]
    fn identifier(&mut self)
        requires
            old(self).wf(),
            old(self).current == old(self).start + 1,
            is_alpha_char(old(self).src()[old(self).start as int]),
        ensures
            final(self).wf(),
            final(self).source == old(self).source,
            final(self).end == old(self).end,
            final(self).start == old(self).start,
            final(self).line == old(self).line,
            ({
                let st = ident_step(old(self).src(), old(self).start as int, old(self).line as nat);
                &&& final(self).current as int == st.next
                &&& final(self).toks() == old(self).toks() + opt_seq(st.token)
            }),
    {
        let ghost s = self.src();
        let ghost c0 = self.current as int;
        while self.is_alpha_numeric(self.peek())
            invariant
                self.wf(),
                self.source == old(self).source,
                self.end == old(self).end,
                self.start == old(self).start,
                self.line == old(self).line,
                self.tokens == old(self).tokens,
                c0 <= self.current as int,
                ident_run_end(s, c0) == ident_run_end(s, self.current as int),
            decreases self.end - self.current,
        {
            proof {
                assert(ident_run_end(s, self.current as int) == ident_run_end(
                    s,
                    self.current as int + 1,
                ));
            }
            self.advance();
        }
        proof {
            assert(ident_run_end(s, self.current as int) == self.current as int);
        }
        let text = self.source.as_str().substring_char(self.start, self.current);
        let token_type = keyword_type(text);
        let lit = match token_type {
            TokenType::TRUE => Literal::Bool(true),
            TokenType::FALSE => Literal::Bool(false),
            _ => Literal::Nil,
        };
        self.add_token_complete(token_type, lit);
        proof {
            let st = ident_step(s, old(self).start as int, old(self).line as nat);
            assert(self.toks() =~= old(self).toks() + opt_seq(st.token));
        }
    }

    /// Recognizes the number literal whose first digit, at `start`, has
    /// just been consumed.
    #[verifier::loop_isolation(false)]
    fn number(&mut self)
        requires
            old(self).wf(),
            old(self).current == old(self).start + 1,
            is_digit_char(old(self).src()[old(self).start as int]),
        ensures
            final(self).wf(),
            final(self).source == old(self).source,
            final(self).end == old(self).end,
            final(self).start == old(self).start,
            final(self).line == old(self).line,
            ({
                let st = number_step(
                    old(self).src(),
                    old(self).start as int,
                    old(self).line as nat,
                );
                &&& final(self).current as int == st.next
                &&& final(self).toks() == old(self).toks() + opt_seq(st.token)
            }),
    {
        let ghost s = self.src();
        let ghost c0 = self.current as int;
        while self.is_digit(self.peek())
            invariant
                self.wf(),
                self.source == old(self).source,
                self.end == old(self).end,
                self.start == old(self).start,
                self.line == old(self).line,
                self.tokens == old(self).tokens,
                c0 <= self.current as int,
                digit_run_end(s, c0) == digit_run_end(s, self.current as int),
            decreases self.end - self.current,
        {
            proof {
                assert(digit_run_end(s, self.current as int) == digit_run_end(
                    s,
                    self.current as int + 1,
                ));
            }
            self.advance();
        }
        proof {
            assert(digit_run_end(s, self.current as int) == self.current as int);
            lemma_digit_run_end(s, c0);
        }
        let nd = self.current;
        // Look for a fractional part: one `.` followed by at least one
        // digit; a bare trailing `.` is left unconsumed.
        let has_frac = self.peek() == '.' && self.is_digit(self.peek_next());
        if has_frac {
            // Consume the `.`.
            self.advance();
            let ghost c1 = self.current as int;
            while self.is_digit(self.peek())
                invariant
                    self.wf(),
                    self.source == old(self).source,
                    self.end == old(self).end,
                    self.start == old(self).start,
                    self.line == old(self).line,
                    self.tokens == old(self).tokens,
                    c1 <= self.current as int,
                    digit_run_end(s, c1) == digit_run_end(s, self.current as int),
                decreases self.end - self.current,
            {
                proof {
                    assert(digit_run_end(s, self.current as int) == digit_run_end(
                        s,
                        self.current as int + 1,
                    ));
                }
                self.advance();
            }
            proof {
                assert(digit_run_end(s, self.current as int) == self.current as int);
                lemma_digit_run_end(s, c1);
            }
        }
        let mut whole: Vec<u8> = Vec::new();
        let mut k: usize = self.start;
        while k < nd
            invariant
                self.wf(),
                s == self.src(),
                self.start <= k <= nd <= self.end,
                forall|j: int| self.start <= j < nd ==> is_digit_char(s[j]),
                whole@ == digit_vals(s.subrange(self.start as int, k as int)),
            decreases nd - k,
        {
            let c = self.source.as_str().get_char(k);
            whole.push(digit_value(c));
            k = k + 1;
            proof {
                assert(s.subrange(self.start as int, k as int) =~= s.subrange(
                    self.start as int,
                    k as int - 1,
                ).push(s[k as int - 1]));
                assert(digit_vals(s.subrange(self.start as int, k as int)) =~= digit_vals(
                    s.subrange(self.start as int, k as int - 1),
                ).push(digit_val(s[k as int - 1])));
            }
        }
        let mut fract: Vec<u8> = Vec::new();
        if has_frac {
            let mut k: usize = nd + 1;
            while k < self.current
                invariant
                    self.wf(),
                    s == self.src(),
                    nd + 1 <= k <= self.current,
                    forall|j: int| nd + 1 <= j < self.current as int ==> is_digit_char(s[j]),
                    fract@ == digit_vals(s.subrange(nd as int + 1, k as int)),
                decreases self.current - k,
            {
                let c = self.source.as_str().get_char(k);
                fract.push(digit_value(c));
                k = k + 1;
                proof {
                    assert(s.subrange(nd as int + 1, k as int) =~= s.subrange(
                        nd as int + 1,
                        k as int - 1,
                    ).push(s[k as int - 1]));
                    assert(digit_vals(s.subrange(nd as int + 1, k as int)) =~= digit_vals(
                        s.subrange(nd as int + 1, k as int - 1),
                    ).push(digit_val(s[k as int - 1])));
                }
            }
        }
        proof {
            assert(forall|m: int| 0 <= m < whole@.len() ==> whole@[m] < 10) by {
                assert(forall|m: int|
                    0 <= m < whole@.len() ==> whole@[m] == digit_val(
                        s.subrange(self.start as int, nd as int)[m],
                    ));
            }
            assert(forall|m: int| 0 <= m < fract@.len() ==> fract@[m] < 10) by {
                assert(forall|m: int|
                    0 <= m < fract@.len() ==> fract@[m] == digit_val(
                        s.subrange(nd as int + 1, self.current as int)[m],
                    ));
            }
        }
        let value = NumberValue::from_parts(whole, fract);
        self.add_token_complete(TokenType::NUMBER, Literal::Number(value));
        proof {
            assert(canon_frac(Seq::<u8>::empty()) == Seq::<u8>::empty());
            let st = number_step(s, old(self).start as int, old(self).line as nat);
            assert(self.toks() =~= old(self).toks() + opt_seq(st.token));
        }
    }

    /// Recognizes the string literal whose opening quote, at `start`, has
    /// just been consumed.  Reaching the end of input first records one
    /// lexical error and emits no token.
    #[verifier::loop_isolation(false)]
    fn string(&mut self, lox: &mut Lox)
        requires
            old(self).wf(),
            old(self).current == old(self).start + 1,
            old(self).src()[old(self).start as int] == '"',
        ensures
            final(self).wf(),
            final(self).source == old(self).source,
            final(self).end == old(self).end,
            final(self).start == old(self).start,
            ({
                let st = string_step(
                    old(self).src(),
                    old(self).start as int,
                    old(self).line as nat,
                );
                &&& final(self).current as int == st.next
                &&& final(self).line as nat == st.line
                &&& final(self).toks() == old(self).toks() + opt_seq(st.token)
                &&& final(lox)@.diags == old(lox)@.diags + opt_seq(st.error)
                &&& final(lox)@.had_error == (old(lox)@.had_error || st.error is Some)
            }),
    {
        let ghost s = self.src();
        let ghost c0 = self.current as int;
        let mut newlines: u32 = 0;
        while self.peek() != '"' && !self.is_at_end()
            invariant
                self.wf(),
                self.source == old(self).source,
                self.end == old(self).end,
                self.start == old(self).start,
                self.line == old(self).line,
                self.tokens == old(self).tokens,
                c0 <= self.current as int,
                string_body_end(s, c0) == string_body_end(s, self.current as int),
                newlines as nat == count_newlines(s, c0, self.current as int),
                newlines as int <= self.current as int - c0,
            decreases self.end - self.current,
        {
            proof {
                assert(string_body_end(s, self.current as int) == string_body_end(
                    s,
                    self.current as int + 1,
                ));
                lemma_count_newlines_snoc(s, c0, self.current as int);
            }
            let c = self.advance();
            if c == '\n' {
                newlines = newlines + 1;
            }
        }
        proof {
            assert(string_body_end(s, self.current as int) == self.current as int);
        }
        if self.is_at_end() {
            self.line = self.line + newlines;
            lox.error(self.line, "Unterminated string.".to_owned());
            proof {
                let st = string_step(s, old(self).start as int, old(self).line as nat);
                assert(self.toks() =~= old(self).toks() + opt_seq(st.token));
                assert(lox@.diags =~= old(lox)@.diags + opt_seq(st.error));
            }
            return ;
        }
        // The closing quote.
        self.advance();
        // Trim the surrounding quotes.
        let value = self.source.as_str().substring_char(self.start + 1, self.current - 1).to_owned();
        self.add_token_complete(TokenType::STRING, Literal::Str(value));
        self.line = self.line + newlines;
        proof {
            let st = string_step(s, old(self).start as int, old(self).line as nat);
            assert(self.toks() =~= old(self).toks() + opt_seq(st.token));
            assert(lox@.diags =~= old(lox)@.diags + opt_seq(st.error));
        }
    }

    /// Classifies and consumes the single lexeme starting at the current
    /// position, which must be inside the input.  Emits at most one token
    /// or records at most one lexical error, exactly as the specification
    /// step [`next_step`] describes.
    #[verifier::loop_isolation(false)]
    pub fn scan_token(&mut self, lox: &mut Lox)
        requires
            old(self).wf(),
            old(self).current < old(self).end,
        ensures
            final(self).wf(),
            final(self).source == old(self).source,
            final(self).end == old(self).end,
            ({
                let st = next_step(old(self).src(), old(self).current as int, old(self).line as nat);
                &&& final(self).current as int == st.next
                &&& final(self).line as nat == st.line
                &&& final(self).toks() == old(self).toks() + opt_seq(st.token)
                &&& final(lox)@.diags == old(lox)@.diags + opt_seq(st.error)
                &&& final(lox)@.had_error == (old(lox)@.had_error || st.error is Some)
            }),
    {
        let ghost s = self.src();
        let ghost i = self.current as int;
        let ghost line0 = self.line as nat;
        self.start = self.current;
        let c = self.advance();
        match c {
            '(' => self.add_token(TokenType::LEFT_PAREN),
            ')' => self.add_token(TokenType::RIGHT_PAREN),
            '{' => self.add_token(TokenType::LEFT_BRACE),
            '}' => self.add_token(TokenType::RIGHT_BRACE),
            ',' => self.add_token(TokenType::COMMA),
            '.' => self.add_token(TokenType::DOT),
            '-' => self.add_token(TokenType::MINUS),
            '+' => self.add_token(TokenType::PLUS),
            ';' => self.add_token(TokenType::SEMICOLON),
            '*' => self.add_token(TokenType::STAR),
            '!' => {
                let token_type: TokenType = if self.match_token('=') {
                    TokenType::BANG_EQUAL
                } else {
                    TokenType::BANG
                };
                self.add_token(token_type);
            },
            '=' => {
                let token_type: TokenType = if self.match_token('=') {
                    TokenType::EQUAL_EQUAL
                } else {
                    TokenType::EQUAL
                };
                self.add_token(token_type);
            },
            '<' => {
                let token_type: TokenType = if self.match_token('=') {
                    TokenType::LESS_EQUAL
                } else {
                    TokenType::LESS
                };
                self.add_token(token_type);
            },
            '>' => {
                let token_type: TokenType = if self.match_token('=') {
                    TokenType::GREATER_EQUAL
                } else {
                    TokenType::GREATER
                };
                self.add_token(token_type);
            },
            '/' => {
                if self.match_token('/') {
                    // A comment goes until the end of the line.
                    let ghost c2 = self.current as int;
                    while self.peek() != '\n' && !self.is_at_end()
                        invariant
                            self.wf(),
                            self.source == old(self).source,
                            self.end == old(self).end,
                            self.start as int == i,
                            self.line == old(self).line,
                            self.tokens == old(self).tokens,
                            c2 <= self.current as int,
                            line_comment_end(s, c2) == line_comment_end(s, self.current as int),
                        decreases self.end - self.current,
                    {
                        proof {
                            assert(line_comment_end(s, self.current as int) == line_comment_end(
                                s,
                                self.current as int + 1,
                            ));
                        }
                        self.advance();
                    }
                    proof {
                        assert(line_comment_end(s, self.current as int) == self.current as int);
                    }
                } else if self.match_token('*') {
                    // A block comment goes until the first `*/`; its
                    // internal newlines still advance the line counter.
                    let ghost c2 = self.current as int;
                    let mut closed = false;
                    while !closed && self.current < self.end
                        invariant
                            self.wf(),
                            self.source == old(self).source,
                            self.end == old(self).end,
                            self.start as int == i,
                            self.tokens == old(self).tokens,
                            c2 <= self.current as int,
                            self.line as nat == line0 + count_newlines(s, c2, self.current as int),
                            closed ==> self.current as int == block_comment_end(s, c2),
                            !closed ==> block_comment_end(s, c2) == block_comment_end(
                                s,
                                self.current as int,
                            ),
                        decreases self.end - self.current,
                    {
                        if self.peek() == '*' && self.peek_next() == '/' {
                            // Consume `*/`.
                            proof {
                                lemma_count_newlines_snoc(s, c2, self.current as int);
                                lemma_count_newlines_snoc(s, c2, self.current as int + 1);
                            }
                            self.advance();
                            self.advance();
                            closed = true;
                        } else {
                            proof {
                                assert(block_comment_end(s, self.current as int)
                                    == block_comment_end(s, self.current as int + 1));
                                lemma_count_newlines_snoc(s, c2, self.current as int);
                            }
                            let inner = self.advance();
                            if inner == '\n' {
                                self.line = self.line + 1;
                            }
                        }
                    }
                    proof {
                        let st = next_step(s, i, line0);
                        assert(self.current as int == block_comment_end(s, c2));
                        assert(st.next == block_comment_end(s, c2));
                        assert(st.line == line0 + count_newlines(s, c2, block_comment_end(s, c2)));
                    }
                } else {
                    self.add_token(TokenType::SLASH);
                }
            },
            ' ' | '\r' | '\t' => {},
            '\n' => {
                self.line = self.line + 1;
            },
            '"' => self.string(lox),
            _ => {
                if self.is_digit(c) {
                    self.number();
                } else if self.is_alpha(c) {
                    self.identifier();
                } else {
                    lox.error(self.line, "Unexpected character.".to_owned());
                }
            },
        }
        proof {
            let st = next_step(s, i, line0);
            assert(self.toks() =~= old(self).toks() + opt_seq(st.token));
            assert(lox@.diags =~= old(lox)@.diags + opt_seq(st.error));
        }
    }

    /// Scans the remaining source, one lexeme at a time, and appends
    /// exactly one `EOF` token with an empty lexeme and the final line
    /// value.  Returns a copy of the produced token sequence; every
    /// lexical error encountered is recorded in `lox` and scanning
    /// continues past it.
    #[verifier::loop_isolation(false)]
    pub fn scan_tokens(&mut self, lox: &mut Lox) -> (r: Vec<Token>)
        requires
            old(self).wf(),
        ensures
            final(self).wf(),
            final(self).source == old(self).source,
            final(self).current == final(self).end,
            ({
                let out = scan_from(old(self).src(), old(self).current as int, old(self).line as nat);
                &&& final(self).toks() == old(self).toks() + out.tokens
                &&& token_views(r@) == final(self).toks()
                &&& final(lox)@.diags == old(lox)@.diags + out.errors
                &&& final(lox)@.had_error == (old(lox)@.had_error || out.errors.len() > 0)
            }),
    {
        let ghost s = self.src();
        let ghost out = scan_from(s, old(self).current as int, old(self).line as nat);
        while !self.is_at_end()
            invariant
                self.wf(),
                self.source == old(self).source,
                self.end == old(self).end,
                old(self).toks() + out.tokens == self.toks() + scan_from(
                    s,
                    self.current as int,
                    self.line as nat,
                ).tokens,
                old(lox)@.diags + out.errors == lox@.diags + scan_from(
                    s,
                    self.current as int,
                    self.line as nat,
                ).errors,
                lox@.had_error == (old(lox)@.had_error || lox@.diags.len() > old(
                    lox,
                )@.diags.len()),
                old(lox)@.diags.len() <= lox@.diags.len(),
            decreases self.end - self.current,
        {
            let ghost cur = self.current as int;
            let ghost ln = self.line as nat;
            proof {
                lemma_next_step_bounds(s, cur, ln);
            }
            self.scan_token(lox);
            proof {
                let st = next_step(s, cur, ln);
                let rest = scan_from(s, st.next, st.line);
                assert(scan_from(s, cur, ln).tokens =~= opt_seq(st.token) + rest.tokens);
                assert(scan_from(s, cur, ln).errors =~= opt_seq(st.error) + rest.errors);
                assert(old(self).toks() + out.tokens =~= self.toks() + rest.tokens);
                assert(old(lox)@.diags + out.errors =~= lox@.diags + rest.errors);
            }
        }
        let ghost before_eof = self.tokens@;
        self.tokens.push(
            Token::new(TokenType::EOF, String::new(), Literal::Nil, self.line),
        );
        proof {
            assert(token_views(self.tokens@) =~= token_views(before_eof).push(
                self.tokens@.last()@,
            ));
            assert(scan_from(s, self.current as int, self.line as nat).tokens =~= seq![
                self.tokens@.last()@,
            ]);
            assert(self.toks() =~= old(self).toks() + out.tokens);
            assert(lox@.diags =~= old(lox)@.diags + out.errors);
        }
        let r = self.tokens.clone();
        proof {
            assert forall|m: int| 0 <= m < r@.len() implies r@[m]@ == self.tokens@[m]@ by {
                assert(cloned::<Token>(self.tokens@[m], r@[m]));
            }
            assert(token_views(r@) =~= self.toks());
        }
        r
    }
}

} // verus!
