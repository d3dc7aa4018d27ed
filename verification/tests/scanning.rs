//! Behavior of the scanner on whole source texts.

use lox::{Literal, Lox, NumberValue, Scanner, Token, TokenType};

fn scan_with_lox(source: &str) -> (Vec<Token>, Lox) {
    let mut lox = Lox::new();
    let mut scanner = Scanner::new(source.to_string());
    let tokens = scanner.scan_tokens(&mut lox);
    (tokens, lox)
}

fn scan(source: &str) -> Vec<Token> {
    scan_with_lox(source).0
}

fn number(lexeme: &str, int_digits: Vec<u8>, frac_digits: Vec<u8>, line: u32) -> Token {
    Token::new(
        TokenType::NUMBER,
        lexeme.to_string(),
        Literal::Number(NumberValue::from_parts(int_digits, frac_digits)),
        line,
    )
}

fn eof(line: u32) -> Token {
    Token::new(TokenType::EOF, String::new(), Literal::Nil, line)
}

#[test]
fn ends_with_exactly_one_eof() {
    for source in ["", "var x = 1;", "\"open", "@#$", "((((", "// only a comment"] {
        let tokens = scan(source);
        assert!(tokens.len() >= 1);
        let last = tokens.last().unwrap();
        assert_eq!(last.token_type, TokenType::EOF);
        assert_eq!(last.lexeme, "");
        let eof_count = tokens
            .iter()
            .filter(|t| t.token_type == TokenType::EOF)
            .count();
        assert_eq!(eof_count, 1);
    }
}

#[test]
fn one_plus_two() {
    let tokens = scan("1+2");
    let expected = vec![
        number("1", vec![1], vec![], 1),
        Token::new(TokenType::PLUS, "+".to_string(), Literal::Nil, 1),
        number("2", vec![2], vec![], 1),
        eof(1),
    ];
    assert_eq!(tokens, expected);
}

#[test]
fn line_comment_yields_no_token() {
    let tokens = scan("// c\n1");
    let expected = vec![number("1", vec![1], vec![], 2), eof(2)];
    assert_eq!(tokens, expected);
}

#[test]
fn unterminated_string_records_one_error() {
    let (tokens, lox) = scan_with_lox("\"abc");
    assert_eq!(tokens, vec![eof(1)]);
    assert!(lox.had_error);
    assert_eq!(lox.diagnostics.len(), 1);
    assert_eq!(lox.diagnostics[0].message, "Unterminated string.");
    assert_eq!(lox.diagnostics[0].line, 1);
    assert_eq!(lox.diagnostics[0].location, "");
}

#[test]
fn lexemes_are_exact_source_substrings() {
    let source = "fun add(a, b) { \"x\" >= 12.50 }";
    let tokens = scan(source);
    // recognized (start, end) byte offsets of every non-EOF lexeme
    let offsets = [
        (0, 3),
        (4, 7),
        (7, 8),
        (8, 9),
        (9, 10),
        (11, 12),
        (12, 13),
        (14, 15),
        (16, 19),
        (20, 22),
        (23, 28),
        (29, 30),
    ];
    assert_eq!(tokens.len(), offsets.len() + 1);
    for (token, (a, b)) in tokens.iter().zip(offsets.iter()) {
        assert_eq!(token.lexeme, &source[*a..*b]);
    }
}

#[test]
fn integer_and_fractional_spelling_same_value() {
    let three = scan("3");
    let three_point_zero = scan("3.0");
    let t1 = &three[0];
    let t2 = &three_point_zero[0];
    assert_eq!(t1.token_type, TokenType::NUMBER);
    assert_eq!(t2.token_type, TokenType::NUMBER);
    assert_ne!(t1.lexeme, t2.lexeme);
    assert_eq!(t1.lexeme, "3");
    assert_eq!(t2.lexeme, "3.0");
    assert_eq!(t1.literal, t2.literal);
    assert_eq!(t1.literal.render(), "3.0");
    assert_eq!(t2.literal.render(), "3.0");
}

#[test]
fn one_and_two_character_operators() {
    let tokens = scan("! != = == < <= > >= . , ; - * /");
    let types: Vec<TokenType> = tokens.iter().map(|t| t.token_type).collect();
    assert_eq!(
        types,
        vec![
            TokenType::BANG,
            TokenType::BANG_EQUAL,
            TokenType::EQUAL,
            TokenType::EQUAL_EQUAL,
            TokenType::LESS,
            TokenType::LESS_EQUAL,
            TokenType::GREATER,
            TokenType::GREATER_EQUAL,
            TokenType::DOT,
            TokenType::COMMA,
            TokenType::SEMICOLON,
            TokenType::MINUS,
            TokenType::STAR,
            TokenType::SLASH,
            TokenType::EOF,
        ]
    );
}

#[test]
fn punctuation_and_braces() {
    let tokens = scan("(){}");
    let types: Vec<TokenType> = tokens.iter().map(|t| t.token_type).collect();
    assert_eq!(
        types,
        vec![
            TokenType::LEFT_PAREN,
            TokenType::RIGHT_PAREN,
            TokenType::LEFT_BRACE,
            TokenType::RIGHT_BRACE,
            TokenType::EOF,
        ]
    );
}

#[test]
fn all_sixteen_keywords() {
    let tokens =
        scan("and class else false for fun if nil or print return super this true var while");
    let types: Vec<TokenType> = tokens.iter().map(|t| t.token_type).collect();
    assert_eq!(
        types,
        vec![
            TokenType::AND,
            TokenType::CLASS,
            TokenType::ELSE,
            TokenType::FALSE,
            TokenType::FOR,
            TokenType::FUN,
            TokenType::IF,
            TokenType::NIL,
            TokenType::OR,
            TokenType::PRINT,
            TokenType::RETURN,
            TokenType::SUPER,
            TokenType::THIS,
            TokenType::TRUE,
            TokenType::VAR,
            TokenType::WHILE,
            TokenType::EOF,
        ]
    );
    // boolean keywords carry their value; the rest carry none
    assert_eq!(tokens[3].literal, Literal::Bool(false));
    assert_eq!(tokens[13].literal, Literal::Bool(true));
    assert_eq!(tokens[7].literal, Literal::Nil);
    assert_eq!(tokens[0].lexeme, "and");
}

#[test]
fn identifiers_near_keywords() {
    let tokens = scan("android _class Or classy nil0");
    for t in tokens.iter().take(5) {
        assert_eq!(t.token_type, TokenType::IDENTIFIER);
    }
    assert_eq!(tokens[0].lexeme, "android");
    assert_eq!(tokens[1].lexeme, "_class");
}

#[test]
fn block_comment_counts_lines_and_yields_no_token() {
    let tokens = scan("1 /* x\ny */ 2");
    let expected = vec![
        number("1", vec![1], vec![], 1),
        number("2", vec![2], vec![], 2),
        eof(2),
    ];
    assert_eq!(tokens, expected);
}

#[test]
fn block_comment_does_not_nest() {
    // the embedded `/*` does not nest: the first `*/` closes the comment,
    // so the `1` is scanned
    let tokens = scan("/* /* */ 1");
    let types: Vec<TokenType> = tokens.iter().map(|t| t.token_type).collect();
    assert_eq!(types, vec![TokenType::NUMBER, TokenType::EOF]);
}

#[test]
fn unterminated_block_comment_is_not_an_error() {
    let (tokens, lox) = scan_with_lox("/* open");
    assert_eq!(tokens, vec![eof(1)]);
    assert!(!lox.had_error);
    assert_eq!(lox.diagnostics.len(), 0);
}

#[test]
fn string_literal_trims_quotes() {
    let tokens = scan("\"hi\"");
    assert_eq!(tokens[0].token_type, TokenType::STRING);
    assert_eq!(tokens[0].lexeme, "\"hi\"");
    assert_eq!(tokens[0].literal, Literal::Str("hi".to_string()));
}

#[test]
fn multiline_string_keeps_starting_line() {
    let tokens = scan("\"a\nb\" x");
    assert_eq!(tokens[0].token_type, TokenType::STRING);
    assert_eq!(tokens[0].line, 1);
    assert_eq!(tokens[0].literal, Literal::Str("a\nb".to_string()));
    assert_eq!(tokens[1].token_type, TokenType::IDENTIFIER);
    assert_eq!(tokens[1].line, 2);
}

#[test]
fn unexpected_character_is_recorded_and_skipped() {
    let (tokens, lox) = scan_with_lox("@1");
    let expected = vec![number("1", vec![1], vec![], 1), eof(1)];
    assert_eq!(tokens, expected);
    assert!(lox.had_error);
    assert_eq!(lox.diagnostics.len(), 1);
    assert_eq!(lox.diagnostics[0].message, "Unexpected character.");
    assert_eq!(
        lox.diagnostics[0].render(),
        "[line 1] Error : Unexpected character."
    );
}

#[test]
fn trailing_dot_is_not_part_of_a_number() {
    let tokens = scan("12.");
    let expected = vec![
        number("12", vec![1, 2], vec![], 1),
        Token::new(TokenType::DOT, ".".to_string(), Literal::Nil, 1),
        eof(1),
    ];
    assert_eq!(tokens, expected);
}

#[test]
fn fractional_number_is_maximal() {
    let tokens = scan("12.34.56");
    let expected = vec![
        number("12.34", vec![1, 2], vec![3, 4], 1),
        Token::new(TokenType::DOT, ".".to_string(), Literal::Nil, 1),
        number("56", vec![5, 6], vec![], 1),
        eof(1),
    ];
    assert_eq!(tokens, expected);
}

#[test]
fn number_value_is_canonical() {
    let tokens = scan("007 1.50 0.0");
    assert_eq!(
        tokens[0].literal,
        Literal::Number(NumberValue::from_parts(vec![7], vec![]))
    );
    assert_eq!(tokens[0].lexeme, "007");
    assert_eq!(
        tokens[1].literal,
        Literal::Number(NumberValue::from_parts(vec![1], vec![5]))
    );
    assert_eq!(
        tokens[2].literal,
        Literal::Number(NumberValue::from_parts(vec![0], vec![]))
    );
    assert_eq!(tokens[2].literal.render(), "0.0");
}

#[test]
fn empty_source_scans_to_eof_on_line_one() {
    assert_eq!(scan(""), vec![eof(1)]);
}

#[test]
fn whitespace_only_counts_newlines() {
    assert_eq!(scan(" \r\t\n \n"), vec![eof(3)]);
}

#[test]
fn token_rendering() {
    let tokens = scan("3 \"hi\" true nil foo");
    assert_eq!(tokens[0].to_string(), "NUMBER 3 3.0");
    assert_eq!(tokens[1].to_string(), "STRING \"hi\" hi");
    assert_eq!(tokens[2].to_string(), "TRUE true true");
    assert_eq!(tokens[3].to_string(), "NIL nil null");
    assert_eq!(tokens[4].to_string(), "IDENTIFIER foo null");
    assert_eq!(tokens[5].to_string(), "EOF  null");
}

#[test]
fn scan_token_classifies_one_lexeme() {
    let mut lox = Lox::new();
    let mut scanner = Scanner::new("12+3".to_string());
    scanner.scan_token(&mut lox);
    assert_eq!(scanner.tokens.len(), 1);
    assert_eq!(scanner.tokens[0].token_type, TokenType::NUMBER);
    assert_eq!(scanner.tokens[0].lexeme, "12");
    assert_eq!(scanner.current, 2);
    scanner.scan_token(&mut lox);
    assert_eq!(scanner.tokens[1].token_type, TokenType::PLUS);
    assert!(!lox.had_error);
}

#[test]
fn token_lines_never_decrease() {
    let tokens = scan("a\nb \"s\ns\" c\n\nd // e\nf");
    let lines: Vec<u32> = tokens.iter().map(|t| t.line).collect();
    for pair in lines.windows(2) {
        assert!(pair[0] <= pair[1]);
    }
}

#[test]
fn errors_accumulate_across_a_scan() {
    let (tokens, lox) = scan_with_lox("@ # 1 $");
    assert_eq!(lox.diagnostics.len(), 3);
    assert!(lox.had_error);
    let types: Vec<TokenType> = tokens.iter().map(|t| t.token_type).collect();
    assert_eq!(types, vec![TokenType::NUMBER, TokenType::EOF]);
}
