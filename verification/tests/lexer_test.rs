use yaml_gear::lexer::Lexer;
use yaml_gear::lexer::token::Token;
use yaml_gear::lexer::MAX_DEPTH;

fn tokenize(input: &str) -> Vec<Token<'_>> {
    Lexer::new(input)
        .tokenize()
        .unwrap()
        .into_iter()
        .map(|t| t.token)
        .collect()
}

#[test]
fn test_simple_mapping() {
    let tokens = tokenize("name: Alice\n");
    assert_eq!(tokens, vec![
        Token::Scalar("name"),
        Token::Colon,
        Token::Scalar("Alice"),
        Token::Newline,
        Token::Eof,
    ]);
}

#[test]
fn test_sequence() {
    let tokens = tokenize("- foo\n- bar\n");
    assert_eq!(tokens, vec![
        Token::Dash,
        Token::Scalar("foo"),
        Token::Newline,
        Token::Dash,
        Token::Scalar("bar"),
        Token::Newline,
        Token::Eof,
    ]);
}

#[test]
fn test_comment_skipped() {
    let tokens = tokenize("name: Alice # comment\n");
    assert_eq!(tokens, vec![
        Token::Scalar("name"),
        Token::Colon,
        Token::Scalar("Alice"),
        Token::Newline,
        Token::Eof,
    ]);
}

#[test]
fn test_max_depth_exceeded() {
    let indent = " ".repeat(MAX_DEPTH * 2 + 1);
    let input = format!("{}key: value\n", indent);
    let result = Lexer::new(&input).tokenize();
    assert!(result.is_err());
}

fn spans(input: &str) -> Vec<(Token<'_>, usize, usize)> {
    Lexer::new(input)
        .tokenize()
        .unwrap()
        .into_iter()
        .map(|t| (t.token, t.line, t.col))
        .collect()
}

#[test]
fn test_positions() {
    assert_eq!(
        spans("a: b\n  c"),
        vec![
            (Token::Scalar("a"), 1, 2),
            (Token::Colon, 1, 3),
            (Token::Scalar("b"), 1, 5),
            (Token::Newline, 2, 1),
            (Token::Indent(2), 2, 3),
            (Token::Scalar("c"), 2, 4),
            (Token::Eof, 2, 4),
        ]
    );
}

#[test]
fn test_documents_and_quotes() {
    let tokens = tokenize("---\n'a''b' \"c\\n\"\n...");
    assert_eq!(
        tokens,
        vec![
            Token::DocStart,
            Token::Newline,
            Token::SingleQuoted("a'b".to_string()),
            Token::DoubleQuoted("c\n".to_string()),
            Token::Newline,
            Token::DocEnd,
            Token::Eof,
        ]
    );
}

#[test]
fn test_indent_at_limit() {
    let input = format!("{}k\n", " ".repeat(64));
    let tokens = tokenize(&input);
    assert_eq!(tokens[0], Token::Indent(64));
}

#[test]
fn test_comment_at_end_gives_eof_twice() {
    let tokens = tokenize("a # c");
    assert_eq!(tokens, vec![Token::Scalar("a"), Token::Eof, Token::Eof]);
}

#[test]
fn test_lexer_errors() {
    let msg = |input: &str| Lexer::new(input).tokenize().unwrap_err().to_string();
    assert_eq!(msg("'abc"), "parse error: unterminated single-quoted string at line 1");
    assert_eq!(msg("x\n\"abc"), "parse error: unterminated double-quoted string at line 2");
    assert_eq!(msg("\"a\\qb\""), "parse error: unknown escape sequence: \\q at line 1");
    assert_eq!(msg("\r\n"), "parse error: unexpected character at line 1, col 2");
    assert_eq!(
        msg(&format!("{}k", " ".repeat(65))),
        "parse error: exceeded max nesting depth of 32"
    );
}

#[test]
fn test_next_matches_tokenize() {
    let input = "a: [1]\n- 'q'\n";
    let mut lexer = Lexer::new(input);
    let mut one_by_one = Vec::new();
    while let Some(r) = lexer.next() {
        one_by_one.push(r.unwrap().token);
    }
    let mut all = tokenize(input);
    assert_eq!(all.pop(), Some(Token::Eof));
    assert_eq!(one_by_one, all);
}
