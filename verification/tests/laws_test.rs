use yaml_gear::lexer::token::Token;
use yaml_gear::lexer::Lexer;
use yaml_gear::{parse, parse_all, YamlValue};

fn round_trip(v: &YamlValue) -> YamlValue {
    let text = yaml_gear::emitter::stringify(v).unwrap();
    parse(&text).unwrap()
}

#[test]
fn test_scalar_round_trip() {
    for v in [
        YamlValue::Null,
        YamlValue::Bool(true),
        YamlValue::Bool(false),
        YamlValue::Int(0),
        YamlValue::Int(7),
        YamlValue::Int(-1),
        YamlValue::Int(1234567890123),
        YamlValue::Int(i64::MAX),
        YamlValue::Int(i64::MIN),
    ] {
        assert_eq!(round_trip(&v), v);
    }
}

#[test]
fn test_quoted_string_round_trip() {
    for t in ["yes", "12", "-x", ".hidden", "a: b", "it's", "?'x''", "#tag", "x\ry", "null"] {
        let v = YamlValue::String(t.to_string());
        assert_eq!(round_trip(&v), v, "{:?}", t);
    }
}

#[test]
fn test_plain_string_round_trip() {
    for t in ["hello", "Alice", "b2"] {
        let v = YamlValue::String(t.to_string());
        assert_eq!(round_trip(&v), v);
    }
}

#[test]
fn test_plain_string_that_reads_as_a_number() {
    let v = YamlValue::String("+5".to_string());
    assert_eq!(round_trip(&v), YamlValue::Int(5));
}

#[test]
fn test_text_is_whole_lines() {
    let values = [
        YamlValue::Null,
        YamlValue::String("a\nb".to_string()),
        YamlValue::Sequence(vec![YamlValue::Int(1), YamlValue::Sequence(vec![])]),
        YamlValue::Mapping(vec![("k".to_string(), YamlValue::String("v".to_string()))]),
    ];
    for v in &values {
        let text = yaml_gear::emitter::stringify(v).unwrap();
        assert!(text.is_empty() || text.ends_with('\n'), "{:?}", text);
    }
    assert_eq!(yaml_gear::emitter::stringify(&YamlValue::Sequence(vec![])).unwrap(), "");
}

#[test]
fn test_tokenize_ends_with_eof() {
    for input in ["", "a", "a: 1\n", "- x\n- y", "# only a comment"] {
        let tokens = Lexer::new(input).tokenize().unwrap();
        assert_eq!(tokens.last().unwrap().token, Token::Eof);
    }
}

#[test]
fn test_parse_reads_first_document() {
    let input = "---\na: 1\n---\n- 2\n";
    let docs = parse_all(input).unwrap();
    assert_eq!(parse(input).unwrap(), docs[0]);
    assert_eq!(parse_all("").unwrap().len(), 0);
    assert_eq!(parse("").unwrap(), YamlValue::Null);
    let bad = "a: : b\n---\nc: 1\n";
    assert_eq!(parse(bad).unwrap_err().to_string(), parse_all(bad).unwrap_err().to_string());
}

#[test]
fn test_parsed_keys_distinct_nested() {
    let v = parse("x:\n  a: 1\n  a: 2\n").unwrap();
    assert_eq!(
        v,
        YamlValue::Mapping(vec![(
            "x".to_string(),
            YamlValue::Mapping(vec![("a".to_string(), YamlValue::Int(2))])
        )])
    );
}

#[test]
fn test_nested_mapping_does_not_round_trip() {
    let v = YamlValue::Mapping(vec![
        ("a".to_string(), YamlValue::Mapping(vec![("b".to_string(), YamlValue::Int(1))])),
        ("c".to_string(), YamlValue::Int(2)),
    ]);
    let text = yaml_gear::emitter::stringify(&v).unwrap();
    assert_eq!(text, "a:\n  b: 1\nc: 2\n");
    assert_eq!(
        parse(&text).unwrap(),
        YamlValue::Mapping(vec![(
            "a".to_string(),
            YamlValue::Mapping(vec![
                ("b".to_string(), YamlValue::Int(1)),
                ("c".to_string(), YamlValue::Int(2)),
            ])
        )])
    );
}

fn spanned(input: &str) -> Vec<yaml_gear::lexer::token::SpannedToken<'_>> {
    Lexer::new(input).tokenize().unwrap()
}

#[test]
fn test_token_positions_and_shapes() {
    for input in [
        "name: Alice\n",
        "a:\n  b: 1\n  c: 'x y'\n",
        "- 1\n- two words  \n# comment\n",
        "key: value # note\nnext: \"q\"",
        "x",
        "",
        "a: 1\n\n\nb: 2\n  ",
    ] {
        let tokens = spanned(input);
        for w in tokens.windows(2) {
            assert!((w[0].line, w[0].col) <= (w[1].line, w[1].col), "{:?}", input);
        }
        for t in &tokens {
            assert!(t.line >= 1 && t.col >= 1);
            match &t.token {
                Token::Newline => assert!(t.col == 1 && t.line >= 2),
                Token::Scalar(s) => {
                    assert!(!s.is_empty() && *s == s.trim());
                    assert!(!s.contains('\n') && !s.contains(": ") && !s.contains(" #"));
                    assert!(input.contains(*s));
                }
                Token::Indent(n) => assert!(1 <= *n && *n <= 2 * yaml_gear::lexer::MAX_DEPTH),
                _ => {}
            }
        }
        let last = tokens.last().unwrap();
        assert_eq!(last.token, Token::Eof);
        assert_eq!(last.line, 1 + input.matches('\n').count());
        assert_eq!(last.col, 1 + input.rsplit('\n').next().unwrap().chars().count());
    }
}

#[test]
fn test_leading_spaces() {
    let kinds = |k: usize| {
        let input = format!("{}a\n", " ".repeat(k));
        Lexer::new(&input)
            .tokenize()
            .map(|ts| ts.into_iter().map(|t| format!("{:?}", t.token)).collect::<Vec<_>>())
            .map_err(|e| e.to_string())
    };
    assert_eq!(kinds(0).unwrap(), vec!["Scalar(\"a\")", "Newline", "Eof"]);
    for k in [1usize, 2, 7, 64] {
        assert_eq!(
            kinds(k).unwrap(),
            vec![format!("Indent({})", k), "Scalar(\"a\")".to_string(), "Newline".to_string(), "Eof".to_string()]
        );
    }
    for k in [65usize, 100] {
        assert_eq!(kinds(k).unwrap_err(), "parse error: exceeded max nesting depth of 32");
    }
}

#[test]
fn test_next_matches_tokenize_on_error() {
    let input = "a: 1\nb: 'open\n";
    let err = Lexer::new(input).tokenize().unwrap_err().to_string();
    let mut lexer = Lexer::new(input);
    let mut oks = Vec::new();
    let mut last_err = None;
    while let Some(r) = lexer.next() {
        match r {
            Ok(t) => oks.push(t.token),
            Err(e) => {
                last_err = Some(e.to_string());
                break;
            }
        }
    }
    assert_eq!(last_err.unwrap(), err);
    assert_eq!(oks, vec![
        Token::Scalar("a"),
        Token::Colon,
        Token::Scalar("1"),
        Token::Newline,
        Token::Scalar("b"),
        Token::Colon,
    ]);
}

#[test]
fn test_next_matches_tokenize_on_success() {
    let input = "- x\n- 'y'\n";
    let all = spanned(input);
    let mut lexer = Lexer::new(input);
    let mut got = Vec::new();
    while let Some(r) = lexer.next() {
        let t = r.unwrap();
        got.push((t.token, t.line, t.col));
    }
    let want: Vec<_> = all[..all.len() - 1].iter().map(|t| (t.token.clone(), t.line, t.col)).collect();
    assert_eq!(got, want);
}

#[test]
fn test_double_quoted_reads_back() {
    for s in ["", "hello world", "it's here", "a: b # c"] {
        let input = format!("\"{}\"", s);
        let tokens = spanned(&input);
        assert_eq!(tokens[0].token, Token::DoubleQuoted(s.to_string()));
        assert_eq!(tokens[1].token, Token::Eof);
        assert_eq!(tokens[1].col, input.chars().count() + 1);
    }
}

#[test]
fn test_single_quoted_reads_back() {
    for s in ["", "'", "it's", "''", "a'b'c", "x\ny", "back\\slash \"q\""] {
        let input = format!("'{}'", s.replace('\'', "''"));
        let tokens = spanned(&input);
        assert_eq!(tokens[0].token, Token::SingleQuoted(s.to_string()), "{:?}", s);
        assert_eq!(tokens[1].token, Token::Eof);
    }
}

#[test]
fn test_written_string_tokens() {
    for s in ["yes", "it's", "12", "a: b", "hello", "two words", "x-y"] {
        let text = yaml_gear::emitter::stringify(&YamlValue::String(s.to_string())).unwrap();
        let tokens: Vec<Token> = spanned(&text).into_iter().map(|t| t.token).collect();
        let first = if ["hello", "two words", "x-y", "it's"].contains(&s) {
            Token::Scalar(s)
        } else {
            Token::SingleQuoted(s.to_string())
        };
        assert_eq!(tokens, vec![first, Token::Newline, Token::Eof], "{:?}", s);
    }
}

#[test]
fn test_word_mapping_text() {
    let v = YamlValue::Mapping(vec![
        ("a".to_string(), YamlValue::Null),
        ("b".to_string(), YamlValue::Bool(true)),
        ("c".to_string(), YamlValue::Bool(false)),
        ("d".to_string(), YamlValue::Int(-42)),
    ]);
    assert_eq!(
        yaml_gear::emitter::stringify(&v).unwrap(),
        "a: null\nb: true\nc: false\nd: -42\n"
    );
    assert_eq!(
        yaml_gear::serialize(&v, 2).unwrap(),
        "  a: null\n  b: true\n  c: false\n  d: -42\n"
    );
}

#[test]
fn test_word_mapping_round_trip() {
    let v = YamlValue::Mapping(vec![
        ("0".to_string(), YamlValue::Int(0)),
        ("3".to_string(), YamlValue::Bool(true)),
        ("12".to_string(), YamlValue::Null),
        ("name".to_string(), YamlValue::Int(i64::MIN)),
        ("007".to_string(), YamlValue::Bool(false)),
        ("-1".to_string(), YamlValue::Int(5)),
    ]);
    assert_eq!(round_trip(&v), v);
}

#[test]
fn test_blank_text_is_null() {
    let long = " ".repeat(100);
    for input in ["", " ", "\n\n", " \t \n\t", "\u{a0}", "\r\n", long.as_str()] {
        assert_eq!(parse(input).unwrap(), YamlValue::Null, "{:?}", input);
        assert_eq!(parse_all(input).unwrap(), Vec::<YamlValue>::new(), "{:?}", input);
    }
}

#[test]
fn test_hash_on_a_later_line_is_a_scalar() {
    let tokens: Vec<Token> = spanned("a: 1\n# note\n").into_iter().map(|t| t.token).collect();
    assert_eq!(tokens[4], Token::Scalar("# note"));
}

#[test]
fn test_less_indented_key_stays_in_inner_mapping() {
    assert_eq!(
        parse("a:\n  b: 1\nc: 2").unwrap(),
        YamlValue::Mapping(vec![(
            "a".to_string(),
            YamlValue::Mapping(vec![
                ("b".to_string(), YamlValue::Int(1)),
                ("c".to_string(), YamlValue::Int(2)),
            ])
        )])
    );
}

#[test]
fn test_multiline_string_in_collection_keeps_first_line() {
    let v = YamlValue::Sequence(vec![YamlValue::String("one\ntwo".to_string())]);
    assert_eq!(yaml_gear::emitter::stringify(&v).unwrap(), "- |-\n");
}

#[test]
fn test_line_mapping_round_trip() {
    let v = YamlValue::Mapping(vec![
        ("name".to_string(), YamlValue::String("Alice".to_string())),
        ("age".to_string(), YamlValue::Int(30)),
        ("note".to_string(), YamlValue::String("it's: quoted".to_string())),
        ("flag".to_string(), YamlValue::String("yes".to_string())),
        ("empty".to_string(), YamlValue::Null),
    ]);
    let text = yaml_gear::emitter::stringify(&v).unwrap();
    assert_eq!(text, "name: Alice\nage: 30\nnote: 'it''s: quoted'\nflag: 'yes'\nempty: null\n");
    assert_eq!(round_trip(&v), v);
}

#[test]
fn test_line_sequence_round_trip() {
    let v = YamlValue::Sequence(vec![
        YamlValue::Int(100),
        YamlValue::Int(-95),
        YamlValue::String("two words".to_string()),
        YamlValue::String("#x".to_string()),
        YamlValue::Bool(false),
        YamlValue::Null,
    ]);
    let text = yaml_gear::emitter::stringify(&v).unwrap();
    assert_eq!(text, "- 100\n- -95\n- two words\n- '#x'\n- false\n- null\n");
    assert_eq!(round_trip(&v), v);
    assert_eq!(
        yaml_gear::serialize(&YamlValue::Sequence(vec![YamlValue::Int(1)]), 4).unwrap(),
        "    - 1\n"
    );
}
