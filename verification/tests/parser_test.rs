use yaml_gear::parse;
use yaml_gear::parse_all;
use yaml_gear::YamlValue;

fn get<'v>(v: &'v YamlValue, key: &str) -> &'v YamlValue {
    match v {
        YamlValue::Mapping(entries) => &entries.iter().find(|(k, _)| k == key).unwrap().1,
        _ => panic!("not a mapping: {:?}", v),
    }
}

fn s(x: &str) -> String {
    x.to_string()
}

#[test]
fn test_mapping() {
    let v = parse("name: Alice\nage: 30\n").unwrap();
    assert_eq!(get(&v, "name"), &YamlValue::String(s("Alice")));
    assert_eq!(get(&v, "age"), &YamlValue::Int(30));
}

#[test]
fn test_bool_and_null() {
    let v = parse("a: true\nb: null\n").unwrap();
    assert_eq!(get(&v, "a"), &YamlValue::Bool(true));
    assert_eq!(get(&v, "b"), &YamlValue::Null);
}

#[test]
fn test_parse_sequence() {
    let v = parse("- foo\n- bar\n").unwrap();
    assert_eq!(
        v,
        YamlValue::Sequence(vec![YamlValue::String(s("foo")), YamlValue::String(s("bar"))])
    );
}

#[test]
fn test_parse_max_depth_exceeded() {
    let mut input = String::new();
    for i in 0..33 {
        input.push_str(&format!("{}key{}:\n", "  ".repeat(i), i));
    }
    let err = parse(&input).unwrap_err();
    assert_eq!(err.to_string(), "parse error: exceeded max nesting depth of 32");
}

#[test]
fn test_depth_limit_reached_exactly() {
    let mut input = String::new();
    for i in 0..32 {
        input.push_str(&format!("{}key{}:\n", "  ".repeat(i), i));
    }
    assert!(parse(&input).is_ok());
}

#[test]
fn test_multi_document() {
    let input = "---\nfoo: 1\n---\nbar: 2\n";
    let docs = parse_all(input).unwrap();
    assert_eq!(docs.len(), 2);
    assert_eq!(get(&docs[0], "foo"), &YamlValue::Int(1));
    assert_eq!(get(&docs[1], "bar"), &YamlValue::Int(2));
}

#[test]
fn test_readme_example() {
    let v = parse("\nname: Alice\nage: 30\nactive: true\nscores:\n  - 100\n  - 95\n  - 87\n").unwrap();
    assert_eq!(
        v,
        YamlValue::Mapping(vec![
            (s("name"), YamlValue::String(s("Alice"))),
            (s("age"), YamlValue::Int(30)),
            (s("active"), YamlValue::Bool(true)),
            (
                s("scores"),
                YamlValue::Sequence(vec![
                    YamlValue::Int(100),
                    YamlValue::Int(95),
                    YamlValue::Int(87),
                ])
            ),
        ])
    );
}

#[test]
fn test_empty_input_is_null() {
    assert_eq!(parse("").unwrap(), YamlValue::Null);
    assert_eq!(parse("\n\n").unwrap(), YamlValue::Null);
}

#[test]
fn test_duplicate_key_keeps_first_place() {
    let v = parse("a: 1\nb: 2\na: 3\n").unwrap();
    assert_eq!(
        v,
        YamlValue::Mapping(vec![(s("a"), YamlValue::Int(3)), (s("b"), YamlValue::Int(2))])
    );
}

#[test]
fn test_quoted_values() {
    let v = parse("a: 'it''s'\nb: \"x\\ty\"\n").unwrap();
    assert_eq!(get(&v, "a"), &YamlValue::String(s("it's")));
    assert_eq!(get(&v, "b"), &YamlValue::String(s("x\ty")));
}

#[test]
fn test_unexpected_token() {
    let err = parse("a: : b\n").unwrap_err();
    assert_eq!(err.to_string(), "parse error: unexpected token: Colon");
}

#[test]
fn test_expected_colon() {
    let err = parse("a: 1\nb\n").unwrap_err();
    assert_eq!(err.to_string(), "parse error: expected Colon, got Newline");
}

#[test]
fn test_lexer_error_ends_the_stream() {
    let v = parse("a: 1\nb: 'open\n").unwrap();
    assert_eq!(
        v,
        YamlValue::Mapping(vec![(s("a"), YamlValue::Int(1)), (s("b"), YamlValue::Null)])
    );
}

#[test]
fn test_nested_block_mapping() {
    let v = parse("a:\n  b: 1\n").unwrap();
    assert_eq!(
        v,
        YamlValue::Mapping(vec![(
            s("a"),
            YamlValue::Mapping(vec![(s("b"), YamlValue::Int(1))])
        )])
    );
}

#[test]
fn test_doc_end_marker() {
    let docs = parse_all("a: 1\n...\n---\n- x\n").unwrap();
    assert_eq!(docs.len(), 2);
    assert_eq!(docs[1], YamlValue::Sequence(vec![YamlValue::String(s("x"))]));
}

#[test]
fn test_parse_all_empty() {
    assert_eq!(parse_all("").unwrap(), vec![]);
    assert_eq!(parse_all("---\n").unwrap(), vec![]);
}

#[test]
fn test_scalar_kinds() {
    assert_eq!(parse("~").unwrap(), YamlValue::Null);
    assert_eq!(parse("yes").unwrap(), YamlValue::Bool(true));
    assert_eq!(parse("no").unwrap(), YamlValue::Bool(false));
    assert_eq!(parse("-42").unwrap(), YamlValue::Int(-42));
    assert_eq!(parse("+7").unwrap(), YamlValue::Int(7));
    assert_eq!(parse("-9223372036854775808").unwrap(), YamlValue::Int(i64::MIN));
    assert_eq!(parse("9223372036854775807").unwrap(), YamlValue::Int(i64::MAX));
    assert_eq!(parse("9223372036854775808").unwrap(), YamlValue::Float(s("9223372036854775808")));
    assert_eq!(parse("1.5").unwrap(), YamlValue::Float(s("1.5")));
    assert_eq!(parse(".5").unwrap(), YamlValue::Float(s(".5")));
    assert_eq!(parse("5.").unwrap(), YamlValue::Float(s("5.")));
    assert_eq!(parse("1e-3").unwrap(), YamlValue::Float(s("1e-3")));
    assert_eq!(parse("-Infinity").unwrap(), YamlValue::Float(s("-Infinity")));
    assert_eq!(parse("NaN").unwrap(), YamlValue::Float(s("NaN")));
    assert_eq!(parse("1.2.3").unwrap(), YamlValue::String(s("1.2.3")));
    assert_eq!(parse("e5").unwrap(), YamlValue::String(s("e5")));
    assert_eq!(parse("1e").unwrap(), YamlValue::String(s("1e")));
    assert_eq!(parse(".").unwrap(), YamlValue::String(s(".")));
    assert_eq!(parse("hello world").unwrap(), YamlValue::String(s("hello world")));
}

#[test]
fn test_float_texts_agree_with_std() {
    for t in ["1.5", ".5", "5.", "1e10", "1E+2", "-0.0", "inf", "+INF", "nan", "infinity", "1_0", "0x10", "1.2.3", "--1", " 1", "e1", "1e+", "+", "-"] {
        let expected = t.parse::<f64>().is_ok() && t.parse::<i64>().is_err();
        let got = matches!(parse(t), Ok(YamlValue::Float(_)));
        assert_eq!(got, expected, "{}", t);
    }
}

#[test]
fn test_index_keys_come_first() {
    let v = parse("b: 1\n10: x\n2: y\n02: z\n4294967295: w\n2: q\n").unwrap();
    assert_eq!(
        v,
        YamlValue::Mapping(vec![
            (s("2"), YamlValue::String(s("q"))),
            (s("10"), YamlValue::String(s("x"))),
            (s("b"), YamlValue::Int(1)),
            (s("02"), YamlValue::String(s("z"))),
            (s("4294967295"), YamlValue::String(s("w"))),
        ])
    );
}
