use yaml_gear::serialize;
use yaml_gear::YamlValue;

fn s(x: &str) -> String {
    x.to_string()
}

#[test]
fn test_stringify_object() {
    let obj = YamlValue::Mapping(vec![(s("name"), YamlValue::String(s("Alice")))]);
    let result = yaml_gear::emitter::stringify(&obj).unwrap();
    assert_eq!(result, "name: Alice\n");
}

#[test]
fn test_stringify_null() {
    let result = yaml_gear::emitter::stringify(&YamlValue::Null).unwrap();
    assert_eq!(result, "null\n");
}

#[test]
fn test_readme_stringify() {
    let obj = YamlValue::Mapping(vec![
        (s("name"), YamlValue::String(s("Alice"))),
        (s("age"), YamlValue::Int(30)),
    ]);
    assert_eq!(yaml_gear::emitter::stringify(&obj).unwrap(), "name: Alice\nage: 30\n");
}

#[test]
fn test_scalars() {
    assert_eq!(yaml_gear::emitter::stringify(&YamlValue::Bool(true)).unwrap(), "true\n");
    assert_eq!(yaml_gear::emitter::stringify(&YamlValue::Bool(false)).unwrap(), "false\n");
    assert_eq!(yaml_gear::emitter::stringify(&YamlValue::Int(-12)).unwrap(), "-12\n");
    assert_eq!(yaml_gear::emitter::stringify(&YamlValue::Int(i64::MIN)).unwrap(), "-9223372036854775808\n");
    assert_eq!(yaml_gear::emitter::stringify(&YamlValue::Float(s("1.5"))).unwrap(), "1.5\n");
}

#[test]
fn test_strings() {
    assert_eq!(yaml_gear::emitter::stringify(&YamlValue::String(s("plain"))).unwrap(), "plain\n");
    assert_eq!(yaml_gear::emitter::stringify(&YamlValue::String(s("yes"))).unwrap(), "'yes'\n");
    assert_eq!(yaml_gear::emitter::stringify(&YamlValue::String(s("12"))).unwrap(), "'12'\n");
    assert_eq!(yaml_gear::emitter::stringify(&YamlValue::String(s("a: b"))).unwrap(), "'a: b'\n");
    assert_eq!(yaml_gear::emitter::stringify(&YamlValue::String(s("it's #1"))).unwrap(), "'it''s #1'\n");
    assert_eq!(yaml_gear::emitter::stringify(&YamlValue::String(s("a\nb\r\nc\n"))).unwrap(), "|-\n  a\n  b\n  c\n");
    assert_eq!(yaml_gear::emitter::stringify(&YamlValue::String(s("\n"))).unwrap(), "|-\n  \n");
}

#[test]
fn test_nested() {
    let v = YamlValue::Mapping(vec![
        (s("list"), YamlValue::Sequence(vec![
            YamlValue::Int(1),
            YamlValue::Mapping(vec![(s("k"), YamlValue::Null)]),
            YamlValue::Sequence(vec![YamlValue::Bool(false)]),
            YamlValue::String(s("two\nlines")),
        ])),
        (s("empty"), YamlValue::Mapping(vec![])),
    ]);
    assert_eq!(
        yaml_gear::emitter::stringify(&v).unwrap(),
        "list:\n  - 1\n  -\n    k: null\n  -\n    - false\n  - |-\nempty:\n"
    );
}

#[test]
fn test_serialize_with_indent() {
    let v = YamlValue::Sequence(vec![YamlValue::Int(1)]);
    assert_eq!(serialize(&v, 4).unwrap(), "    - 1\n");
}

#[test]
fn test_error_texts() {
    use_error();
}

fn use_error() {
    let e = yaml_gear::YamlError::StringifyError("unsupported value".to_string());
    assert_eq!(e.to_string(), "stringify error: unsupported value");
    let p = yaml_gear::YamlError::ParseError("expected scalar".to_string());
    assert_eq!(p.to_string(), "parse error: expected scalar");
}
