//! The configuration file parser: accepted documents and each rejection.

use byre::parse_toml;
use byre::ConfigValue;
use byre::ParseErrorKind;

#[test]
fn parses_scalars_sections_and_comments() {
    let text = "\
# a comment
title = \"example\"  # trailing comment
count = 42
ratio = 0.5
on = true
off = false

[owner.details]
name = \"someone\"
";
    let tree = parse_toml(text).expect("document must parse");
    assert_eq!(
        tree.get("title").and_then(|v| v.as_str().cloned()),
        Some("example".to_string())
    );
    assert_eq!(tree.get("count").and_then(|v| v.as_int()), Some(42));
    match tree.get("ratio") {
        Some(ConfigValue::Float(t)) => assert_eq!(t, "0.5"),
        _ => panic!("expected a float"),
    }
    assert_eq!(tree.get("on").and_then(|v| v.as_bool()), Some(true));
    assert_eq!(tree.get("off").and_then(|v| v.as_bool()), Some(false));
    let owner = tree.get("owner").expect("owner section");
    let details = owner.get("details").expect("details section");
    assert_eq!(
        details.get("name").and_then(|v| v.as_str().cloned()),
        Some("someone".to_string())
    );
}

#[test]
fn parses_arrays_and_crlf_line_ends() {
    let text = "values = [1, 2, 3]\r\nnames = [\"a\", \"b\"]\r\nempty = []\r\n";
    let tree = parse_toml(text).expect("document must parse");
    match tree.get("values") {
        Some(ConfigValue::Array(items)) => {
            assert_eq!(items.len(), 3);
            assert_eq!(items[1], ConfigValue::Int(2));
        }
        _ => panic!("expected an array"),
    }
    match tree.get("empty") {
        Some(ConfigValue::Array(items)) => assert!(items.is_empty()),
        _ => panic!("expected an empty array"),
    }
}

#[test]
fn empty_sections_create_empty_tables() {
    let tree = parse_toml("[a]\n[b.c]\n").expect("document must parse");
    match tree.get("a") {
        Some(ConfigValue::Dict(entries)) => assert!(entries.is_empty()),
        _ => panic!("expected an empty table"),
    }
    let b = tree.get("b").expect("b section");
    assert!(matches!(b.get("c"), Some(ConfigValue::Dict(_))));
}

#[test]
fn malformed_line_reports_its_number() {
    let err = parse_toml("a = 1\nnot a line\n").unwrap_err();
    assert_eq!(err.line, 2);
    assert_eq!(err.kind, ParseErrorKind::Malformed);
}

#[test]
fn unclosed_string_is_malformed() {
    let err = parse_toml("a = \"oops\n").unwrap_err();
    assert_eq!(err.kind, ParseErrorKind::Malformed);
}

#[test]
fn duplicate_key_is_rejected() {
    let err = parse_toml("a = 1\na = 2\n").unwrap_err();
    assert_eq!(err.line, 2);
    assert_eq!(err.kind, ParseErrorKind::DuplicateKey);
}

#[test]
fn assigning_through_a_scalar_is_a_conflict() {
    let err = parse_toml("a = 1\n[a]\nb = 2\n").unwrap_err();
    assert_eq!(err.line, 2);
    assert_eq!(err.kind, ParseErrorKind::Conflict);
}

#[test]
fn integer_bounds_are_respected() {
    let tree = parse_toml("max = 9223372036854775807\nmin = -9223372036854775808\n")
        .expect("extreme integers must parse");
    assert_eq!(tree.get("max").and_then(|v| v.as_int()), Some(i64::MAX));
    assert_eq!(tree.get("min").and_then(|v| v.as_int()), Some(i64::MIN));

    let err = parse_toml("over = 9223372036854775808\n").unwrap_err();
    assert_eq!(err.kind, ParseErrorKind::Malformed);
}

#[test]
fn reopening_a_section_merges_into_it() {
    let tree = parse_toml("[a]\nx = 1\n[b]\ny = 2\n[a]\nz = 3\n")
        .expect("re-opened sections are allowed");
    let a = tree.get("a").expect("a section");
    assert_eq!(a.get("x").and_then(|v| v.as_int()), Some(1));
    assert_eq!(a.get("z").and_then(|v| v.as_int()), Some(3));
}

#[test]
fn blank_and_whitespace_lines_are_ignored() {
    let tree = parse_toml("\n   \n\t\na = 1\n\n").expect("document must parse");
    assert_eq!(tree.get("a").and_then(|v| v.as_int()), Some(1));
}

#[test]
fn empty_document_is_an_empty_table() {
    let tree = parse_toml("").expect("the empty document parses");
    assert!(matches!(tree, ConfigValue::Dict(entries) if entries.is_empty()));
}
