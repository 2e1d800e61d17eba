//! Environment-variable expansion over strings and value trees.

use byre::expand_env_var;
use byre::expand_value;
use byre::ConfigValue;
use byre::EnvMap;

fn env_with(pairs: &[(&str, &str)]) -> EnvMap {
    let owned: Vec<(String, String)> = pairs
        .iter()
        .map(|(n, v)| (n.to_string(), v.to_string()))
        .collect();
    EnvMap::from_pairs(owned)
}

#[test]
fn expand_env_var_literal_value() {
    // Literal values (no $ prefix) are returned unchanged
    let env = EnvMap::new();
    assert_eq!(expand_env_var(&env, "dev-1"), "dev-1");
    assert_eq!(expand_env_var(&env, "my-node"), "my-node");
    assert_eq!(expand_env_var(&env, ""), "");
    assert_eq!(expand_env_var(&env, "plain-text"), "plain-text");
}

#[test]
fn expand_env_var_with_braces() {
    let env = env_with(&[("BYRE_TEST_EXPAND_VAR_BRACES", "expanded-value")]);

    // ${VAR} syntax should expand
    assert_eq!(
        expand_env_var(&env, "${BYRE_TEST_EXPAND_VAR_BRACES}"),
        "expanded-value"
    );
}

#[test]
fn expand_env_var_without_braces() {
    let env = env_with(&[("BYRE_TEST_EXPAND_VAR_NO_BRACES", "expanded-value")]);

    // $VAR syntax should expand
    assert_eq!(
        expand_env_var(&env, "$BYRE_TEST_EXPAND_VAR_NO_BRACES"),
        "expanded-value"
    );
}

#[test]
fn expand_env_var_missing_returns_original() {
    // Missing env var returns the original value unchanged
    let env = EnvMap::new();
    let original = "${BYRE_DEFINITELY_NOT_SET_12345}";
    assert_eq!(expand_env_var(&env, original), original);

    let original_no_braces = "$BYRE_DEFINITELY_NOT_SET_12345";
    assert_eq!(expand_env_var(&env, original_no_braces), original_no_braces);
}

#[test]
fn expand_env_var_partial_reference_is_not_expanded() {
    // The whole string must be one reference; embedded references stay as
    // they are.
    let env = env_with(&[("VAR", "value")]);
    assert_eq!(expand_env_var(&env, "prefix-${VAR}-suffix"), "prefix-${VAR}-suffix");
    assert_eq!(expand_env_var(&env, "${VAR}"), "value");
    assert_eq!(expand_env_var(&env, "$VAR"), "value");
}

#[test]
fn expand_env_var_no_rescan_of_substituted_value() {
    // A substituted value holding a reference is not expanded again.
    let env = env_with(&[("A", "$B"), ("B", "deep")]);
    assert_eq!(expand_env_var(&env, "${A}"), "$B");
}

#[test]
fn expand_value_handles_strings() {
    let env = env_with(&[("BYRE_TEST_VALUE_STRING", "test-value")]);

    let value = ConfigValue::Str("${BYRE_TEST_VALUE_STRING}".to_string());
    let expanded = expand_value(&env, &value);
    match expanded {
        ConfigValue::Str(s) => assert_eq!(s, "test-value"),
        _ => panic!("Expected String value"),
    }
}

#[test]
fn expand_value_handles_non_strings() {
    // Non-string values should pass through unchanged
    let env = env_with(&[("42", "surprise"), ("true", "surprise")]);
    let num_value = ConfigValue::Int(42);
    let expanded = expand_value(&env, &num_value);
    assert_eq!(expanded, ConfigValue::Int(42));

    let bool_value = ConfigValue::Bool(true);
    let expanded = expand_value(&env, &bool_value);
    assert_eq!(expanded, ConfigValue::Bool(true));

    let float_value = ConfigValue::Float("4.25".to_string());
    let expanded = expand_value(&env, &float_value);
    assert_eq!(expanded, ConfigValue::Float("4.25".to_string()));

    let null_value = ConfigValue::Null;
    let expanded = expand_value(&env, &null_value);
    assert_eq!(expanded, ConfigValue::Null);
}

#[test]
fn expand_value_handles_arrays() {
    let env = env_with(&[("BYRE_TEST_ARRAY_VAR", "array-value")]);

    let arr = ConfigValue::Array(vec![
        ConfigValue::Str("${BYRE_TEST_ARRAY_VAR}".to_string()),
        ConfigValue::Str("literal".to_string()),
    ]);
    let expanded = expand_value(&env, &arr);
    match expanded {
        ConfigValue::Array(items) => {
            assert_eq!(items.len(), 2);
            assert_eq!(items[0], ConfigValue::Str("array-value".to_string()));
            assert_eq!(items[1], ConfigValue::Str("literal".to_string()));
        }
        _ => panic!("Expected Array value"),
    }
}

#[test]
fn expand_dict_handles_nested_values() {
    let env = env_with(&[("BYRE_TEST_DICT_VAR", "dict-value")]);

    let dict = ConfigValue::Dict(vec![
        (
            "key1".to_string(),
            ConfigValue::Str("${BYRE_TEST_DICT_VAR}".to_string()),
        ),
        ("key2".to_string(), ConfigValue::Str("literal".to_string())),
    ]);

    let expanded = expand_value(&env, &dict);
    match expanded {
        ConfigValue::Dict(entries) => {
            assert_eq!(entries[0].0, "key1");
            assert_eq!(entries[0].1, ConfigValue::Str("dict-value".to_string()));
            assert_eq!(entries[1].0, "key2");
            assert_eq!(entries[1].1, ConfigValue::Str("literal".to_string()));
        }
        _ => panic!("Expected Dict value"),
    }
}

#[test]
fn expand_dict_handles_nested_dicts() {
    let env = env_with(&[("BYRE_TEST_NESTED_VAR", "nested-value")]);

    let inner = ConfigValue::Dict(vec![(
        "nested_key".to_string(),
        ConfigValue::Str("${BYRE_TEST_NESTED_VAR}".to_string()),
    )]);
    let outer = ConfigValue::Dict(vec![("outer".to_string(), inner)]);

    let expanded = expand_value(&env, &outer);
    match expanded {
        ConfigValue::Dict(entries) => match &entries[0].1 {
            ConfigValue::Dict(inner_entries) => {
                assert_eq!(inner_entries[0].0, "nested_key");
                assert_eq!(
                    inner_entries[0].1,
                    ConfigValue::Str("nested-value".to_string())
                );
            }
            _ => panic!("Expected Dict value for outer"),
        },
        _ => panic!("Expected Dict value"),
    }
}

#[test]
fn expand_tree_mixed_dict_and_array() {
    // A dict {a: {b: "${V}"}, c: ["${V}", "lit"], n: 7} with V=val expands
    // the string leaves and leaves everything else byte-identical.
    let env = env_with(&[("V", "val")]);
    let tree = ConfigValue::Dict(vec![
        (
            "a".to_string(),
            ConfigValue::Dict(vec![(
                "b".to_string(),
                ConfigValue::Str("${V}".to_string()),
            )]),
        ),
        (
            "c".to_string(),
            ConfigValue::Array(vec![
                ConfigValue::Str("${V}".to_string()),
                ConfigValue::Str("lit".to_string()),
            ]),
        ),
        ("n".to_string(), ConfigValue::Int(7)),
    ]);
    let expanded = expand_value(&env, &tree);
    let expected = ConfigValue::Dict(vec![
        (
            "a".to_string(),
            ConfigValue::Dict(vec![(
                "b".to_string(),
                ConfigValue::Str("val".to_string()),
            )]),
        ),
        (
            "c".to_string(),
            ConfigValue::Array(vec![
                ConfigValue::Str("val".to_string()),
                ConfigValue::Str("lit".to_string()),
            ]),
        ),
        ("n".to_string(), ConfigValue::Int(7)),
    ]);
    assert_eq!(expanded, expected);
}

#[test]
fn env_map_push_adds_a_variable() {
    let mut env = EnvMap::new();
    env.push("LATE".to_string(), "set".to_string());
    assert_eq!(expand_env_var(&env, "${LATE}"), "set");
}

#[test]
fn env_lookup_takes_the_first_binding() {
    let env = env_with(&[("TWICE", "first"), ("TWICE", "second")]);
    assert_eq!(expand_env_var(&env, "${TWICE}"), "first");
}
