//! Layered configuration resolution: precedence, deep merging, and decoding.

use byre::deep_merge;
use byre::resolve_tree;
use byre::Config;
use byre::ConfigValue;
use byre::EnvMap;
use byre::Error;
use byre::FromConfig;
use byre::LoadError;
use byre::TelemetrySettings;

fn env_with(pairs: &[(&str, &str)]) -> EnvMap {
    let owned: Vec<(String, String)> = pairs
        .iter()
        .map(|(n, v)| (n.to_string(), v.to_string()))
        .collect();
    EnvMap::from_pairs(owned)
}

/// The application half of the test settings.
#[derive(Debug, PartialEq)]
struct ApplicationSettings {
    listen_port: u16,
    listen_host: String,
    db_path: String,
}

impl FromConfig for ApplicationSettings {
    fn from_config(v: &ConfigValue) -> Result<Self, String> {
        let listen_port = v
            .get("listen_port")
            .and_then(|c| c.as_int())
            .ok_or("listen_port is required".to_string())?;
        let listen_port =
            u16::try_from(listen_port).map_err(|_| "listen_port out of range".to_string())?;
        let listen_host = v
            .get("listen_host")
            .and_then(|c| c.as_str())
            .ok_or("listen_host is required".to_string())?
            .clone();
        let db_path = v
            .get("db_path")
            .and_then(|c| c.as_str())
            .ok_or("db_path is required".to_string())?
            .clone();
        Ok(ApplicationSettings {
            listen_port,
            listen_host,
            db_path,
        })
    }
}

/// Test settings structure similar to what a real application would use.
struct TestSettings {
    application: ApplicationSettings,
    telemetry: TelemetrySettings,
}

impl FromConfig for TestSettings {
    fn from_config(v: &ConfigValue) -> Result<Self, String> {
        let application = ApplicationSettings::from_config(
            v.get("application").ok_or("application section is required".to_string())?,
        )?;
        let telemetry = TelemetrySettings::from_config(
            v.get("telemetry").ok_or("telemetry section is required".to_string())?,
        )?;
        Ok(TestSettings {
            application,
            telemetry,
        })
    }
}

const TEST_CONFIG: &str = r#"
[application]
listen_port = 9090
listen_host = "127.0.0.1"
db_path = "/tmp/test_db"

[telemetry.trace]

[telemetry.log]
console_level = "info"
otel_level = "warn"

[telemetry.metric]
"#;

#[test]
fn test_config_loading() {
    let config: Config<TestSettings> =
        Config::new(Some(Ok(TEST_CONFIG.to_string())), None, &EnvMap::new())
            .expect("Failed to load config");

    assert_eq!(config.config.application.listen_port, 9090);
    assert_eq!(config.config.application.listen_host, "127.0.0.1");
    assert_eq!(config.config.application.db_path, "/tmp/test_db");
    assert_eq!(config.config.telemetry.log.console_level, "info");
    assert_eq!(config.config.telemetry.log.otel_level, "warn");
}

const OVERRIDE_CONFIG: &str = r#"
[application]
listen_port = 8080
listen_host = "localhost"
db_path = "/var/db"

[telemetry.trace]

[telemetry.log]
console_level = "debug"
otel_level = "info"

[telemetry.metric]
"#;

#[test]
fn test_config_loading_with_env_override() {
    let env = env_with(&[
        ("TESTAPP_APPLICATION__LISTEN_PORT", "3000"),
        ("TESTAPP_APPLICATION__LISTEN_HOST", "0.0.0.0"),
    ]);

    let config: Config<TestSettings> = Config::new(
        Some(Ok(OVERRIDE_CONFIG.to_string())),
        Some("TESTAPP_"),
        &env,
    )
    .expect("Failed to load config");

    // These should be overridden by env vars
    assert_eq!(config.config.application.listen_port, 3000);
    assert_eq!(config.config.application.listen_host, "0.0.0.0");

    // This should remain from the file
    assert_eq!(config.config.application.db_path, "/var/db");
}

#[test]
fn test_config_loading_invalid_file() {
    // An unreadable configuration file is a hard error, not "use defaults".
    let result: Result<Config<TestSettings>, _> = Config::new(
        Some(Err("no such file: /nonexistent/path/config.toml".to_string())),
        None,
        &EnvMap::new(),
    );

    assert!(result.is_err(), "Should fail with nonexistent file");
    match result {
        Err(Error::ConfigLoad {
            source: LoadError::FileRead { message },
        }) => assert!(message.contains("/nonexistent/path/config.toml")),
        _ => panic!("expected a file-read error"),
    }
}

#[test]
fn test_config_loading_invalid_toml() {
    let result: Result<Config<TestSettings>, _> = Config::new(
        Some(Ok("this is not valid toml {{{{".to_string())),
        None,
        &EnvMap::new(),
    );

    assert!(result.is_err(), "Should fail with invalid TOML");
    assert!(matches!(
        result,
        Err(Error::ConfigLoad {
            source: LoadError::Parse { .. }
        })
    ));
}

#[test]
fn precedence_env_wins_over_file() {
    // A key path present in both the file and a matching environment
    // override resolves to the environment value; a key present only in the
    // file keeps the file value.
    let env = env_with(&[("APP_SECTION__X", "9")]);
    let tree = resolve_tree(
        None,
        Some("[section]\nx = 1\ny = 2\n"),
        &env,
        Some("APP_"),
    )
    .expect("resolution should succeed");
    let section = tree.get("section").expect("section should exist");
    assert_eq!(
        section.get("x").and_then(|v| v.as_int()),
        Some(9),
        "environment must win"
    );
    assert_eq!(
        section.get("y").and_then(|v| v.as_int()),
        Some(2),
        "file-only keys keep the file value"
    );
}

#[test]
fn deep_merge_keeps_siblings() {
    // Overriding one nested field must not remove its siblings:
    // {a:{x:1,y:2}} overridden with {a:{x:9}} yields {a:{x:9,y:2}}.
    let base = ConfigValue::Dict(vec![(
        "a".to_string(),
        ConfigValue::Dict(vec![
            ("x".to_string(), ConfigValue::Int(1)),
            ("y".to_string(), ConfigValue::Int(2)),
        ]),
    )]);
    let over = ConfigValue::Dict(vec![(
        "a".to_string(),
        ConfigValue::Dict(vec![("x".to_string(), ConfigValue::Int(9))]),
    )]);
    let merged = deep_merge(&base, &over);
    let expected = ConfigValue::Dict(vec![(
        "a".to_string(),
        ConfigValue::Dict(vec![
            ("x".to_string(), ConfigValue::Int(9)),
            ("y".to_string(), ConfigValue::Int(2)),
        ]),
    )]);
    assert_eq!(merged, expected);
}

#[test]
fn deep_merge_replaces_non_dict_pairings() {
    let base = ConfigValue::Str("old".to_string());
    let over = ConfigValue::Int(3);
    assert_eq!(deep_merge(&base, &over), ConfigValue::Int(3));

    let base = ConfigValue::Dict(vec![("k".to_string(), ConfigValue::Int(1))]);
    let over = ConfigValue::Str("replaced".to_string());
    assert_eq!(deep_merge(&base, &over), ConfigValue::Str("replaced".to_string()));
}

/// A two-field configuration for the end-to-end scenario.
#[derive(Debug, PartialEq)]
struct SmallConfig {
    port: u16,
    host: String,
}

impl FromConfig for SmallConfig {
    fn from_config(v: &ConfigValue) -> Result<Self, String> {
        let port = v
            .get("port")
            .and_then(|c| c.as_int())
            .ok_or("port is required".to_string())?;
        let port = u16::try_from(port).map_err(|_| "port out of range".to_string())?;
        let host = v
            .get("host")
            .and_then(|c| c.as_str())
            .ok_or("host is required".to_string())?
            .clone();
        Ok(SmallConfig { port, host })
    }
}

#[test]
fn end_to_end_env_override_scenario() {
    // File sets port=8080, host="x"; APP_PORT=9090 overrides the port.
    let env = env_with(&[("APP_PORT", "9090")]);
    let config: Config<SmallConfig> = Config::new(
        Some(Ok("port = 8080\nhost = \"x\"\n".to_string())),
        Some("APP_"),
        &env,
    )
    .expect("resolution should succeed");
    assert_eq!(config.config, SmallConfig { port: 9090, host: "x".to_string() });
}

#[test]
fn end_to_end_defaults_only_scenario() {
    // Defaults seeded from arguments pass through untouched when there is no
    // file and no environment prefix.
    let defaults = ConfigValue::Dict(vec![("verbose".to_string(), ConfigValue::Bool(true))]);
    let tree = resolve_tree(Some(&defaults), None, &EnvMap::new(), None)
        .expect("resolution should succeed");
    assert_eq!(tree, defaults);
}

#[test]
fn defaults_lose_to_file_and_env() {
    let defaults = ConfigValue::Dict(vec![
        ("kept".to_string(), ConfigValue::Int(1)),
        ("from_file".to_string(), ConfigValue::Int(2)),
        ("from_env".to_string(), ConfigValue::Int(3)),
    ]);
    let env = env_with(&[("P_FROM_ENV", "33")]);
    let tree = resolve_tree(Some(&defaults), Some("from_file = 22\n"), &env, Some("P_"))
        .expect("resolution should succeed");
    assert_eq!(tree.get("kept").and_then(|v| v.as_int()), Some(1));
    assert_eq!(tree.get("from_file").and_then(|v| v.as_int()), Some(22));
    assert_eq!(tree.get("from_env").and_then(|v| v.as_int()), Some(33));
}

#[test]
fn resolution_expands_env_references_in_file_values() {
    let env = env_with(&[("DATA_DIR", "/srv/data")]);
    let tree = resolve_tree(None, Some("dir = \"${DATA_DIR}\"\n"), &env, None)
        .expect("resolution should succeed");
    assert_eq!(
        tree.get("dir").and_then(|v| v.as_str().cloned()),
        Some("/srv/data".to_string())
    );
}

#[test]
fn zero_matching_env_vars_is_not_an_error() {
    let env = env_with(&[("OTHERAPP_X", "1")]);
    let tree = resolve_tree(None, Some("x = 5\n"), &env, Some("MYAPP_"))
        .expect("a prefix with zero matches is valid");
    assert_eq!(tree.get("x").and_then(|v| v.as_int()), Some(5));
}

#[test]
fn coercion_helpers_read_env_style_strings() {
    let v = ConfigValue::Str("123".to_string());
    assert_eq!(v.as_int(), Some(123));
    let v = ConfigValue::Str("-7".to_string());
    assert_eq!(v.as_int(), Some(-7));
    let v = ConfigValue::Str("12x".to_string());
    assert_eq!(v.as_int(), None);
    let v = ConfigValue::Str("true".to_string());
    assert_eq!(v.as_bool(), Some(true));
    let v = ConfigValue::Str("false".to_string());
    assert_eq!(v.as_bool(), Some(false));
    let v = ConfigValue::Bool(false);
    assert_eq!(v.as_bool(), Some(false));
    let v = ConfigValue::Int(88);
    assert_eq!(v.as_int(), Some(88));
    assert_eq!(v.as_bool(), None);
}
