//! Command-line negotiation: the generate/run branching and its failures.

use byre::Cli;
use byre::CliArguments;
use byre::CliError;
use byre::ConfigSchema;
use byre::ConfigValue;
use byre::EnvMap;
use byre::Error;
use byre::FileStore;
use byre::FromConfig;
use byre::LoadError;
use byre::Plan;
use byre::Schema;
use byre::SchemaNode;
use byre::Session;

/// Test configuration structure.
#[derive(Debug, PartialEq)]
struct TestConfig {
    setting: Option<String>,
}

impl FromConfig for TestConfig {
    fn from_config(v: &ConfigValue) -> Result<Self, String> {
        match v.get("setting") {
            Some(child) => match child.as_str() {
                Some(s) => Ok(TestConfig { setting: Some(s.clone()) }),
                None => Err("setting must be a string".to_string()),
            },
            None => Ok(TestConfig { setting: None }),
        }
    }
}

impl ConfigSchema for TestConfig {
    fn schema() -> Schema {
        Schema {
            fields: vec![(
                "setting".to_string(),
                SchemaNode::Leaf {
                    doc: "A test setting".to_string(),
                    example: ConfigValue::Str("test_value".to_string()),
                },
            )],
        }
    }
}

/// Test arguments structure.
struct TestArgs {
    verbose: bool,
}

impl CliArguments for TestArgs {
    fn parse_rest(rest: &Vec<String>) -> Result<Self, String> {
        let mut verbose = false;
        for a in rest {
            if a == "--verbose" {
                verbose = true;
            } else {
                return Err(format!("unexpected argument: {}", a));
            }
        }
        Ok(TestArgs { verbose })
    }

    fn config_seed(&self) -> Option<ConfigValue> {
        None
    }
}

fn strings(args: &[&str]) -> Vec<String> {
    args.iter().map(|a| a.to_string()).collect()
}

#[test]
fn test_try_new_from_with_config_returns_some() {
    let mut files = FileStore::new();
    files.add(
        "/virtual/test.toml".to_string(),
        "setting = \"hello\"\n".to_string(),
    );
    let args = strings(&["test-program", "--config", "/virtual/test.toml", "--verbose"]);

    let result = Cli::<TestConfig, TestArgs>::negotiate(
        &args,
        &EnvMap::new(),
        "TEST",
        &files,
        &TestConfig::schema(),
    );

    assert!(result.is_ok(), "negotiation should succeed");
    match result.unwrap() {
        Session::Ready(cli) => {
            assert_eq!(cli.config.setting, Some("hello".to_string()));
            assert!(cli.args.verbose);
        }
        Session::Generated { .. } => panic!("should run, not generate"),
    }
}

#[test]
fn test_try_new_from_generate_returns_none() {
    // Generation settles the session without running: the file's text is
    // handed back to be written, and no configuration is resolved.
    let args = strings(&["test-program", "--generate", "/virtual/generated.toml"]);

    let result = Cli::<TestConfig, TestArgs>::negotiate(
        &args,
        &EnvMap::new(),
        "TEST",
        &FileStore::new(),
        &TestConfig::schema(),
    );

    assert!(result.is_ok(), "negotiation should succeed for generate");
    match result.unwrap() {
        Session::Generated { path, text } => {
            assert_eq!(path, "/virtual/generated.toml");
            assert!(
                text.contains("setting"),
                "generated config should contain setting field"
            );
        }
        Session::Ready(_) => panic!("should generate, not run"),
    }
}

#[test]
fn test_try_new_from_missing_config_fails() {
    let args = strings(&["test-program"]);

    let result = Cli::<TestConfig, TestArgs>::negotiate(
        &args,
        &EnvMap::new(),
        "TEST",
        &FileStore::new(),
        &TestConfig::schema(),
    );

    assert!(
        result.is_err(),
        "should fail when neither config nor generate is provided"
    );
    let err = result.err().unwrap();
    assert!(
        matches!(err, CliError::ArgParse { .. }),
        "expected ArgParse error"
    );
}

#[test]
fn test_try_new_from_with_malformed_config_fails() {
    let mut files = FileStore::new();
    files.add(
        "/virtual/bad.toml".to_string(),
        "this is not valid toml {{{{\n".to_string(),
    );
    let args = strings(&["test-program", "--config", "/virtual/bad.toml"]);

    let result = Cli::<TestConfig, TestArgs>::negotiate(
        &args,
        &EnvMap::new(),
        "TEST",
        &files,
        &TestConfig::schema(),
    );

    assert!(result.is_err(), "should fail with malformed config");
    let err = result.err().unwrap();
    assert!(
        matches!(err, CliError::ConfigLoad { .. }),
        "expected ConfigLoad error"
    );
}

#[test]
fn generate_short_circuits_run() {
    // --generate wins even when --config is also present: nothing is
    // resolved, and the generated text names every declared field.
    let args = strings(&[
        "test-program",
        "--config",
        "/virtual/absent.toml",
        "--generate",
        "/virtual/out.toml",
    ]);

    let result = Cli::<TestConfig, TestArgs>::negotiate(
        &args,
        &EnvMap::new(),
        "TEST",
        &FileStore::new(),
        &TestConfig::schema(),
    );

    match result.unwrap() {
        Session::Generated { path, text } => {
            assert_eq!(path, "/virtual/out.toml");
            assert!(text.contains("setting"));
        }
        Session::Ready(_) => panic!("generate must short-circuit the run"),
    }
}

#[test]
fn missing_config_file_is_a_hard_error() {
    let args = strings(&["test-program", "--config", "/virtual/absent.toml"]);

    let result = Cli::<TestConfig, TestArgs>::negotiate(
        &args,
        &EnvMap::new(),
        "TEST",
        &FileStore::new(),
        &TestConfig::schema(),
    );

    match result {
        Err(CliError::ConfigLoad {
            source:
                Error::ConfigLoad {
                    source: LoadError::FileRead { message },
                },
        }) => assert!(message.contains("/virtual/absent.toml")),
        _ => panic!("expected a file-read error"),
    }
}

#[test]
fn plan_recognises_short_flags() {
    let args = strings(&["prog", "-c", "a.toml", "extra"]);
    match byre::plan(&args).unwrap() {
        Plan::Run { config_path, rest } => {
            assert_eq!(config_path, "a.toml");
            assert_eq!(rest, vec!["extra".to_string()]);
        }
        Plan::Generate { .. } => panic!("expected a run plan"),
    }

    let args = strings(&["prog", "-g", "out.toml"]);
    assert!(matches!(
        byre::plan(&args).unwrap(),
        Plan::Generate { .. }
    ));
}

#[test]
fn plan_flag_without_value_is_an_error() {
    let args = strings(&["prog", "--config"]);
    assert!(matches!(
        byre::plan(&args),
        Err(CliError::ArgParse { .. })
    ));

    let args = strings(&["prog", "--generate"]);
    assert!(matches!(
        byre::plan(&args),
        Err(CliError::ArgParse { .. })
    ));
}

#[test]
fn negotiate_rejects_unknown_arguments() {
    let mut files = FileStore::new();
    files.add("c.toml".to_string(), "setting = \"v\"\n".to_string());
    let args = strings(&["prog", "--config", "c.toml", "--bogus"]);

    let result = Cli::<TestConfig, TestArgs>::negotiate(
        &args,
        &EnvMap::new(),
        "TEST",
        &files,
        &TestConfig::schema(),
    );
    assert!(matches!(result, Err(CliError::ArgParse { .. })));
}

#[test]
fn negotiate_applies_env_overrides() {
    let mut files = FileStore::new();
    files.add("c.toml".to_string(), "setting = \"from-file\"\n".to_string());
    let env = EnvMap::from_pairs(vec![(
        "TEST_SETTING".to_string(),
        "from-env".to_string(),
    )]);
    let args = strings(&["prog", "--config", "c.toml"]);

    let result = Cli::<TestConfig, TestArgs>::negotiate(
        &args,
        &env,
        "TEST_",
        &files,
        &TestConfig::schema(),
    );
    match result.unwrap() {
        Session::Ready(cli) => assert_eq!(cli.config.setting, Some("from-env".to_string())),
        Session::Generated { .. } => panic!("expected a ready session"),
    }
}

#[test]
fn no_arguments_accepts_only_the_builtin_flags() {
    let mut files = FileStore::new();
    files.add("c.toml".to_string(), "setting = \"v\"\n".to_string());

    let args = strings(&["prog", "--config", "c.toml"]);
    let ok = Cli::<TestConfig, byre::NoArguments>::negotiate(
        &args,
        &EnvMap::new(),
        "TEST_",
        &files,
        &TestConfig::schema(),
    );
    assert!(matches!(ok, Ok(Session::Ready(_))));

    let args = strings(&["prog", "--config", "c.toml", "stray"]);
    let err = Cli::<TestConfig, byre::NoArguments>::negotiate(
        &args,
        &EnvMap::new(),
        "TEST_",
        &files,
        &TestConfig::schema(),
    );
    assert!(matches!(err, Err(CliError::ArgParse { .. })));
}

#[test]
fn generate_validates_leftover_arguments() {
    // Unknown arguments are rejected even when only a file is generated.
    let args = strings(&["prog", "--generate", "out.toml", "--bogus"]);
    let result = Cli::<TestConfig, TestArgs>::negotiate(
        &args,
        &EnvMap::new(),
        "TEST",
        &FileStore::new(),
        &TestConfig::schema(),
    );
    assert!(matches!(result, Err(CliError::ArgParse { .. })));

    // Known caller arguments pass, and generation proceeds.
    let args = strings(&["prog", "--generate", "out.toml", "--verbose"]);
    let result = Cli::<TestConfig, TestArgs>::negotiate(
        &args,
        &EnvMap::new(),
        "TEST",
        &FileStore::new(),
        &TestConfig::schema(),
    );
    assert!(matches!(result, Ok(Session::Generated { .. })));
}

#[test]
fn repeated_builtin_flags_are_an_error() {
    let args = strings(&["prog", "--config", "a.toml", "--config", "b.toml"]);
    assert!(matches!(byre::plan(&args), Err(CliError::ArgParse { .. })));

    let args = strings(&["prog", "-g", "a.toml", "--generate", "b.toml"]);
    assert!(matches!(byre::plan(&args), Err(CliError::ArgParse { .. })));
}

#[test]
fn generated_text_is_the_rendered_schema() {
    let args = strings(&["prog", "--generate", "out.toml"]);
    let result = Cli::<TestConfig, TestArgs>::negotiate(
        &args,
        &EnvMap::new(),
        "TEST",
        &FileStore::new(),
        &TestConfig::schema(),
    );
    match result.unwrap() {
        Session::Generated { text, .. } => {
            assert_eq!(text, byre::render_schema(&TestConfig::schema()));
            assert_eq!(text, byre::generate_config_text::<TestConfig>());
        }
        Session::Ready(_) => panic!("expected a generated session"),
    }
}
