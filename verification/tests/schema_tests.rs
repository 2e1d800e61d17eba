//! Documented configuration generation and its round trip through the loader.

use byre::generate_config_text;
use byre::parse_toml;
use byre::render_schema;
use byre::ConfigSchema;
use byre::ConfigValue;
use byre::EnvMap;
use byre::FromConfig;
use byre::Schema;
use byre::SchemaNode;
use byre::TelemetrySettings;

fn leaf(doc: &str, example: ConfigValue) -> SchemaNode {
    SchemaNode::Leaf {
        doc: doc.to_string(),
        example,
    }
}

/// The schema of the test settings: an application section and the
/// telemetry sections.
struct TestSettings;

impl ConfigSchema for TestSettings {
    fn schema() -> Schema {
        let application = SchemaNode::Table {
            fields: vec![
                (
                    "listen_port".to_string(),
                    leaf("Port to listen on", ConfigValue::Int(8080)),
                ),
                (
                    "listen_host".to_string(),
                    leaf(
                        "Hostname to listen on",
                        ConfigValue::Str("localhost".to_string()),
                    ),
                ),
                (
                    "db_path".to_string(),
                    leaf(
                        "Database directory path",
                        ConfigValue::Str("/var/db/test".to_string()),
                    ),
                ),
            ],
        };
        let telemetry = SchemaNode::Table {
            fields: TelemetrySettings::schema().fields,
        };
        Schema {
            fields: vec![
                ("application".to_string(), application),
                ("telemetry".to_string(), telemetry),
            ],
        }
    }
}

#[test]
fn test_config_generation() {
    let content = generate_config_text::<TestSettings>();

    // Check for expected sections and fields
    assert!(
        content.contains("[application]"),
        "Missing [application] section"
    );
    assert!(content.contains("listen_port"), "Missing listen_port field");
    assert!(content.contains("listen_host"), "Missing listen_host field");
    assert!(content.contains("db_path"), "Missing db_path field");
    assert!(content.contains("[telemetry"), "Missing telemetry section");

    // Check for example values
    assert!(content.contains("8080"), "Missing example value 8080");
    assert!(
        content.contains("localhost"),
        "Missing example value localhost"
    );
}

#[test]
fn test_config_generation_with_comments() {
    let content = generate_config_text::<TestSettings>();

    // Doc comments should be included as comments
    assert!(
        content.contains("# Port to listen on"),
        "Missing doc comment for listen_port"
    );
}

#[test]
fn test_telemetry_settings_document() {
    let text = generate_config_text::<TelemetrySettings>();

    assert!(text.contains("[trace]"));
    assert!(text.contains("[log]"));
    assert!(text.contains("[metric]"));
    assert!(text.contains("endpoint"));
    assert!(text.contains("console_level"));
    assert!(text.contains("otel_level"));
}

#[test]
fn test_nested_settings_document() {
    let text = generate_config_text::<TestSettings>();

    assert!(text.contains("[application]"));
    assert!(text.contains("[telemetry.trace]"));
    assert!(text.contains("[telemetry.log]"));
    assert!(text.contains("[telemetry.metric]"));
}

#[test]
fn generated_document_round_trips_through_the_loader() {
    // The generated document parses and decodes back without error.
    let text = generate_config_text::<TelemetrySettings>();
    let tree = parse_toml(&text).expect("the generated document must parse");
    let settings = TelemetrySettings::from_config(&tree)
        .expect("the generated document must decode");
    assert_eq!(
        settings.trace.endpoint,
        Some("http://localhost:4317".to_string())
    );
    assert_eq!(settings.log.console_level, "debug,yourcrate=info");
    assert_eq!(
        settings.metric.endpoint,
        Some("http://localhost:4318/v1/metrics".to_string())
    );
}

#[test]
fn generated_document_round_trips_through_resolution() {
    let text = generate_config_text::<TestSettings>();
    let config: byre::Config<RoundTrip> =
        byre::Config::new(Some(Ok(text)), None, &EnvMap::new())
            .expect("the generated document must resolve");
    assert_eq!(config.config.0, 8080);
}

/// Decodes just the generated application port, to show the full path works.
struct RoundTrip(i64);

impl FromConfig for RoundTrip {
    fn from_config(v: &ConfigValue) -> Result<Self, String> {
        let app = v.get("application").ok_or("application is required".to_string())?;
        let port = app
            .get("listen_port")
            .and_then(|c| c.as_int())
            .ok_or("listen_port is required".to_string())?;
        Ok(RoundTrip(port))
    }
}

#[test]
fn generated_document_is_valid_toml_for_the_reference_parser() {
    // The generated text is genuine TOML: the reference TOML implementation
    // accepts it and sees the same structure.
    let text = generate_config_text::<TestSettings>();
    let table: toml::Table = text.parse().expect("reference parser must accept it");
    let application = table
        .get("application")
        .and_then(|v| v.as_table())
        .expect("[application] must exist");
    assert_eq!(
        application.get("listen_port").and_then(|v| v.as_integer()),
        Some(8080)
    );
    assert_eq!(
        application.get("listen_host").and_then(|v| v.as_str()),
        Some("localhost")
    );
    let telemetry = table
        .get("telemetry")
        .and_then(|v| v.as_table())
        .expect("[telemetry] must exist");
    assert!(telemetry.contains_key("trace"));
    assert!(telemetry.contains_key("log"));
    assert!(telemetry.contains_key("metric"));
}

#[test]
fn render_handles_every_scalar_kind() {
    let schema = Schema {
        fields: vec![
            ("t".to_string(), leaf("", ConfigValue::Bool(true))),
            ("f".to_string(), leaf("", ConfigValue::Bool(false))),
            ("neg".to_string(), leaf("", ConfigValue::Int(-42))),
            ("zero".to_string(), leaf("", ConfigValue::Int(0))),
            ("fl".to_string(), leaf("", ConfigValue::Float("2.5".to_string()))),
            (
                "arr".to_string(),
                leaf(
                    "",
                    ConfigValue::Array(vec![
                        ConfigValue::Int(1),
                        ConfigValue::Int(2),
                        ConfigValue::Str("three".to_string()),
                    ]),
                ),
            ),
        ],
    };
    let text = render_schema(&schema);
    assert_eq!(
        text,
        "t = true\nf = false\nneg = -42\nzero = 0\nfl = 2.5\narr = [1, 2, \"three\"]\n"
    );

    // And what was rendered parses back to the same values.
    let tree = parse_toml(&text).expect("rendered scalars must parse");
    assert_eq!(tree.get("t").and_then(|v| v.as_bool()), Some(true));
    assert_eq!(tree.get("neg").and_then(|v| v.as_int()), Some(-42));
    match tree.get("arr") {
        Some(ConfigValue::Array(items)) => {
            assert_eq!(items[0], ConfigValue::Int(1));
            assert_eq!(items[2], ConfigValue::Str("three".to_string()));
        }
        _ => panic!("expected an array"),
    }
    match tree.get("fl") {
        Some(ConfigValue::Float(text)) => assert_eq!(text, "2.5"),
        _ => panic!("expected a float kept as text"),
    }
}
