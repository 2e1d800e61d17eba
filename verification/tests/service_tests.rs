//! Service descriptors, error messages, and the telemetry settings shapes.

use byre::metrics_name;
use byre::parse_toml;
use byre::CliError;
use byre::Error;
use byre::FromConfig;
use byre::LoadError;
use byre::ServiceInfo;
use byre::TelemetrySettings;

#[test]
fn test_service_info_fields() {
    let info = ServiceInfo {
        name: "test-service",
        name_in_metrics: "test_service".to_string(),
        version: "1.0.0",
        author: "Test Author",
        description: "A test service",
    };

    assert_eq!(info.name, "test-service");
    assert_eq!(info.name_in_metrics, "test_service");
    assert_eq!(info.version, "1.0.0");
    assert_eq!(info.author, "Test Author");
    assert_eq!(info.description, "A test service");
}

#[test]
fn test_service_info_default() {
    let info = ServiceInfo::default();

    assert_eq!(info.name, "");
    assert_eq!(info.name_in_metrics, "");
    assert_eq!(info.version, "");
}

#[test]
fn test_service_info_clone() {
    let info = ServiceInfo::from_build("byre", "0.1.0", "someone", "a service");
    let cloned = info.clone();

    assert_eq!(info.name, cloned.name);
    assert_eq!(info.version, cloned.version);
}

#[test]
fn from_build_derives_the_metrics_name() {
    let info = ServiceInfo::from_build("my-test-service", "1.0.0", "", "");
    assert_eq!(info.name_in_metrics, "my_test_service");
    assert_eq!(metrics_name("already_fine"), "already_fine");
    assert_eq!(metrics_name("a-b-c"), "a_b_c");
    assert_eq!(metrics_name(""), "");
}

#[test]
fn test_error_display() {
    // Error messages name the path that could not be written.
    let config_error = Error::ConfigFileWrite {
        path: "/test/path".to_string(),
        message: "permission denied".to_string(),
    };

    let error_string = config_error.message();
    assert!(error_string.contains("/test/path"));
}

#[test]
fn test_cli_error_display() {
    let error = CliError::ArgParse {
        message: "missing required argument".to_string(),
    };
    let error_string = error.message();
    assert!(error_string.contains("missing required argument"));
}

#[test]
fn parse_error_message_names_the_line() {
    let error = byre::parse_toml("ok = 1\n???\n").unwrap_err();
    let message = LoadError::Parse { error }.message();
    assert!(message.contains("line 2"));
}

#[test]
fn test_telemetry_settings_default() {
    let settings = TelemetrySettings::default();

    assert!(settings.trace.endpoint.is_none());
    assert!(settings.log.endpoint.is_none());
    assert!(settings.metric.endpoint.is_none());
    assert!(settings.log.console_level.is_empty());
    assert!(settings.log.otel_level.is_empty());
}

#[test]
fn test_telemetry_settings_deserialization() {
    let toml_content = "\
[trace]
endpoint = \"http://trace:4317\"

[log]
console_level = \"info,mycrate=debug\"
otel_level = \"warn\"
endpoint = \"http://log:4317\"

[metric]
endpoint = \"http://metric:4318/v1/metrics\"
";

    let tree = parse_toml(toml_content).expect("Failed to parse");
    let settings = TelemetrySettings::from_config(&tree).expect("Failed to decode");

    assert_eq!(
        settings.trace.endpoint,
        Some("http://trace:4317".to_string())
    );
    assert_eq!(settings.log.console_level, "info,mycrate=debug");
    assert_eq!(settings.log.otel_level, "warn");
    assert_eq!(settings.log.endpoint, Some("http://log:4317".to_string()));
    assert_eq!(
        settings.metric.endpoint,
        Some("http://metric:4318/v1/metrics".to_string())
    );
}

#[test]
fn test_telemetry_settings_partial_config() {
    // Optional endpoints may be omitted.
    let toml_content = "\
[trace]

[log]
console_level = \"info\"
otel_level = \"warn\"

[metric]
";

    let tree = parse_toml(toml_content).expect("Failed to parse");
    let settings = TelemetrySettings::from_config(&tree).expect("Failed to decode");

    assert!(settings.trace.endpoint.is_none());
    assert!(settings.log.endpoint.is_none());
    assert!(settings.metric.endpoint.is_none());
    assert_eq!(settings.log.console_level, "info");
}

#[test]
fn telemetry_settings_missing_section_is_an_error() {
    let tree = parse_toml("[trace]\n[metric]\n").expect("Failed to parse");
    let result = TelemetrySettings::from_config(&tree);
    assert!(result.is_err(), "a missing log section must not decode");
}

#[test]
fn test_telemetry_init_with_disabled_endpoints() {
    let service_info = ServiceInfo::from_build("byre", "0.1.0", "", "");

    let settings = TelemetrySettings {
        trace: byre::TraceSettings { endpoint: None },
        log: byre::LogSettings {
            console_level: "off".to_string(),
            otel_level: "off".to_string(),
            endpoint: None,
        },
        metric: byre::MetricSettings { endpoint: None },
    };

    // All endpoints disabled is a valid configuration.
    assert!(settings.trace.endpoint.is_none());
    assert!(settings.log.endpoint.is_none());
    assert!(settings.metric.endpoint.is_none());

    // Verify service info is usable
    assert!(!service_info.name.is_empty());
}
