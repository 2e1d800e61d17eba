//! Settings for the telemetry subsystem: tracing, logging, and metrics.
//!
//! Only the configuration shapes live here; the exporters and wiring they
//! configure are an outside collaborator of this crate.

use vstd::prelude::*;

use crate::config::FromConfig;
use crate::schema::ConfigSchema;
use crate::schema::Schema;
use crate::schema::SchemaNode;
use crate::value::ConfigValue;

verus! {

/// Settings for metrics collection and export.
#[derive(Debug)]
pub struct MetricSettings {
    /// gRPC endpoint to send metrics to. Omit to disable metrics export.
    pub endpoint: Option<String>,
}

/// Settings for logging configuration.
#[derive(Debug)]
pub struct LogSettings {
    /// Log level used when filtering console logs. Set to `off` to disable
    /// console logging.
    pub console_level: String,
    /// Log level used when filtering exported logs.
    pub otel_level: String,
    /// gRPC endpoint to send exported logs to. Omit to disable log export;
    /// console logs stay on.
    pub endpoint: Option<String>,
}

/// Settings for distributed tracing.
#[derive(Debug)]
pub struct TraceSettings {
    /// gRPC endpoint to send traces to. Omit to disable trace export.
    pub endpoint: Option<String>,
}

/// Settings for tracing, logging, and metrics, used as a member in a
/// service's own settings type.
#[derive(Debug)]
pub struct TelemetrySettings {
    /// Settings for tracing.
    pub trace: TraceSettings,
    /// Settings for logging.
    pub log: LogSettings,
    /// Settings for metrics.
    pub metric: MetricSettings,
}

impl Default for MetricSettings {
    /// No endpoint: metrics export disabled.
    fn default() -> (r: MetricSettings)
        ensures
            r.endpoint is None,
    {
        MetricSettings { endpoint: None }
    }
}

impl Default for LogSettings {
    /// Empty levels and no endpoint.
    fn default() -> (r: LogSettings)
        ensures
            r.console_level@ == Seq::<char>::empty(),
            r.otel_level@ == Seq::<char>::empty(),
            r.endpoint is None,
    {
        LogSettings { console_level: String::new(), otel_level: String::new(), endpoint: None }
    }
}

impl Default for TraceSettings {
    /// No endpoint: trace export disabled.
    fn default() -> (r: TraceSettings)
        ensures
            r.endpoint is None,
    {
        TraceSettings { endpoint: None }
    }
}

impl Default for TelemetrySettings {
    /// Every subsystem at its default: nothing exported.
    fn default() -> (r: TelemetrySettings)
        ensures
            r.trace.endpoint is None,
            r.log.console_level@ == Seq::<char>::empty(),
            r.log.otel_level@ == Seq::<char>::empty(),
            r.log.endpoint is None,
            r.metric.endpoint is None,
    {
        TelemetrySettings {
            trace: TraceSettings::default(),
            log: LogSettings::default(),
            metric: MetricSettings::default(),
        }
    }
}

/// An optional string field of a section: `Ok(None)` when absent, an error
/// when present but not a string.
fn optional_string(v: &ConfigValue, key: &str, what: &str) -> Result<Option<String>, String> {
    match v.get(key) {
        Some(child) => match child.as_str() {
            Some(s) => Ok(Some(s.clone())),
            None => {
                let mut m = what.to_owned();
                m.append(" must be a string");
                Err(m)
            },
        },
        None => Ok(None),
    }
}

/// A required string field of a section.
fn required_string(v: &ConfigValue, key: &str, what: &str) -> Result<String, String> {
    match v.get(key) {
        Some(child) => match child.as_str() {
            Some(s) => Ok(s.clone()),
            None => {
                let mut m = what.to_owned();
                m.append(" must be a string");
                Err(m)
            },
        },
        None => {
            let mut m = what.to_owned();
            m.append(" is required");
            Err(m)
        },
    }
}

impl FromConfig for TraceSettings {
    /// Decodes the `trace` section: an optional `endpoint` string.
    fn from_config(v: &ConfigValue) -> Result<Self, String> {
        match optional_string(v, "endpoint", "trace.endpoint") {
            Ok(endpoint) => Ok(TraceSettings { endpoint }),
            Err(m) => Err(m),
        }
    }
}

impl FromConfig for LogSettings {
    /// Decodes the `log` section: required `console_level` and `otel_level`
    /// strings and an optional `endpoint`.
    fn from_config(v: &ConfigValue) -> Result<Self, String> {
        let console_level = match required_string(v, "console_level", "log.console_level") {
            Ok(s) => s,
            Err(m) => {
                return Err(m);
            },
        };
        let otel_level = match required_string(v, "otel_level", "log.otel_level") {
            Ok(s) => s,
            Err(m) => {
                return Err(m);
            },
        };
        match optional_string(v, "endpoint", "log.endpoint") {
            Ok(endpoint) => Ok(LogSettings { console_level, otel_level, endpoint }),
            Err(m) => Err(m),
        }
    }
}

impl FromConfig for MetricSettings {
    /// Decodes the `metric` section: an optional `endpoint` string.
    fn from_config(v: &ConfigValue) -> Result<Self, String> {
        match optional_string(v, "endpoint", "metric.endpoint") {
            Ok(endpoint) => Ok(MetricSettings { endpoint }),
            Err(m) => Err(m),
        }
    }
}

/// A required section of the tree.
fn required_section<'a>(v: &'a ConfigValue, key: &str, what: &str) -> Result<
    &'a ConfigValue,
    String,
> {
    match v.get(key) {
        Some(child) => Ok(child),
        None => {
            let mut m = what.to_owned();
            m.append(" section is required");
            Err(m)
        },
    }
}

impl FromConfig for TelemetrySettings {
    /// Decodes the three required sections `trace`, `log` and `metric`.
    fn from_config(v: &ConfigValue) -> Result<Self, String> {
        let trace = match required_section(v, "trace", "telemetry trace") {
            Ok(child) => match TraceSettings::from_config(child) {
                Ok(t) => t,
                Err(m) => {
                    return Err(m);
                },
            },
            Err(m) => {
                return Err(m);
            },
        };
        let log = match required_section(v, "log", "telemetry log") {
            Ok(child) => match LogSettings::from_config(child) {
                Ok(t) => t,
                Err(m) => {
                    return Err(m);
                },
            },
            Err(m) => {
                return Err(m);
            },
        };
        let metric = match required_section(v, "metric", "telemetry metric") {
            Ok(child) => match MetricSettings::from_config(child) {
                Ok(t) => t,
                Err(m) => {
                    return Err(m);
                },
            },
            Err(m) => {
                return Err(m);
            },
        };
        Ok(TelemetrySettings { trace, log, metric })
    }
}

/// An endpoint leaf field with its documentation.
fn endpoint_leaf(doc: &str, example: &str) -> (String, SchemaNode) {
    (
        "endpoint".to_owned(),
        SchemaNode::Leaf { doc: doc.to_owned(), example: ConfigValue::Str(example.to_owned()) },
    )
}

impl ConfigSchema for TelemetrySettings {
    /// The declared shape: a `trace`, a `log` and a `metric` section, each
    /// with its endpoint, and the two log levels.
    fn schema() -> Schema {
        let mut trace_fields: Vec<(String, SchemaNode)> = Vec::new();
        trace_fields.push(
            endpoint_leaf(
                "gRPC endpoint to send traces to. Omit to disable trace export.",
                "http://localhost:4317",
            ),
        );
        let mut log_fields: Vec<(String, SchemaNode)> = Vec::new();
        log_fields.push(
            (
                "console_level".to_owned(),
                SchemaNode::Leaf {
                    doc: "Log level used when filtering console logs.".to_owned(),
                    example: ConfigValue::Str("debug,yourcrate=info".to_owned()),
                },
            ),
        );
        log_fields.push(
            (
                "otel_level".to_owned(),
                SchemaNode::Leaf {
                    doc: "Log level used when filtering exported logs.".to_owned(),
                    example: ConfigValue::Str("warn,yourcrate=debug".to_owned()),
                },
            ),
        );
        log_fields.push(
            endpoint_leaf(
                "gRPC endpoint to send exported logs to. Omit to disable log export.",
                "http://localhost:4317",
            ),
        );
        let mut metric_fields: Vec<(String, SchemaNode)> = Vec::new();
        metric_fields.push(
            endpoint_leaf(
                "gRPC endpoint to send metrics to. Omit to disable metrics export.",
                "http://localhost:4318/v1/metrics",
            ),
        );
        let mut fields: Vec<(String, SchemaNode)> = Vec::new();
        fields.push(("trace".to_owned(), SchemaNode::Table { fields: trace_fields }));
        fields.push(("log".to_owned(), SchemaNode::Table { fields: log_fields }));
        fields.push(("metric".to_owned(), SchemaNode::Table { fields: metric_fields }));
        Schema { fields }
    }
}

} // verus!
