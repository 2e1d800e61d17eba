//! Layered configuration for services: a dynamic value tree, deep merging
//! with strict provider precedence (defaults, then file, then environment),
//! environment-variable interpolation in string values, documented config
//! generation, and the command-line negotiation that ties them together.

use vstd::prelude::*;

mod cli;
mod config;
mod env_source;
mod expand;
mod merge;
mod roundtrip;
mod schema;
mod strutil;
mod telemetry;
mod toml;
mod value;

pub use cli::plan;
pub use cli::Cli;
pub use cli::CliArguments;
pub use cli::Error as CliError;
pub use cli::FileStore;
pub use cli::NoArguments;
pub use cli::Plan;
pub use cli::Session;
pub use config::resolve_tree;
pub use config::Config;
pub use config::FromConfig;
pub use config::LoadError;
pub use env_source::env_provider;
pub use expand::expand_env_var;
pub use expand::expand_value;
pub use expand::EnvMap;
pub use merge::deep_merge;
pub use schema::generate_config_text;
pub use schema::render_schema;
pub use schema::ConfigSchema;
pub use schema::Schema;
pub use schema::SchemaNode;
pub use telemetry::LogSettings;
pub use telemetry::MetricSettings;
pub use telemetry::TelemetrySettings;
pub use telemetry::TraceSettings;
pub use toml::parse_toml;
pub use toml::ParseError;
pub use toml::ParseErrorKind;
pub use value::ConfigValue;
pub use value::Val;

verus! {

/// Errors of the configuration engine.
#[derive(Debug)]
pub enum Error {
    /// The configuration could not be loaded: the file was unreadable, did
    /// not parse, or did not decode into the target type.
    ConfigLoad {
        /// The underlying loading failure.
        source: LoadError,
    },
    /// A generated configuration file could not be written.
    ConfigFileWrite {
        /// The path the file was to be written to.
        path: String,
        /// What the write reported.
        message: String,
    },
}

impl Error {
    /// A human-readable description of the error.
    pub fn message(&self) -> String {
        match self {
            Error::ConfigLoad { source } => {
                let mut m = "could not load application configuration: ".to_owned();
                m.append(source.message().as_str());
                m
            },
            Error::ConfigFileWrite { path, message } => {
                let mut m = "could not write to the config file at ".to_owned();
                m.append(path.as_str());
                m.append(": ");
                m.append(message.as_str());
                m
            },
        }
    }
}

/// The metrics form of a service name: every hyphen replaced by an
/// underscore.
pub open spec fn spec_metrics_name(s: Seq<char>) -> Seq<char> {
    Seq::new(s.len(), |i: int| if s[i] == '-' { '_' } else { s[i] })
}

/// Derives the metrics identifier from a service name: the name with every
/// hyphen (`-`) replaced by an underscore (`_`).
pub fn metrics_name(name: &str) -> (r: String)
    ensures
        r@ == spec_metrics_name(name@),
{
    let chars = strutil::str_to_chars(name);
    let mut out: Vec<char> = Vec::new();
    let mut i: usize = 0;
    while i < chars.len()
        invariant
            i <= chars@.len(),
            chars@ == name@,
            out@.len() == i,
            forall|j: int| 0 <= j < i ==> out@[j] == spec_metrics_name(name@)[j],
        decreases chars@.len() - i,
    {
        if chars[i] == '-' {
            out.push('_');
        } else {
            out.push(chars[i]);
        }
        i = i + 1;
    }
    proof {
        assert(out@ =~= spec_metrics_name(name@));
    }
    strutil::chars_to_string(&out)
}

/// Service information collected from the build.
#[derive(Clone, Debug)]
pub struct ServiceInfo {
    /// The name of the service.
    pub name: &'static str,
    /// The service identifier as used in metrics: the name with hyphens
    /// replaced by underscores.
    pub name_in_metrics: String,
    /// The version of the service.
    pub version: &'static str,
    /// The service author.
    pub author: &'static str,
    /// The description of the service.
    pub description: &'static str,
}

impl ServiceInfo {
    /// Builds the descriptor from build metadata, deriving the metrics name
    /// from the service name.
    pub fn from_build(
        name: &'static str,
        version: &'static str,
        author: &'static str,
        description: &'static str,
    ) -> (r: ServiceInfo)
        ensures
            r.name@ == name@,
            r.name_in_metrics@ == spec_metrics_name(name@),
            r.version@ == version@,
            r.author@ == author@,
            r.description@ == description@,
    {
        ServiceInfo {
            name,
            name_in_metrics: metrics_name(name),
            version,
            author,
            description,
        }
    }
}

impl Default for ServiceInfo {
    /// The empty descriptor: every field empty.
    fn default() -> (r: ServiceInfo)
        ensures
            r.name@ == Seq::<char>::empty(),
            r.name_in_metrics@ == Seq::<char>::empty(),
            r.version@ == Seq::<char>::empty(),
            r.author@ == Seq::<char>::empty(),
            r.description@ == Seq::<char>::empty(),
    {
        proof {
            reveal_strlit("");
        }
        ServiceInfo {
            name: "",
            name_in_metrics: String::new(),
            version: "",
            author: "",
            description: "",
        }
    }
}

} // verus!
