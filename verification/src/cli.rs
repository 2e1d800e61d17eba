//! Command-line negotiation: the built-in `--config` and `--generate` flags,
//! and the branching between generating a documented configuration file and
//! running with a loaded one.
//!
//! The negotiation itself is pure: callers hand in the argument list, an
//! environment snapshot, and a store of pre-read file contents, and take
//! back either a ready session or the text of a generated file to write.

use vstd::prelude::*;

use crate::config::resolve_tree;
use crate::config::FromConfig;
use crate::config::LoadError;
use crate::expand::assoc_get;
use crate::expand::EnvMap;
use crate::schema::render_schema;
use crate::schema::spec_render;
use crate::schema::Schema;
use crate::strutil::str_eq_chars;
use crate::strutil::str_to_chars;
use crate::toml::spec_parse_toml;
use crate::value::ConfigValue;
use crate::value::Val;

verus! {

/// Errors of command-line negotiation.
#[derive(Debug)]
pub enum Error {
    /// Configuration could not be loaded or parsed.
    ConfigLoad {
        /// The underlying configuration error.
        source: crate::Error,
    },
    /// Command-line argument handling failed.
    ArgParse {
        /// A description of what was wrong with the arguments.
        message: String,
    },
    /// Configuration file generation failed.
    ConfigGenerateFailed {
        /// The underlying error from config generation.
        source: crate::Error,
    },
}

impl Error {
    /// A human-readable description of the error.
    pub fn message(&self) -> String {
        match self {
            Error::ConfigLoad { source } => {
                let mut m = "failed to load configuration: ".to_owned();
                m.append(source.message().as_str());
                m
            },
            Error::ArgParse { message } => message.clone(),
            Error::ConfigGenerateFailed { source } => {
                let mut m = "failed to generate configuration file: ".to_owned();
                m.append(source.message().as_str());
                m
            },
        }
    }
}

/// An empty arguments structure for use when no custom CLI arguments are
/// needed: it accepts nothing beyond the built-in flags and seeds nothing.
pub struct NoArguments {}

/// Caller-defined command-line arguments: how the arguments left over after
/// the built-in flags decode, and what configuration they seed.
pub trait CliArguments: Sized {
    /// Decode the arguments not consumed by the built-in flags. The error's
    /// message describes what was wrong.
    fn parse_rest(rest: &Vec<String>) -> Result<Self, String>;

    /// The low-priority configuration seeded from the parsed arguments,
    /// merged below the configuration file and the environment.
    fn config_seed(&self) -> Option<ConfigValue>;
}

impl CliArguments for NoArguments {
    /// Accepts exactly an empty remainder.
    fn parse_rest(rest: &Vec<String>) -> Result<Self, String> {
        if rest.len() == 0 {
            Ok(NoArguments {  })
        } else {
            Err("unexpected argument".to_owned())
        }
    }

    /// Seeds nothing.
    fn config_seed(&self) -> Option<ConfigValue> {
        None
    }
}

/// What the command line asks for: generating a documented configuration
/// file, or running with a configuration file.
pub enum Plan {
    /// Write a generated configuration file to `path` and stop.
    Generate {
        /// Where the generated file is to be written.
        path: String,
        /// The arguments left for the caller-defined argument type, still
        /// validated before anything is generated.
        rest: Vec<String>,
    },
    /// Load the configuration file and run.
    Run {
        /// The configuration file to load.
        config_path: String,
        /// The arguments left for the caller-defined argument type.
        rest: Vec<String>,
    },
}

/// The model of a plan.
pub enum PlanShape {
    Generate(Seq<char>, Seq<Seq<char>>),
    Run(Seq<char>, Seq<Seq<char>>),
}

/// Whether an argument is the generate flag.
pub open spec fn is_generate_flag(a: Seq<char>) -> bool {
    a == "--generate"@ || a == "-g"@
}

/// Whether an argument is the config flag.
pub open spec fn is_config_flag(a: Seq<char>) -> bool {
    a == "--config"@ || a == "-c"@
}

/// Scanning the arguments from position `i` with the values collected so
/// far: each built-in flag takes the following argument as its value,
/// everything else is left for the caller's argument type. A flag with no
/// following argument, or given twice, fails the scan.
pub open spec fn scan_args(
    args: Seq<Seq<char>>,
    i: int,
    gen: Option<Seq<char>>,
    cfg: Option<Seq<char>>,
    rest: Seq<Seq<char>>,
) -> Option<(Option<Seq<char>>, Option<Seq<char>>, Seq<Seq<char>>)>
    decreases args.len() - i,
{
    if i < 0 || i >= args.len() {
        Some((gen, cfg, rest))
    } else if is_generate_flag(args[i]) {
        if i + 1 >= args.len() || gen is Some {
            None
        } else {
            scan_args(args, i + 2, Some(args[i + 1]), cfg, rest)
        }
    } else if is_config_flag(args[i]) {
        if i + 1 >= args.len() || cfg is Some {
            None
        } else {
            scan_args(args, i + 2, gen, Some(args[i + 1]), rest)
        }
    } else {
        scan_args(args, i + 1, gen, cfg, rest.push(args[i]))
    }
}

/// What the command line (program name first) asks for: generation when the
/// generate flag is present, regardless of the config flag; a run when only
/// the config flag is; and nothing — an argument error — when neither is
/// present, a flag lacks its value, or a flag is given twice.
pub open spec fn spec_plan(args: Seq<Seq<char>>) -> Option<PlanShape> {
    if args.len() == 0 {
        None
    } else {
        match scan_args(args, 1, None, None, Seq::empty()) {
            Some((gen, cfg, rest)) => match gen {
                Some(p) => Some(PlanShape::Generate(p, rest)),
                None => match cfg {
                    Some(p) => Some(PlanShape::Run(p, rest)),
                    None => None,
                },
            },
            None => None,
        }
    }
}

/// The model of an argument list.
pub open spec fn args_model(args: Seq<String>) -> Seq<Seq<char>> {
    args.map_values(|a: String| a@)
}

/// Decide what the command line asks for. The first argument is the program
/// name. `--generate <path>` (or `-g <path>`) asks for a generated
/// configuration file, regardless of `--config`; `--config <path>` (or
/// `-c <path>`) asks for a run with that file; all other arguments are left
/// for the caller-defined argument type. Neither flag, a flag without a
/// following value, and a flag given twice are argument errors.
pub fn plan(args: &Vec<String>) -> (r: Result<Plan, Error>)
    ensures
        match r {
            Ok(p) => match p {
                Plan::Generate { path, rest } => spec_plan(args_model(args@)) == Some(
                    PlanShape::Generate(path@, args_model(rest@)),
                ),
                Plan::Run { config_path, rest } => spec_plan(args_model(args@)) == Some(
                    PlanShape::Run(config_path@, args_model(rest@)),
                ),
            },
            Err(e) => e matches Error::ArgParse { .. } && spec_plan(args_model(args@)) is None,
        },
{
    let ghost am = args_model(args@);
    if args.len() == 0 {
        return Err(Error::ArgParse { message: "no arguments".to_owned() });
    }
    let gen_long = str_to_chars("--generate");
    let gen_short = str_to_chars("-g");
    let cfg_long = str_to_chars("--config");
    let cfg_short = str_to_chars("-c");
    let mut gen: Option<String> = None;
    let mut cfg: Option<String> = None;
    let mut rest: Vec<String> = Vec::new();
    let mut i: usize = 1;
    proof {
        assert(args_model(rest@) =~= Seq::<Seq<char>>::empty());
    }
    while i < args.len()
        invariant
            1 <= i,
            args@.len() > 0,
            am == args_model(args@),
            gen_long@ == "--generate"@ && gen_short@ == "-g"@,
            cfg_long@ == "--config"@ && cfg_short@ == "-c"@,
            scan_args(am, 1, None, None, Seq::empty()) == scan_args(
                am,
                i as int,
                match gen {
                    Some(ref p) => Some(p@),
                    None => None,
                },
                match cfg {
                    Some(ref p) => Some(p@),
                    None => None,
                },
                args_model(rest@),
            ),
        decreases args@.len() - i,
    {
        let ghost rest_m = args_model(rest@);
        let a = &args[i];
        if str_eq_chars(a.as_str(), &gen_long) || str_eq_chars(a.as_str(), &gen_short) {
            if i + 1 >= args.len() {
                return Err(
                    Error::ArgParse { message: "the generate flag needs a path".to_owned() },
                );
            }
            if gen.is_some() {
                return Err(
                    Error::ArgParse { message: "the generate flag is given twice".to_owned() },
                );
            }
            gen = Some(args[i + 1].clone());
            i = i + 2;
        } else if str_eq_chars(a.as_str(), &cfg_long) || str_eq_chars(a.as_str(), &cfg_short) {
            if i + 1 >= args.len() {
                return Err(
                    Error::ArgParse { message: "the config flag needs a path".to_owned() },
                );
            }
            if cfg.is_some() {
                return Err(
                    Error::ArgParse { message: "the config flag is given twice".to_owned() },
                );
            }
            cfg = Some(args[i + 1].clone());
            i = i + 2;
        } else {
            rest.push(a.clone());
            proof {
                assert(args_model(rest@) =~= rest_m.push(am[i as int]));
            }
            i = i + 1;
        }
    }
    match gen {
        Some(path) => Ok(Plan::Generate { path, rest }),
        None => match cfg {
            Some(config_path) => Ok(Plan::Run { config_path, rest }),
            None => Err(
                Error::ArgParse {
                    message: "either a config file or a generate path is required".to_owned(),
                },
            ),
        },
    }
}

/// A store of pre-read file contents, keyed by path.
///
/// The negotiation never touches the file system; callers read the one
/// configuration file the plan names and hand its contents in here.
pub struct FileStore {
    files: Vec<(String, String)>,
}

impl View for FileStore {
    type V = Seq<(Seq<char>, Seq<char>)>;

    closed spec fn view(&self) -> Seq<(Seq<char>, Seq<char>)> {
        self.files@.map_values(|p: (String, String)| (p.0@, p.1@))
    }
}

impl FileStore {
    /// An empty store.
    pub fn new() -> (r: FileStore)
        ensures
            r@ =~= Seq::<(Seq<char>, Seq<char>)>::empty(),
    {
        FileStore { files: Vec::new() }
    }

    /// Adds one file's contents under its path.
    pub fn add(&mut self, path: String, contents: String)
        ensures
            final(self)@ =~= old(self)@.push((path@, contents@)),
    {
        self.files.push((path, contents));
    }

    /// The contents stored under `path`, if any.
    pub fn get(&self, path: &str) -> (r: Option<String>)
        ensures
            match r {
                Some(text) => assoc_get(self@, path@) == Some(text@),
                None => assoc_get(self@, path@) is None,
            },
    {
        let path_chars = str_to_chars(path);
        let mut i: usize = 0;
        while i < self.files.len()
            invariant
                i <= self.files@.len(),
                path_chars@ == path@,
                forall|j: int| 0 <= j < i ==> (#[trigger] self@[j]).0 != path@,
            decreases self.files@.len() - i,
        {
            if str_eq_chars(self.files[i].0.as_str(), &path_chars) {
                proof {
                    crate::expand::lemma_assoc_get_at(self@, path@, i as int);
                }
                return Some(self.files[i].1.clone());
            }
            i = i + 1;
        }
        proof {
            crate::expand::lemma_assoc_get_none(self@, path@);
        }
        None
    }
}

/// A settled session: the parsed arguments with the loaded configuration,
/// or the generated configuration file to write.
pub enum Session<C, A> {
    /// Arguments parsed and configuration loaded; the application runs.
    Ready(Cli<C, A>),
    /// A configuration file was generated instead of running.
    Generated {
        /// Where the caller asked for the file to be written.
        path: String,
        /// The generated document.
        text: String,
    },
}

/// Parsed command-line arguments combined with loaded configuration.
pub struct Cli<C, A = NoArguments> {
    /// Parsed command-line arguments from the user.
    pub args: A,
    /// Application configuration loaded from the configuration file and the
    /// environment.
    pub config: C,
}

impl<C: FromConfig, A: CliArguments> Cli<C, A> {
    /// Settle the command line: decide between generating and running,
    /// generate the document or load the layered configuration, and hand
    /// back a fully initialised session or the first error.
    ///
    /// Nothing is read from the process here: `args` is the argument list
    /// (program name first), `env` a snapshot of the environment, `files`
    /// the pre-read contents of the configuration file the command line may
    /// name, and `schema` the declared shape of `C`, as
    /// [`ConfigSchema::schema`](crate::ConfigSchema::schema) gives it; a
    /// generated session's text is exactly that schema's rendering.
    ///
    /// The leftover arguments are validated on both branches, so an unknown
    /// argument is an error even when a file is only being generated.
    pub fn negotiate(
        args: &Vec<String>,
        env: &EnvMap,
        env_prefix: &str,
        files: &FileStore,
        schema: &Schema,
    ) -> (r: Result<Session<C, A>, Error>)
        ensures
            // A command line without a usable plan is an argument error.
            spec_plan(args_model(args@)) is None ==> r matches Err(Error::ArgParse { .. }),
            // A generate plan yields the generated session — the asked path
            // and exactly the schema's rendering — unless the leftover
            // arguments are rejected.
            spec_plan(args_model(args@)) matches Some(PlanShape::Generate(p, grest)) ==> (r
                matches Err(Error::ArgParse { .. }) || (r matches Ok(
                Session::Generated { path, text },
            ) && path@ == p && text@ == spec_render(schema@))),
            // And a generated session arises only from a generate plan.
            r matches Ok(Session::Generated { path, text }) ==> (spec_plan(args_model(args@))
                matches Some(PlanShape::Generate(p, grest)) && path@ == p && text@ == spec_render(
                schema@,
            )),
            // On a run plan whose file is missing, the failure is the
            // file-read error (or the arguments were rejected first).
            spec_plan(args_model(args@)) matches Some(PlanShape::Run(p, rest)) ==> (assoc_get(
                files@,
                p,
            ) is None ==> (r matches Err(Error::ArgParse { .. }) || r matches Err(
                Error::ConfigLoad {
                    source: crate::Error::ConfigLoad { source: LoadError::FileRead { .. } },
                },
            ))),
            // And a file-read error arises only from a run plan whose file
            // is missing.
            r matches Err(
                Error::ConfigLoad {
                    source: crate::Error::ConfigLoad { source: LoadError::FileRead { .. } },
                },
            ) ==> (spec_plan(args_model(args@)) matches Some(PlanShape::Run(p, rest)) && assoc_get(
                files@,
                p,
            ) is None),
            // On a run plan whose file does not parse, the failure is the
            // parse error, with its line and kind (or the arguments were
            // rejected first).
            spec_plan(args_model(args@)) matches Some(PlanShape::Run(p, rest)) ==> (assoc_get(
                files@,
                p,
            ) matches Some(text) ==> (spec_parse_toml(text) matches Err((l, k)) ==> (r matches Err(
                Error::ArgParse { .. },
            ) || (r matches Err(
                Error::ConfigLoad {
                    source: crate::Error::ConfigLoad { source: LoadError::Parse { error } },
                },
            ) && error.line - 1 == l && error.kind == k)))),
            // And a parse error arises only from a run plan whose file holds
            // exactly that offending line.
            r matches Err(
                Error::ConfigLoad {
                    source: crate::Error::ConfigLoad { source: LoadError::Parse { error } },
                },
            ) ==> (spec_plan(args_model(args@)) matches Some(PlanShape::Run(p, rest)) && assoc_get(
                files@,
                p,
            ) matches Some(text) && spec_parse_toml(text) == Err::<Val, _>((
                error.line - 1,
                error.kind,
            ))),
            // A decode error arises only from a run plan whose file was
            // found and parsed.
            r matches Err(
                Error::ConfigLoad {
                    source: crate::Error::ConfigLoad { source: LoadError::Decode { .. } },
                },
            ) ==> (spec_plan(args_model(args@)) matches Some(PlanShape::Run(p, rest)) && assoc_get(
                files@,
                p,
            ) matches Some(text) && spec_parse_toml(text) is Ok),
            // A ready session arises only from a run plan whose file was
            // found and parsed.
            r matches Ok(Session::Ready(_)) ==> (spec_plan(args_model(args@)) matches Some(
                PlanShape::Run(p, rest),
            ) && assoc_get(files@, p) matches Some(text) && spec_parse_toml(text) is Ok),
            !(r matches Err(Error::ConfigGenerateFailed { .. })),
    {
        match plan(args) {
            Err(e) => Err(e),
            Ok(Plan::Generate { path, rest }) => {
                match A::parse_rest(&rest) {
                    Err(message) => Err(Error::ArgParse { message }),
                    Ok(_) => {
                        let text = render_schema(schema);
                        Ok(Session::Generated { path, text })
                    },
                }
            },
            Ok(Plan::Run { config_path, rest }) => {
                match A::parse_rest(&rest) {
                    Err(message) => Err(Error::ArgParse { message }),
                    Ok(parsed_args) => {
                        match files.get(config_path.as_str()) {
                            None => {
                                let mut message =
                                    "could not read the configuration file: ".to_owned();
                                message.append(config_path.as_str());
                                Err(
                                    Error::ConfigLoad {
                                        source: crate::Error::ConfigLoad {
                                            source: LoadError::FileRead { message },
                                        },
                                    },
                                )
                            },
                            Some(text) => {
                                let ghost spec_text = assoc_get(
                                    files@,
                                    spec_plan(args_model(args@))->Some_0->Run_0,
                                )->Some_0;
                                proof {
                                    assert(text@ == spec_text);
                                }
                                let seed = parsed_args.config_seed();
                                let resolved = match &seed {
                                    Some(s) => resolve_tree(
                                        Some(s),
                                        Some(text.as_str()),
                                        env,
                                        Some(env_prefix),
                                    ),
                                    None => resolve_tree(
                                        None,
                                        Some(text.as_str()),
                                        env,
                                        Some(env_prefix),
                                    ),
                                };
                                match resolved {
                                    Err(error) => {
                                        proof {
                                            assert(spec_parse_toml(spec_text) == Err::<Val, _>((
                                                error.line - 1,
                                                error.kind,
                                            )));
                                        }
                                        Err(
                                            Error::ConfigLoad {
                                                source: crate::Error::ConfigLoad {
                                                    source: LoadError::Parse { error },
                                                },
                                            },
                                        )
                                    },
                                    Ok(tree) => {
                                        proof {
                                            assert(spec_parse_toml(spec_text) is Ok);
                                        }
                                        match C::from_config(&tree) {
                                            Ok(config) => Ok(
                                                Session::Ready(Cli { args: parsed_args, config }),
                                            ),
                                            Err(message) => Err(
                                                Error::ConfigLoad {
                                                    source: crate::Error::ConfigLoad {
                                                        source: LoadError::Decode { message },
                                                    },
                                                },
                                            ),
                                        }
                                    },
                                }
                            },
                        }
                    },
                }
            },
        }
    }
}

} // verus!
