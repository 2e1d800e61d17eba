//! Layered configuration resolution: defaults, then the configuration file,
//! then environment overrides, merged in that order of rising precedence,
//! expanded, and decoded into the caller's type.

use vstd::prelude::*;

use crate::env_source::env_overrides;
use crate::env_source::env_provider;
use crate::expand::expand_value;
use crate::expand::spec_expand_val;
use crate::expand::EnvMap;
use crate::merge::deep_merge;
use crate::merge::merge_val;
use crate::toml::parse_scalar;
use crate::toml::spec_parse_toml;
use crate::toml::ParseError;
use crate::toml::ParseErrorKind;
use crate::value::ConfigValue;
use crate::value::Val;
use crate::Error;

verus! {

/// Why a configuration could not be loaded.
#[derive(Debug)]
pub enum LoadError {
    /// The configuration file could not be read.
    FileRead {
        /// What the read reported.
        message: String,
    },
    /// The configuration file is not well-formed.
    Parse {
        /// The first offending line and why it offends.
        error: ParseError,
    },
    /// The resolved tree does not decode into the target type.
    Decode {
        /// What the decoder reported.
        message: String,
    },
}

impl LoadError {
    /// A human-readable description of the failure.
    pub fn message(&self) -> String {
        match self {
            LoadError::FileRead { message } => message.clone(),
            LoadError::Parse { error } => {
                let mut m = "the configuration file is malformed at line ".to_owned();
                let mut digits: Vec<char> = Vec::new();
                crate::schema::push_dec_usize(error.line, &mut digits);
                m.append(crate::strutil::chars_to_string(&digits).as_str());
                match error.kind {
                    ParseErrorKind::Malformed => m.append(": the line matches no supported shape"),
                    ParseErrorKind::DuplicateKey => m.append(": the key is assigned twice"),
                    ParseErrorKind::Conflict => m.append(
                        ": the path runs through a non-table value",
                    ),
                }
                m
            },
            LoadError::Decode { message } => message.clone(),
        }
    }
}

/// A type that can be decoded from a resolved configuration tree.
///
/// Callers implement this for their configuration types, naming each field
/// and its place in the tree.
pub trait FromConfig: Sized {
    /// Decode a fully resolved configuration tree into this type. The
    /// message of the error names what was missing or mismatched.
    fn from_config(v: &ConfigValue) -> Result<Self, String>;
}

/// The tree that merging the three layers and expanding yields: `base` under
/// the file tree under the environment overrides, every string leaf then
/// expanded against the environment.
pub open spec fn spec_finish(
    base: Val,
    file_tree: Val,
    env: Seq<(Seq<char>, Seq<char>)>,
    prefix: Option<Seq<char>>,
) -> Val {
    let merged = merge_val(base, file_tree);
    let with_env = match prefix {
        Some(p) => merge_val(merged, env_overrides(env, p)),
        None => merged,
    };
    spec_expand_val(env, with_env)
}

/// What resolution yields: the fully merged and expanded tree, or the file's
/// first offending line.
pub open spec fn spec_resolve_tree(
    defaults: Option<Val>,
    file_text: Option<Seq<char>>,
    env: Seq<(Seq<char>, Seq<char>)>,
    prefix: Option<Seq<char>>,
) -> Result<Val, (int, ParseErrorKind)> {
    let base = match defaults {
        Some(d) => d,
        None => Val::Dict(Seq::empty()),
    };
    match file_text {
        Some(t) => match spec_parse_toml(t) {
            Ok(file_tree) => Ok(spec_finish(base, file_tree, env, prefix)),
            Err(e) => Err(e),
        },
        None => Ok(spec_finish(base, Val::Dict(Seq::empty()), env, prefix)),
    }
}

/// The model of an optional default tree.
pub open spec fn defaults_model(defaults: Option<&ConfigValue>) -> Option<Val> {
    match defaults {
        Some(d) => Some(d@),
        None => None,
    }
}

/// The model of an optional string.
pub open spec fn opt_str_model(s: Option<&str>) -> Option<Seq<char>> {
    match s {
        Some(t) => Some(t@),
        None => None,
    }
}

/// Resolve a configuration tree from its layers, in rising precedence:
/// `defaults`, then the configuration file's contents, then environment
/// variables starting with `prefix`. The merged tree is then expanded
/// against the environment. A file that does not parse is a hard error.
pub fn resolve_tree(
    defaults: Option<&ConfigValue>,
    file_text: Option<&str>,
    env: &EnvMap,
    prefix: Option<&str>,
) -> (r: Result<ConfigValue, ParseError>)
    ensures
        match r {
            Ok(v) => spec_resolve_tree(
                defaults_model(defaults),
                match file_text {
                    Some(t) => Some(t@),
                    None => None,
                },
                env@,
                opt_str_model(prefix),
            ) == Ok::<_, (int, ParseErrorKind)>(v@),
            Err(e) => spec_resolve_tree(
                defaults_model(defaults),
                match file_text {
                    Some(t) => Some(t@),
                    None => None,
                },
                env@,
                opt_str_model(prefix),
            ) == Err::<Val, _>(((e.line - 1) as int, e.kind)) && e.line >= 1,
        },
{
    let base = match defaults {
        Some(d) => d.deep_copy(),
        None => ConfigValue::Dict(Vec::new()),
    };
    proof {
        if defaults is None {
            assert(crate::value::model_entries(Seq::<(String, ConfigValue)>::empty()) =~= Seq::<
                (Seq<char>, Val),
            >::empty());
        }
    }
    let file_tree = match file_text {
        Some(t) => match crate::toml::parse_toml(t) {
            Ok(v) => v,
            Err(e) => {
                return Err(e);
            },
        },
        None => {
            proof {
                assert(crate::value::model_entries(Seq::<(String, ConfigValue)>::empty())
                    =~= Seq::<(Seq<char>, Val)>::empty());
            }
            ConfigValue::Dict(Vec::new())
        },
    };
    let merged = deep_merge(&base, &file_tree);
    let with_env = match prefix {
        Some(p) => {
            let overrides = env_provider(env, p);
            deep_merge(&merged, &overrides)
        },
        None => merged,
    };
    Ok(expand_value(env, &with_env))
}

/// Container for loaded and merged configuration.
///
/// The `config` field holds the final configuration after applying, in rising
/// precedence, the defaults, the configuration file, and the environment
/// overrides.
pub struct Config<C> {
    /// The fully loaded and merged configuration instance.
    pub config: C,
}

impl<C: FromConfig> Config<C> {
    /// Loads and merges configuration from its sources and decodes it.
    ///
    /// `config_text` is what reading the optional configuration file
    /// produced: `None` when no file is configured, the file's contents on a
    /// successful read, and the read failure's message otherwise. A failed
    /// read, a file that does not parse, and a tree that does not decode are
    /// each a hard error.
    pub fn new(
        config_text: Option<Result<String, String>>,
        env_prefix: Option<&str>,
        env: &EnvMap,
    ) -> (r: Result<Config<C>, Error>)
        ensures
            ({
                let tree = spec_resolve_tree(
                    None,
                    match config_text {
                        Some(Ok(t)) => Some(t@),
                        _ => None,
                    },
                    env@,
                    opt_str_model(env_prefix),
                );
                match r {
                    Ok(_) => (config_text matches Some(Err(_)) == false) && tree is Ok,
                    Err(e) => match e {
                        Error::ConfigLoad { source } => match source {
                            LoadError::FileRead { message } => config_text matches Some(Err(m))
                                && message@ == m@,
                            LoadError::Parse { error } => !(config_text matches Some(Err(_)))
                                && tree == Err::<Val, _>((
                                (error.line - 1) as int,
                                error.kind,
                            )),
                            LoadError::Decode { .. } => !(config_text matches Some(Err(_)))
                                && tree is Ok,
                        },
                        Error::ConfigFileWrite { .. } => false,
                    },
                }
            }),
    {
        let text = match config_text {
            Some(Ok(t)) => Some(t),
            Some(Err(message)) => {
                return Err(
                    Error::ConfigLoad { source: LoadError::FileRead { message } },
                );
            },
            None => None,
        };
        let tree = match resolve_tree(
            None,
            match &text {
                Some(t) => Some(t.as_str()),
                None => None,
            },
            env,
            env_prefix,
        ) {
            Ok(v) => v,
            Err(error) => {
                return Err(Error::ConfigLoad { source: LoadError::Parse { error } });
            },
        };
        match C::from_config(&tree) {
            Ok(config) => Ok(Config { config }),
            Err(message) => Err(
                Error::ConfigLoad { source: LoadError::Decode { message } },
            ),
        }
    }
}

impl ConfigValue {
    /// The value of `key` in this dictionary, if this is a dictionary that
    /// binds it.
    #[verifier::loop_isolation(false)]
    pub fn get<'a>(&'a self, key: &str) -> (r: Option<&'a ConfigValue>)
        ensures
            match r {
                Some(child) => self@ matches Val::Dict(entries) && crate::value::dict_get(
                    entries,
                    key@,
                ) == Some(child@),
                None => match self@ {
                    Val::Dict(entries) => crate::value::dict_get(entries, key@) is None,
                    _ => true,
                },
            },
    {
        match self {
            ConfigValue::Dict(entries) => {
                let key_chars = crate::strutil::str_to_chars(key);
                proof {
                    crate::value::lemma_model_entries_index(entries@);
                }
                let mut i: usize = 0;
                while i < entries.len()
                    invariant
                        i <= entries@.len(),
                        key_chars@ == key@,
                        forall|j: int|
                            0 <= j < i ==> (#[trigger] entries@[j]).0@ != key@,
                    decreases entries@.len() - i,
                {
                    if crate::strutil::str_eq_chars(entries[i].0.as_str(), &key_chars) {
                        proof {
                            crate::value::lemma_model_entries_index(entries@);
                            assert(forall|j: int|
                                0 <= j < i ==> (#[trigger] crate::value::model_entries(
                                    entries@,
                                )[j]).0 != key@);
                            crate::value::lemma_dict_find_get(
                                crate::value::model_entries(entries@),
                                key@,
                                i as int,
                            );
                        }
                        return Some(&entries[i].1);
                    }
                    i = i + 1;
                }
                proof {
                    crate::value::lemma_model_entries_index(entries@);
                    crate::value::lemma_dict_find_none(
                        crate::value::model_entries(entries@),
                        key@,
                    );
                }
                None
            },
            _ => None,
        }
    }

    /// What this value coerces to as an integer: an integer leaf itself, or
    /// a string leaf that reads in whole as one integer literal.
    pub open spec fn spec_as_int(self_model: Val) -> Option<i64> {
        match self_model {
            Val::Int(n) => Some(n),
            Val::Str(s) => match parse_scalar(s, 0) {
                Some((Val::Int(n), end)) => if end == s.len() {
                    Some(n)
                } else {
                    None
                },
                _ => None,
            },
            _ => None,
        }
    }

    /// This value as an integer: an integer leaf, or a string leaf holding
    /// exactly one integer literal, as environment overrides produce.
    pub fn as_int(&self) -> (r: Option<i64>)
        ensures
            r == Self::spec_as_int(self@),
    {
        match self {
            ConfigValue::Int(n) => Some(*n),
            ConfigValue::Str(s) => {
                let chars = crate::strutil::str_to_chars(s.as_str());
                match crate::toml::scan_scalar(&chars, 0) {
                    Some((ConfigValue::Int(n), end)) => {
                        if end == chars.len() {
                            Some(n)
                        } else {
                            None
                        }
                    },
                    Some(_) => None,
                    None => None,
                }
            },
            _ => None,
        }
    }

    /// What this value coerces to as a boolean.
    pub open spec fn spec_as_bool(self_model: Val) -> Option<bool> {
        match self_model {
            Val::Bool(b) => Some(b),
            Val::Str(s) => if s == "true"@ {
                Some(true)
            } else if s == "false"@ {
                Some(false)
            } else {
                None
            },
            _ => None,
        }
    }

    /// This value as a boolean: a boolean leaf, or a string leaf reading
    /// `true` or `false`, as environment overrides produce.
    pub fn as_bool(&self) -> (r: Option<bool>)
        ensures
            r == Self::spec_as_bool(self@),
    {
        match self {
            ConfigValue::Bool(b) => Some(*b),
            ConfigValue::Str(s) => {
                let true_chars = crate::strutil::str_to_chars("true");
                let false_chars = crate::strutil::str_to_chars("false");
                if crate::strutil::str_eq_chars(s.as_str(), &true_chars) {
                    Some(true)
                } else if crate::strutil::str_eq_chars(s.as_str(), &false_chars) {
                    Some(false)
                } else {
                    None
                }
            },
            _ => None,
        }
    }

    /// This value as a string leaf.
    pub fn as_str<'a>(&'a self) -> (r: Option<&'a String>)
        ensures
            match r {
                Some(s) => self@ == Val::Str(s@),
                None => !(self@ is Str),
            },
    {
        match self {
            ConfigValue::Str(s) => Some(s),
            _ => None,
        }
    }
}


/// Resolution yields a well-formed tree: every dictionary of the result has
/// distinct keys, whenever the supplied defaults do.
pub proof fn lemma_resolve_tree_wf(
    defaults: Option<Val>,
    file_text: Option<Seq<char>>,
    env: Seq<(Seq<char>, Seq<char>)>,
    prefix: Option<Seq<char>>,
)
    requires
        defaults matches Some(d) ==> crate::value::val_wf(d),
    ensures
        spec_resolve_tree(defaults, file_text, env, prefix) matches Ok(t)
            ==> crate::value::val_wf(t),
{
    let base = match defaults {
        Some(d) => d,
        None => Val::Dict(Seq::empty()),
    };
    assert(crate::value::val_wf(base));
    let file_tree = match file_text {
        Some(t) => {
            crate::toml::lemma_parse_toml_wf(t);
            match spec_parse_toml(t) {
                Ok(ft) => ft,
                Err(_) => Val::Dict(Seq::empty()),
            }
        },
        None => Val::Dict(Seq::empty()),
    };
    if spec_resolve_tree(defaults, file_text, env, prefix) is Ok {
        assert(crate::value::val_wf(file_tree));
        crate::merge::lemma_merge_wf(base, file_tree);
        let merged = merge_val(base, file_tree);
        let with_env = match prefix {
            Some(p) => {
                crate::env_source::lemma_env_overrides_wf(env, p);
                crate::merge::lemma_merge_wf(merged, env_overrides(env, p));
                merge_val(merged, env_overrides(env, p))
            },
            None => merged,
        };
        crate::expand::lemma_expand_wf(env, with_env);
    }
}


/// Looking a key up in an expanded dictionary finds the expanded binding.
proof fn lemma_expand_dict_get(
    env: Seq<(Seq<char>, Seq<char>)>,
    entries: Seq<(Seq<char>, Val)>,
    k: Seq<char>,
)
    ensures
        crate::value::dict_get(crate::expand::spec_expand_dict(env, entries), k) == (
        match crate::value::dict_get(entries, k) {
            Some(c) => Some(spec_expand_val(env, c)),
            None => None::<Val>,
        }),
    decreases entries.len(),
{
    if entries.len() > 0 {
        lemma_expand_dict_get(env, entries.drop_first(), k);
        assert(crate::expand::spec_expand_dict(env, entries).drop_first()
            =~= crate::expand::spec_expand_dict(env, entries.drop_first()));
    }
}

/// Expansion commutes with path lookup: the expanded tree binds a path to
/// exactly the expansion of what the tree bound it to.
pub proof fn lemma_expand_get_path(
    env: Seq<(Seq<char>, Seq<char>)>,
    v: Val,
    path: Seq<Seq<char>>,
)
    ensures
        crate::merge::get_path(spec_expand_val(env, v), path) == (match crate::merge::get_path(
            v,
            path,
        ) {
            Some(c) => Some(spec_expand_val(env, c)),
            None => None::<Val>,
        }),
    decreases path.len(),
{
    if path.len() > 0 {
        match v {
            Val::Dict(entries) => {
                lemma_expand_dict_get(env, entries, path[0]);
                match crate::value::dict_get(entries, path[0]) {
                    Some(c) => {
                        lemma_expand_get_path(env, c, path.drop_first());
                    },
                    None => {},
                }
            },
            _ => {},
        }
    }
}

/// Precedence, end to end, environment side: a key path that the
/// environment's override tree binds to a leaf resolves, through the whole
/// layering, to that leaf expanded — never to the file's or the defaults'
/// value. An override that is not itself a whole variable reference comes
/// through unchanged.
pub proof fn lemma_resolve_env_wins(
    defaults: Option<Val>,
    file_text: Seq<char>,
    env: Seq<(Seq<char>, Seq<char>)>,
    prefix: Seq<char>,
    path: Seq<Seq<char>>,
)
    requires
        spec_parse_toml(file_text) is Ok,
        crate::merge::get_path(env_overrides(env, prefix), path) matches Some(x) && !(x is Dict),
    ensures
        spec_resolve_tree(defaults, Some(file_text), env, Some(prefix)) is Ok,
        crate::merge::get_path(
            spec_resolve_tree(defaults, Some(file_text), env, Some(prefix))->Ok_0,
            path,
        ) == Some(
            spec_expand_val(
                env,
                crate::merge::get_path(env_overrides(env, prefix), path)->Some_0,
            ),
        ),
        crate::merge::get_path(env_overrides(env, prefix), path) matches Some(Val::Str(s)) ==> ((
        s.len() == 0 || s[0] != '$') ==> crate::merge::get_path(
            spec_resolve_tree(defaults, Some(file_text), env, Some(prefix))->Ok_0,
            path,
        ) == Some(Val::Str(s))),
{
    let base = match defaults {
        Some(d) => d,
        None => Val::Dict(Seq::empty()),
    };
    let f = spec_parse_toml(file_text)->Ok_0;
    let ov = env_overrides(env, prefix);
    let merged = merge_val(merge_val(base, f), ov);
    crate::merge::lemma_merge_precedence(merge_val(base, f), ov, path);
    lemma_expand_get_path(env, merged, path);
    match crate::merge::get_path(ov, path) {
        Some(Val::Str(s)) => {
            if s.len() == 0 || s[0] != '$' {
                crate::expand::lemma_expand_non_matching(env, s);
            }
        },
        _ => {},
    }
}

/// Precedence, end to end, file side: a key path that the file binds to a
/// leaf and that no environment override addresses — every proper prefix of
/// it leading in the override tree to a table or to nothing, the path
/// itself to nothing — resolves, through the whole layering, to the file's
/// leaf, expanded. A non-string leaf, or a string that is not a whole
/// variable reference, comes through unchanged.
pub proof fn lemma_resolve_file_kept(
    defaults: Option<Val>,
    file_text: Seq<char>,
    env: Seq<(Seq<char>, Seq<char>)>,
    prefix: Seq<char>,
    path: Seq<Seq<char>>,
)
    requires
        spec_parse_toml(file_text) is Ok,
        crate::merge::get_path(spec_parse_toml(file_text)->Ok_0, path) matches Some(x) && !(
        x is Dict),
        path.len() > 0,
        forall|n: int|
            0 <= n < path.len() ==> match #[trigger] crate::merge::get_path(
                env_overrides(env, prefix),
                path.subrange(0, n),
            ) {
                Some(d) => d is Dict,
                None => true,
            },
        crate::merge::get_path(env_overrides(env, prefix), path) is None,
    ensures
        spec_resolve_tree(defaults, Some(file_text), env, Some(prefix)) is Ok,
        crate::merge::get_path(
            spec_resolve_tree(defaults, Some(file_text), env, Some(prefix))->Ok_0,
            path,
        ) == Some(
            spec_expand_val(
                env,
                crate::merge::get_path(spec_parse_toml(file_text)->Ok_0, path)->Some_0,
            ),
        ),
        crate::merge::get_path(spec_parse_toml(file_text)->Ok_0, path) matches Some(Val::Str(s))
            ==> ((s.len() == 0 || s[0] != '$') ==> crate::merge::get_path(
            spec_resolve_tree(defaults, Some(file_text), env, Some(prefix))->Ok_0,
            path,
        ) == Some(Val::Str(s))),
        (!(crate::merge::get_path(spec_parse_toml(file_text)->Ok_0, path)->Some_0 is Str) && !(
        crate::merge::get_path(spec_parse_toml(file_text)->Ok_0, path)->Some_0 is Array))
            ==> crate::merge::get_path(
            spec_resolve_tree(defaults, Some(file_text), env, Some(prefix))->Ok_0,
            path,
        ) == Some(crate::merge::get_path(spec_parse_toml(file_text)->Ok_0, path)->Some_0),
{
    let base = match defaults {
        Some(d) => d,
        None => Val::Dict(Seq::empty()),
    };
    let f = spec_parse_toml(file_text)->Ok_0;
    let ov = env_overrides(env, prefix);
    let merged1 = merge_val(base, f);
    crate::merge::lemma_merge_precedence(base, f, path);
    crate::merge::lemma_merge_keeps_base(merged1, ov, path);
    let merged2 = merge_val(merged1, ov);
    lemma_expand_get_path(env, merged2, path);
    match crate::merge::get_path(f, path) {
        Some(Val::Str(s)) => {
            if s.len() == 0 || s[0] != '$' {
                crate::expand::lemma_expand_non_matching(env, s);
            }
        },
        _ => {},
    }
}

} // verus!
