//! Environment-variable interpolation: resolving `${VAR}` and `$VAR`
//! references in string values against a snapshot of the environment.
//!
//! Expansion is exact-match only: the whole string must be one reference for
//! a lookup to happen, and an unset variable leaves the string unchanged.

use vstd::prelude::*;

use crate::strutil::str_eq_chars;
use crate::strutil::str_to_chars;
use crate::value::model_entries;
use crate::value::model_seq;
use crate::value::ConfigValue;
use crate::value::Val;

verus! {

broadcast use vstd::std_specs::vec::group_vec_axioms;

/// A snapshot of environment variables: name/value pairs.
///
/// The engine never reads the process environment itself; callers hand it
/// this snapshot. A name occurring twice resolves to its first occurrence;
/// a snapshot of a real environment has each name once.
pub struct EnvMap {
    pairs: Vec<(String, String)>,
}

impl View for EnvMap {
    type V = Seq<(Seq<char>, Seq<char>)>;

    closed spec fn view(&self) -> Seq<(Seq<char>, Seq<char>)> {
        self.pairs@.map_values(|p: (String, String)| (p.0@, p.1@))
    }
}

/// The value bound to `name` in an association list: its first binding.
pub open spec fn assoc_get(env: Seq<(Seq<char>, Seq<char>)>, name: Seq<char>) -> Option<Seq<char>>
    decreases env.len(),
{
    if env.len() == 0 {
        None
    } else if env[0].0 == name {
        Some(env[0].1)
    } else {
        assoc_get(env.drop_first(), name)
    }
}

impl EnvMap {
    /// An empty snapshot: no variable is set.
    pub fn new() -> (r: EnvMap)
        ensures
            r@ =~= Seq::<(Seq<char>, Seq<char>)>::empty(),
    {
        EnvMap { pairs: Vec::new() }
    }

    /// Builds a snapshot from name/value pairs, kept in order.
    pub fn from_pairs(pairs: Vec<(String, String)>) -> (r: EnvMap)
        ensures
            r@.len() == pairs@.len(),
            forall|i: int| 0 <= i < pairs@.len() ==> r@[i] == ((#[trigger] pairs@[i]).0@, pairs@[i].1@),
    {
        EnvMap { pairs }
    }

    /// Adds one variable at the end of the snapshot.
    pub fn push(&mut self, name: String, value: String)
        ensures
            final(self)@ =~= old(self)@.push((name@, value@)),
    {
        self.pairs.push((name, value));
    }

    /// The number of variables in the snapshot.
    pub fn len(&self) -> (n: usize)
        ensures
            n == self@.len(),
    {
        self.pairs.len()
    }

    /// The name/value pair at position `i`.
    pub fn get_pair(&self, i: usize) -> (r: (String, String))
        requires
            i < self@.len(),
        ensures
            (r.0@, r.1@) == self@[i as int],
    {
        (self.pairs[i].0.clone(), self.pairs[i].1.clone())
    }

    /// Looks `name` up in the snapshot.
    pub fn get(&self, name: &Vec<char>) -> (r: Option<String>)
        ensures
            match r {
                Some(v) => assoc_get(self@, name@) == Some(v@),
                None => assoc_get(self@, name@) is None,
            },
    {
        let mut i: usize = 0;
        while i < self.pairs.len()
            invariant
                i <= self.pairs@.len(),
                forall|j: int| 0 <= j < i ==> (#[trigger] self@[j]).0 != name@,
            decreases self.pairs@.len() - i,
        {
            if str_eq_chars(self.pairs[i].0.as_str(), name) {
                proof {
                    lemma_assoc_get_at(self@, name@, i as int);
                }
                return Some(self.pairs[i].1.clone());
            }
            i = i + 1;
        }
        proof {
            lemma_assoc_get_none(self@, name@);
        }
        None
    }
}

/// When the first match is at position `i`, lookup returns its value.
pub(crate) proof fn lemma_assoc_get_at(env: Seq<(Seq<char>, Seq<char>)>, name: Seq<char>, i: int)
    requires
        0 <= i < env.len(),
        env[i].0 == name,
        forall|j: int| 0 <= j < i ==> (#[trigger] env[j]).0 != name,
    ensures
        assoc_get(env, name) == Some(env[i].1),
    decreases i,
{
    if i > 0 {
        lemma_assoc_get_at(env.drop_first(), name, i - 1);
    }
}

/// When no name matches, lookup finds nothing.
pub(crate) proof fn lemma_assoc_get_none(env: Seq<(Seq<char>, Seq<char>)>, name: Seq<char>)
    requires
        forall|j: int| 0 <= j < env.len() ==> (#[trigger] env[j]).0 != name,
    ensures
        assoc_get(env, name) is None,
    decreases env.len(),
{
    if env.len() > 0 {
        lemma_assoc_get_none(env.drop_first(), name);
    }
}

/// What expanding a single string yields: the variable's value when the whole
/// string is one set reference, the string itself otherwise.
pub open spec fn spec_expand_scalar(env: Seq<(Seq<char>, Seq<char>)>, s: Seq<char>) -> Seq<char> {
    if s.len() >= 3 && s[0] == '$' && s[1] == '{' && s.last() == '}' {
        match assoc_get(env, s.subrange(2, s.len() - 1)) {
            Some(v) => v,
            None => s,
        }
    } else if s.len() >= 1 && s[0] == '$' {
        match assoc_get(env, s.drop_first()) {
            Some(v) => v,
            None => s,
        }
    } else {
        s
    }
}

/// Expand an environment variable reference in a string value.
///
/// Two reference shapes are recognised, each only when it spans the whole
/// string:
/// - `${VAR}` resolves to the value of the variable `VAR`;
/// - `$VAR` resolves to the value of the variable `VAR`.
///
/// If the variable is not set in the snapshot, the original string is
/// returned unchanged, and a string that is not one whole reference is
/// returned unchanged. There is no escaping and no rescanning of the
/// substituted value.
pub fn expand_env_var(env: &EnvMap, value: &str) -> (r: String)
    ensures
        r@ == spec_expand_scalar(env@, value@),
{
    let chars = str_to_chars(value);
    let n = chars.len();
    if n >= 3 && chars[0] == '$' && chars[1] == '{' && chars[n - 1] == '}' {
        let mut name: Vec<char> = Vec::new();
        let mut i: usize = 2;
        while i < n - 1
            invariant
                2 <= i <= n - 1,
                n == chars@.len(),
                name@ =~= chars@.subrange(2, i as int),
            decreases n - i,
        {
            name.push(chars[i]);
            i = i + 1;
        }
        assert(name@ =~= value@.subrange(2, value@.len() - 1));
        match env.get(&name) {
            Some(v) => v,
            None => value.to_owned(),
        }
    } else if n >= 1 && chars[0] == '$' {
        let mut name: Vec<char> = Vec::new();
        let mut i: usize = 1;
        while i < n
            invariant
                1 <= i <= n,
                n == chars@.len(),
                name@ =~= chars@.subrange(1, i as int),
            decreases n - i,
        {
            name.push(chars[i]);
            i = i + 1;
        }
        assert(name@ =~= value@.drop_first());
        match env.get(&name) {
            Some(v) => v,
            None => value.to_owned(),
        }
    } else {
        value.to_owned()
    }
}

/// What expanding a whole tree yields: every string leaf is expanded, arrays
/// and dictionaries are walked, and every other leaf is left unchanged.
pub open spec fn spec_expand_val(env: Seq<(Seq<char>, Seq<char>)>, v: Val) -> Val
    decreases v, 1int, 0nat,
{
    match v {
        Val::Str(s) => Val::Str(spec_expand_scalar(env, s)),
        Val::Array(items) => Val::Array(spec_expand_seq(env, items)),
        Val::Dict(entries) => Val::Dict(spec_expand_dict(env, entries)),
        other => other,
    }
}

/// Pointwise expansion of a sequence of values.
pub open spec fn spec_expand_seq(env: Seq<(Seq<char>, Seq<char>)>, s: Seq<Val>) -> Seq<Val>
    decreases s, 0int, s.len(),
{
    if s.len() == 0 {
        Seq::empty()
    } else {
        seq![spec_expand_val(env, s[0])] + spec_expand_seq(env, s.drop_first())
    }
}

/// Expansion of every value of a dictionary, keys kept as they are.
pub open spec fn spec_expand_dict(
    env: Seq<(Seq<char>, Seq<char>)>,
    entries: Seq<(Seq<char>, Val)>,
) -> Seq<(Seq<char>, Val)>
    decreases entries, 0int, entries.len(),
{
    if entries.len() == 0 {
        Seq::empty()
    } else {
        seq![(entries[0].0, spec_expand_val(env, entries[0].1))] + spec_expand_dict(
            env,
            entries.drop_first(),
        )
    }
}

/// `spec_expand_seq` maps the sequence pointwise.
pub broadcast proof fn lemma_expand_seq_index(env: Seq<(Seq<char>, Seq<char>)>, s: Seq<Val>)
    ensures
        (#[trigger] spec_expand_seq(env, s)).len() == s.len(),
        forall|i: int| 0 <= i < s.len() ==> spec_expand_seq(env, s)[i] == spec_expand_val(env, s[i]),
    decreases s.len(),
{
    if s.len() > 0 {
        lemma_expand_seq_index(env, s.drop_first());
    }
}

/// `spec_expand_dict` maps the entries pointwise and keeps every key.
pub broadcast proof fn lemma_expand_dict_index(
    env: Seq<(Seq<char>, Seq<char>)>,
    entries: Seq<(Seq<char>, Val)>,
)
    ensures
        (#[trigger] spec_expand_dict(env, entries)).len() == entries.len(),
        forall|i: int|
            0 <= i < entries.len() ==> spec_expand_dict(env, entries)[i] == (
                entries[i].0,
                spec_expand_val(env, entries[i].1),
            ),
    decreases entries.len(),
{
    if entries.len() > 0 {
        lemma_expand_dict_index(env, entries.drop_first());
    }
}

/// Recursively expand environment variable references in a configuration
/// value: string leaves are expanded, arrays and dictionaries are walked,
/// all other leaves pass through unchanged.
#[verifier::loop_isolation(false)]
pub fn expand_value(env: &EnvMap, v: &ConfigValue) -> (r: ConfigValue)
    ensures
        r@ == spec_expand_val(env@, v@),
    decreases *v,
{
    match v {
        ConfigValue::Null => ConfigValue::Null,
        ConfigValue::Bool(b) => ConfigValue::Bool(*b),
        ConfigValue::Int(i) => ConfigValue::Int(*i),
        ConfigValue::Float(s) => ConfigValue::Float(s.clone()),
        ConfigValue::Str(s) => ConfigValue::Str(expand_env_var(env, s.as_str())),
        ConfigValue::Array(items) => {
            let mut out: Vec<ConfigValue> = Vec::new();
            let mut i: usize = 0;
            while i < items.len()
                invariant
                    i <= items.len(),
                    out@.len() == i,
                    forall|j: int|
                        0 <= j < i ==> (#[trigger] out@[j])@ == spec_expand_val(env@, items@[j]@),
                decreases items.len() - i,
            {
                out.push(expand_value(env, &items[i]));
                i = i + 1;
            }
            proof {
                crate::value::lemma_model_seq_index(out@);
                crate::value::lemma_model_seq_index(items@);
                lemma_expand_seq_index(env@, model_seq(items@));
                assert(model_seq(out@) =~= spec_expand_seq(env@, model_seq(items@)));
            }
            ConfigValue::Array(out)
        },
        ConfigValue::Dict(entries) => {
            let mut out: Vec<(String, ConfigValue)> = Vec::new();
            let mut i: usize = 0;
            while i < entries.len()
                invariant
                    i <= entries.len(),
                    out@.len() == i,
                    forall|j: int|
                        0 <= j < i ==> (#[trigger] out@[j]).0@ == entries@[j].0@ && out@[j].1@
                            == spec_expand_val(env@, entries@[j].1@),
                decreases entries.len() - i,
            {
                out.push((entries[i].0.clone(), expand_value(env, &entries[i].1)));
                i = i + 1;
            }
            proof {
                crate::value::lemma_model_entries_index(out@);
                crate::value::lemma_model_entries_index(entries@);
                lemma_expand_dict_index(env@, model_entries(entries@));
                assert(model_entries(out@) =~= spec_expand_dict(env@, model_entries(entries@)));
            }
            ConfigValue::Dict(out)
        },
    }
}

/// A string that is not one whole variable reference expands to itself.
pub proof fn lemma_expand_non_matching(env: Seq<(Seq<char>, Seq<char>)>, s: Seq<char>)
    requires
        s.len() == 0 || s[0] != '$',
    ensures
        spec_expand_scalar(env, s) == s,
{
}

/// Expanding the literal `${NAME}` yields the variable's value when it is
/// set, and the literal itself, unchanged, when it is not.
pub proof fn lemma_expand_braced(env: Seq<(Seq<char>, Seq<char>)>, name: Seq<char>)
    ensures
        ({
            let s = seq!['$', '{'] + name + seq!['}'];
            match assoc_get(env, name) {
                Some(v) => spec_expand_scalar(env, s) == v,
                None => spec_expand_scalar(env, s) == s,
            }
        }),
{
    let s = seq!['$', '{'] + name + seq!['}'];
    assert(s.len() == name.len() + 3);
    assert(s[0] == '$' && s[1] == '{' && s.last() == '}');
    assert(s.subrange(2, s.len() - 1) =~= name);
}

/// Expanding the literal `$NAME` yields the variable's value when it is set,
/// and the literal itself, unchanged, when it is not. The name must not start
/// with `{`, or the literal would be read as an unclosed braced reference.
pub proof fn lemma_expand_plain(env: Seq<(Seq<char>, Seq<char>)>, name: Seq<char>)
    requires
        name.len() > 0,
        name[0] != '{' || name.last() != '}',
    ensures
        ({
            let s = seq!['$'] + name;
            match assoc_get(env, name) {
                Some(v) => spec_expand_scalar(env, s) == v,
                None => spec_expand_scalar(env, s) == s,
            }
        }),
{
    let s = seq!['$'] + name;
    assert(s[0] == '$');
    assert(s.drop_first() =~= name);
}

/// Expansion never rewrites a non-string leaf, wherever it sits in the tree,
/// and walks arrays and dictionaries pointwise, keeping keys and shape.
pub proof fn lemma_expand_val_shape(env: Seq<(Seq<char>, Seq<char>)>, v: Val)
    ensures
        (v is Null || v is Bool || v is Int || v is Float) ==> spec_expand_val(env, v) == v,
        v matches Val::Str(s) ==> spec_expand_val(env, v) == Val::Str(spec_expand_scalar(env, s)),
        v matches Val::Array(items) ==> spec_expand_val(env, v) matches Val::Array(out) && out.len()
            == items.len() && forall|i: int|
            0 <= i < items.len() ==> out[i] == spec_expand_val(env, #[trigger] items[i]),
        v matches Val::Dict(entries) ==> spec_expand_val(env, v) matches Val::Dict(out) && out.len()
            == entries.len() && forall|i: int|
            0 <= i < entries.len() ==> out[i] == (
                (#[trigger] entries[i]).0,
                spec_expand_val(env, entries[i].1),
            ),
{
    match v {
        Val::Array(items) => {
            lemma_expand_seq_index(env, items);
        },
        Val::Dict(entries) => {
            lemma_expand_dict_index(env, entries);
        },
        _ => {},
    }
}


/// Expansion preserves well-formedness: keys are untouched, so every
/// dictionary of the expanded tree still has distinct keys.
pub proof fn lemma_expand_wf(env: Seq<(Seq<char>, Seq<char>)>, v: Val)
    requires
        crate::value::val_wf(v),
    ensures
        crate::value::val_wf(spec_expand_val(env, v)),
    decreases v,
{
    match v {
        Val::Array(items) => {
            lemma_expand_seq_index(env, items);
            let out = spec_expand_seq(env, items);
            assert forall|i: int| 0 <= i < out.len() implies crate::value::val_wf(
                #[trigger] out[i],
            ) by {
                assert(crate::value::val_wf(items[i]));
                lemma_expand_wf(env, items[i]);
            }
        },
        Val::Dict(entries) => {
            lemma_expand_dict_index(env, entries);
            let out = spec_expand_dict(env, entries);
            assert forall|i: int, j: int| 0 <= i < j < out.len() implies (#[trigger] out[i]).0 != (
            #[trigger] out[j]).0 by {
                assert(out[i].0 == entries[i].0 && out[j].0 == entries[j].0);
            }
            assert forall|i: int| 0 <= i < out.len() implies crate::value::val_wf(
                (#[trigger] out[i]).1,
            ) by {
                assert(crate::value::val_wf(entries[i].1));
                lemma_expand_wf(env, entries[i].1);
            }
        },
        _ => {},
    }
}

} // verus!
