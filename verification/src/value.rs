//! The dynamic configuration value tree: the intermediate representation
//! between raw configuration sources and the caller's typed configuration.

use vstd::prelude::*;

verus! {

broadcast use vstd::std_specs::vec::group_vec_axioms;

/// A dynamically typed configuration value: a scalar, an array of values,
/// or a dictionary of string keys to values.
///
/// Float scalars are carried as their literal text; the configuration engine
/// never interprets them, it only passes them through merging and expansion.
#[derive(Debug, PartialEq)]
#[verifier::ext_equal]
pub enum ConfigValue {
    /// The absence of a value.
    Null,
    /// A boolean scalar.
    Bool(bool),
    /// An integer scalar.
    Int(i64),
    /// A float scalar, kept as the literal text it was written with.
    Float(String),
    /// A string scalar.
    Str(String),
    /// An ordered list of values.
    Array(Vec<ConfigValue>),
    /// A dictionary of string keys to values, in insertion order.
    Dict(Vec<(String, ConfigValue)>),
}

/// The mathematical model of a [`ConfigValue`]: the same tree with every
/// string taken as its sequence of characters.
pub enum Val {
    Null,
    Bool(bool),
    Int(i64),
    Float(Seq<char>),
    Str(Seq<char>),
    Array(Seq<Val>),
    Dict(Seq<(Seq<char>, Val)>),
}

impl ConfigValue {
    /// The model of this value.
    pub open spec fn model(self) -> Val
        decreases self, 1int, 0nat,
    {
        match self {
            ConfigValue::Null => Val::Null,
            ConfigValue::Bool(b) => Val::Bool(b),
            ConfigValue::Int(i) => Val::Int(i),
            ConfigValue::Float(s) => Val::Float(s@),
            ConfigValue::Str(s) => Val::Str(s@),
            ConfigValue::Array(items) => Val::Array(model_seq(items@)),
            ConfigValue::Dict(entries) => Val::Dict(model_entries(entries@)),
        }
    }
}

impl View for ConfigValue {
    type V = Val;

    open spec fn view(&self) -> Val {
        self.model()
    }
}

/// The models of a sequence of values, in order.
pub open spec fn model_seq(s: Seq<ConfigValue>) -> Seq<Val>
    decreases s, 0int, s.len(),
{
    if s.len() == 0 {
        Seq::empty()
    } else {
        seq![s[0].model()] + model_seq(s.drop_first())
    }
}

/// The models of a sequence of dictionary entries, keys taken as character
/// sequences, in order.
pub open spec fn model_entries(s: Seq<(String, ConfigValue)>) -> Seq<(Seq<char>, Val)>
    decreases s, 0int, s.len(),
{
    if s.len() == 0 {
        Seq::empty()
    } else {
        seq![(s[0].0@, s[0].1.model())] + model_entries(s.drop_first())
    }
}

/// `model_seq` maps the sequence pointwise.
pub broadcast proof fn lemma_model_seq_index(s: Seq<ConfigValue>)
    ensures
        (#[trigger] model_seq(s)).len() == s.len(),
        forall|i: int| 0 <= i < s.len() ==> model_seq(s)[i] == s[i].model(),
    decreases s.len(),
{
    if s.len() > 0 {
        lemma_model_seq_index(s.drop_first());
    }
}

/// `model_entries` maps the sequence pointwise.
pub broadcast proof fn lemma_model_entries_index(s: Seq<(String, ConfigValue)>)
    ensures
        (#[trigger] model_entries(s)).len() == s.len(),
        forall|i: int| 0 <= i < s.len() ==> model_entries(s)[i] == (s[i].0@, s[i].1.model()),
    decreases s.len(),
{
    if s.len() > 0 {
        lemma_model_entries_index(s.drop_first());
    }
}

/// All keys of a dictionary entry sequence are distinct.
pub open spec fn keys_unique(entries: Seq<(Seq<char>, Val)>) -> bool {
    forall|i: int, j: int|
        0 <= i < j < entries.len() ==> (#[trigger] entries[i]).0 != (#[trigger] entries[j]).0
}

/// Well-formedness of a model value: every dictionary in the tree has
/// distinct keys.
pub open spec fn val_wf(v: Val) -> bool
    decreases v,
{
    match v {
        Val::Array(items) => forall|i: int|
            0 <= i < items.len() ==> val_wf(#[trigger] items[i]),
        Val::Dict(entries) => keys_unique(entries) && forall|i: int|
            0 <= i < entries.len() ==> val_wf((#[trigger] entries[i]).1),
        _ => true,
    }
}

/// The value bound to key `k`, if any.
pub open spec fn dict_get(entries: Seq<(Seq<char>, Val)>, k: Seq<char>) -> Option<Val>
    decreases entries.len(),
{
    if entries.len() == 0 {
        None
    } else if entries[0].0 == k {
        Some(entries[0].1)
    } else {
        dict_get(entries.drop_first(), k)
    }
}

/// `dict_get` finds exactly the keys that occur in the sequence.
pub proof fn lemma_dict_get_some(entries: Seq<(Seq<char>, Val)>, k: Seq<char>)
    ensures
        dict_get(entries, k) matches Some(v) ==> exists|i: int|
            0 <= i < entries.len() && entries[i] == (k, v),
        dict_get(entries, k) is None ==> forall|i: int|
            0 <= i < entries.len() ==> (#[trigger] entries[i]).0 != k,
    decreases entries.len(),
{
    if entries.len() > 0 {
        lemma_dict_get_some(entries.drop_first(), k);
        if entries[0].0 != k {
            assert(forall|i: int|
                1 <= i < entries.len() ==> entries.drop_first()[i - 1] == #[trigger] entries[i]);
        }
    }
}

impl ConfigValue {
    /// A copy of this value, equal to it as a model.
    #[verifier::loop_isolation(false)]
    pub fn deep_copy(&self) -> (r: ConfigValue)
        ensures
            r@ == self@,
        decreases *self,
    {
        match self {
            ConfigValue::Null => ConfigValue::Null,
            ConfigValue::Bool(b) => ConfigValue::Bool(*b),
            ConfigValue::Int(i) => ConfigValue::Int(*i),
            ConfigValue::Float(s) => ConfigValue::Float(s.clone()),
            ConfigValue::Str(s) => ConfigValue::Str(s.clone()),
            ConfigValue::Array(items) => {
                let mut out: Vec<ConfigValue> = Vec::new();
                let mut i: usize = 0;
                while i < items.len()
                    invariant
                        i <= items.len(),
                        out@.len() == i,
                        forall|j: int| 0 <= j < i ==> (#[trigger] out@[j])@ == items@[j]@,
                    decreases items.len() - i,
                {
                    out.push(items[i].deep_copy());
                    i = i + 1;
                }
                proof {
                    lemma_model_seq_index(out@);
                    lemma_model_seq_index(items@);
                    assert(model_seq(out@) =~= model_seq(items@));
                }
                ConfigValue::Array(out)
            },
            ConfigValue::Dict(entries) => {
                let mut out: Vec<(String, ConfigValue)> = Vec::new();
                let mut i: usize = 0;
                while i < entries.len()
                    invariant
                        i <= entries.len(),
                        out@.len() == i,
                        forall|j: int| 0 <= j < i ==> (#[trigger] out@[j]).0@ == entries@[j].0@
                            && out@[j].1@ == entries@[j].1@,
                    decreases entries.len() - i,
                {
                    out.push((entries[i].0.clone(), entries[i].1.deep_copy()));
                    i = i + 1;
                }
                proof {
                    lemma_model_entries_index(out@);
                    lemma_model_entries_index(entries@);
                    assert(model_entries(out@) =~= model_entries(entries@));
                }
                ConfigValue::Dict(out)
            },
        }
    }
}

/// The position of the first entry with key equal to `key`, if any.
pub fn dict_find(entries: &Vec<(String, ConfigValue)>, key: &String) -> (r: Option<usize>)
    ensures
        match r {
            Some(i) => i < entries@.len() && entries@[i as int].0@ == key@ && forall|j: int|
                0 <= j < i ==> (#[trigger] entries@[j]).0@ != key@,
            None => forall|j: int|
                0 <= j < entries@.len() ==> (#[trigger] entries@[j]).0@ != key@,
        },
{
    let mut i: usize = 0;
    while i < entries.len()
        invariant
            i <= entries@.len(),
            forall|j: int| 0 <= j < i ==> (#[trigger] entries@[j]).0@ != key@,
        decreases entries@.len() - i,
    {
        if entries[i].0.eq(key) {
            return Some(i);
        }
        i = i + 1;
    }
    None
}

/// `dict_find` agrees with `dict_get` on the model.
pub proof fn lemma_dict_find_get(entries: Seq<(Seq<char>, Val)>, k: Seq<char>, i: int)
    requires
        0 <= i < entries.len(),
        entries[i].0 == k,
        forall|j: int| 0 <= j < i ==> (#[trigger] entries[j]).0 != k,
    ensures
        dict_get(entries, k) == Some(entries[i].1),
    decreases i,
{
    if i > 0 {
        lemma_dict_find_get(entries.drop_first(), k, i - 1);
    }
}

/// When no key matches, `dict_get` finds nothing.
pub proof fn lemma_dict_find_none(entries: Seq<(Seq<char>, Val)>, k: Seq<char>)
    requires
        forall|j: int| 0 <= j < entries.len() ==> (#[trigger] entries[j]).0 != k,
    ensures
        dict_get(entries, k) is None,
    decreases entries.len(),
{
    if entries.len() > 0 {
        lemma_dict_find_none(entries.drop_first(), k);
    }
}

} // verus!
