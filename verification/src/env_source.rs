//! The environment provider: variables whose names start with a given prefix
//! become configuration overrides. The rest of the name is ASCII-lowercased
//! and split on the nesting delimiter `__` into a path of dictionary keys.

use vstd::prelude::*;

use crate::expand::EnvMap;
use crate::merge::deep_merge;
use crate::merge::merge_val;
use crate::strutil::chars_to_string;
use crate::strutil::lower_char;
use crate::strutil::spec_lower_char;
use crate::strutil::str_to_chars;
use crate::value::Val;
use crate::value::ConfigValue;

verus! {

/// Whether `s` starts with `prefix`.
pub open spec fn starts_with(s: Seq<char>, prefix: Seq<char>) -> bool {
    s.len() >= prefix.len() && s.subrange(0, prefix.len() as int) == prefix
}

/// The sequence with every character ASCII-lowercased.
pub open spec fn lower_seq(s: Seq<char>) -> Seq<char> {
    Seq::new(s.len(), |i: int| spec_lower_char(s[i]))
}

/// Splitting on the delimiter `__`, scanning left to right, with `cur` the
/// segment read so far.
pub open spec fn split_acc(s: Seq<char>, cur: Seq<char>) -> Seq<Seq<char>>
    decreases s.len(),
{
    if s.len() >= 2 && s[0] == '_' && s[1] == '_' {
        seq![cur] + split_acc(s.subrange(2, s.len() as int), Seq::empty())
    } else if s.len() == 0 {
        seq![cur]
    } else {
        split_acc(s.drop_first(), cur.push(s[0]))
    }
}

/// The segments of `s` split on the nesting delimiter `__`.
pub open spec fn split_path(s: Seq<char>) -> Seq<Seq<char>> {
    split_acc(s, Seq::empty())
}

/// A chain of one-entry dictionaries along `path`, ending in `leaf`.
pub open spec fn nest_path(path: Seq<Seq<char>>, leaf: Val) -> Val
    decreases path.len(),
{
    if path.len() == 0 {
        leaf
    } else {
        Val::Dict(seq![(path[0], nest_path(path.drop_first(), leaf))])
    }
}

/// The override tree a prefix scan of the environment produces: for each
/// variable whose name starts with `prefix`, in order, the rest of the name
/// is lowercased and split on `__` into a path, and the one-leaf tree binding
/// that path to the variable's value (a string) is merged in, later variables
/// over earlier ones.
pub open spec fn env_overrides(env: Seq<(Seq<char>, Seq<char>)>, prefix: Seq<char>) -> Val
    decreases env.len(),
{
    if env.len() == 0 {
        Val::Dict(Seq::empty())
    } else {
        let prev = env_overrides(env.drop_last(), prefix);
        let name = env.last().0;
        if starts_with(name, prefix) {
            let path = split_path(lower_seq(name.skip(prefix.len() as int)));
            merge_val(prev, nest_path(path, Val::Str(env.last().1)))
        } else {
            prev
        }
    }
}

/// Whether the characters of `s` start with those of `prefix`.
fn chars_start_with(s: &Vec<char>, prefix: &Vec<char>) -> (r: bool)
    ensures
        r == starts_with(s@, prefix@),
{
    if s.len() < prefix.len() {
        return false;
    }
    let mut i: usize = 0;
    while i < prefix.len()
        invariant
            i <= prefix@.len(),
            prefix@.len() <= s@.len(),
            forall|j: int| 0 <= j < i ==> s@[j] == prefix@[j],
        decreases prefix@.len() - i,
    {
        if s[i] != prefix[i] {
            assert(s@.subrange(0, prefix@.len() as int)[i as int] != prefix@[i as int]);
            return false;
        }
        i = i + 1;
    }
    assert(s@.subrange(0, prefix@.len() as int) =~= prefix@);
    true
}

/// The lowercased tail of `s` after the first `from` characters.
fn lower_tail(s: &Vec<char>, from: usize) -> (r: Vec<char>)
    requires
        from <= s@.len(),
    ensures
        r@ == lower_seq(s@.skip(from as int)),
{
    let mut out: Vec<char> = Vec::new();
    let mut i: usize = from;
    while i < s.len()
        invariant
            from <= i <= s@.len(),
            out@.len() == i - from,
            forall|j: int| 0 <= j < out@.len() ==> out@[j] == spec_lower_char(s@[from + j]),
        decreases s@.len() - i,
    {
        out.push(lower_char(s[i]));
        i = i + 1;
    }
    assert(out@ =~= lower_seq(s@.skip(from as int)));
    out
}

/// The segments of `s` split on `__`.
#[verifier::loop_isolation(false)]
fn split_segments(s: &Vec<char>) -> (r: Vec<Vec<char>>)
    ensures
        r@.map_values(|seg: Vec<char>| seg@) == split_path(s@),
{
    let mut done: Vec<Vec<char>> = Vec::new();
    let mut cur: Vec<char> = Vec::new();
    let mut i: usize = 0;
    proof {
        assert(s@.skip(0) =~= s@);
        assert(done@.map_values(|seg: Vec<char>| seg@) =~= Seq::<Seq<char>>::empty());
    }
    while i < s.len()
        invariant
            i <= s@.len(),
            split_path(s@) =~= done@.map_values(|seg: Vec<char>| seg@) + split_acc(
                s@.skip(i as int),
                cur@,
            ),
        decreases s@.len() - i,
    {
        let ghost prev_done = done@.map_values(|seg: Vec<char>| seg@);
        if i + 1 < s.len() && s[i] == '_' && s[i + 1] == '_' {
            done.push(cur);
            cur = Vec::new();
            proof {
                assert(s@.skip(i as int).subrange(2, s@.skip(i as int).len() as int) =~= s@.skip(
                    i + 2,
                ));
                assert(done@.map_values(|seg: Vec<char>| seg@) =~= prev_done.push(
                    done@.last()@,
                ));
            }
            i = i + 2;
        } else {
            proof {
                assert(s@.skip(i as int).drop_first() =~= s@.skip(i + 1));
                assert(s@.skip(i as int)[0] == s@[i as int]);
            }
            cur.push(s[i]);
            i = i + 1;
        }
    }
    proof {
        assert(s@.skip(s@.len() as int) =~= Seq::<char>::empty());
    }
    let ghost prev_done = done@.map_values(|seg: Vec<char>| seg@);
    done.push(cur);
    proof {
        assert(done@.map_values(|seg: Vec<char>| seg@) =~= prev_done.push(done@.last()@));
    }
    done
}

/// The nested one-leaf tree binding `path` to a string leaf.
#[verifier::loop_isolation(false)]
fn nest_value(path: &Vec<Vec<char>>, leaf: String) -> (r: ConfigValue)
    ensures
        r@ == nest_path(path@.map_values(|seg: Vec<char>| seg@), Val::Str(leaf@)),
{
    let ghost pm = path@.map_values(|seg: Vec<char>| seg@);
    let ghost leafm = Val::Str(leaf@);
    let mut v = ConfigValue::Str(leaf);
    let mut j: usize = path.len();
    while j > 0
        invariant
            j <= path@.len(),
            v@ == nest_path(pm.skip(j as int), leafm),
        decreases j,
    {
        j = j - 1;
        let key = chars_to_string(&path[j]);
        let mut entries: Vec<(String, ConfigValue)> = Vec::new();
        entries.push((key, v));
        v = ConfigValue::Dict(entries);
        proof {
            assert(pm.skip(j as int).drop_first() =~= pm.skip(j + 1));
            assert(pm.skip(j as int)[0] == pm[j as int]);
            assert(entries@.drop_first() =~= Seq::<(String, ConfigValue)>::empty());
            assert(crate::value::model_entries(Seq::<(String, ConfigValue)>::empty())
                =~= Seq::<(Seq<char>, Val)>::empty());
            assert(crate::value::model_entries(entries@) =~= seq![
                (pm[j as int], nest_path(pm.skip(j + 1), leafm)),
            ]);
        }
    }
    proof {
        assert(pm.skip(0) =~= pm);
    }
    v
}

/// Scan the environment snapshot for variables whose names start with
/// `prefix` and merge each into an override tree: the name's tail is
/// lowercased and split on `__` into a path of keys, the value becomes a
/// string leaf at that path, and later variables win over earlier ones.
pub fn env_provider(env: &EnvMap, prefix: &str) -> (r: ConfigValue)
    ensures
        r@ == env_overrides(env@, prefix@),
{
    let prefix_chars = str_to_chars(prefix);
    let mut acc = ConfigValue::Dict(Vec::new());
    let n = env.len();
    let mut k: usize = 0;
    proof {
        assert(env@.subrange(0, 0) =~= Seq::<(Seq<char>, Seq<char>)>::empty());
    }
    while k < n
        invariant
            k <= n,
            n == env@.len(),
            prefix_chars@ == prefix@,
            acc@ == env_overrides(env@.subrange(0, k as int), prefix@),
        decreases n - k,
    {
        let (name, value) = env.get_pair(k);
        let name_chars = str_to_chars(name.as_str());
        proof {
            assert(env@.subrange(0, k + 1).drop_last() =~= env@.subrange(0, k as int));
            assert(env@.subrange(0, k + 1).last() == env@[k as int]);
        }
        if chars_start_with(&name_chars, &prefix_chars) {
            let tail = lower_tail(&name_chars, prefix_chars.len());
            let segments = split_segments(&tail);
            let nested = nest_value(&segments, value);
            acc = deep_merge(&acc, &nested);
        }
        k = k + 1;
    }
    proof {
        assert(env@.subrange(0, n as int) =~= env@);
    }
    acc
}


/// A nested one-leaf tree is well-formed.
pub proof fn lemma_nest_path_wf(path: Seq<Seq<char>>, leaf: Val)
    requires
        crate::value::val_wf(leaf),
    ensures
        crate::value::val_wf(nest_path(path, leaf)),
    decreases path.len(),
{
    if path.len() > 0 {
        lemma_nest_path_wf(path.drop_first(), leaf);
    }
}

/// The override tree the environment produces is well-formed.
pub proof fn lemma_env_overrides_wf(env: Seq<(Seq<char>, Seq<char>)>, prefix: Seq<char>)
    ensures
        crate::value::val_wf(env_overrides(env, prefix)),
    decreases env.len(),
{
    if env.len() > 0 {
        lemma_env_overrides_wf(env.drop_last(), prefix);
        let name = env.last().0;
        if starts_with(name, prefix) {
            let path = split_path(lower_seq(name.skip(prefix.len() as int)));
            lemma_nest_path_wf(path, Val::Str(env.last().1));
            crate::merge::lemma_merge_wf(
                env_overrides(env.drop_last(), prefix),
                nest_path(path, Val::Str(env.last().1)),
            );
        }
    }
}

} // verus!
