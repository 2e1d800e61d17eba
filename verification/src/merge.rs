//! Deep merging of configuration trees: the higher-precedence tree wins per
//! leaf, and dictionaries are merged recursively by key rather than replaced.

use vstd::prelude::*;

use crate::value::dict_get;
use crate::value::keys_unique;
use crate::value::lemma_dict_find_get;
use crate::value::lemma_dict_find_none;
use crate::value::model_entries;
use crate::value::val_wf;
use crate::value::ConfigValue;
use crate::value::Val;

verus! {

broadcast use vstd::std_specs::vec::group_vec_axioms;

/// A value found by a dictionary lookup sits below the entry sequence in the
/// termination order.
proof fn lemma_dict_get_decreases(entries: Seq<(Seq<char>, Val)>, k: Seq<char>)
    ensures
        dict_get(entries, k) matches Some(v) ==> decreases_to!(entries => v),
    decreases entries.len(),
{
    if entries.len() > 0 {
        if entries[0].0 == k {
            assert(decreases_to!(entries => entries[0]));
            assert(decreases_to!(entries[0] => entries[0].1));
        } else {
            lemma_dict_get_decreases(entries.drop_first(), k);
            assert(decreases_to!(entries => entries.drop_first()));
        }
    }
}

/// What merging a lower-precedence `base` with a higher-precedence `over`
/// yields: two dictionaries merge recursively by key; in every other pairing
/// `over` replaces `base` outright.
pub open spec fn merge_val(base: Val, over: Val) -> Val
    decreases over, 2int, 0nat,
{
    match (base, over) {
        (Val::Dict(b), Val::Dict(o)) => Val::Dict(merge_entries(b, o)),
        _ => over,
    }
}

/// The entries of a merged dictionary: every key of `base` in its order,
/// merged with its override where one exists, followed by the keys only
/// `over` has, in their order.
pub open spec fn merge_entries(
    base: Seq<(Seq<char>, Val)>,
    over: Seq<(Seq<char>, Val)>,
) -> Seq<(Seq<char>, Val)>
    decreases over, 1int, 0nat,
{
    merged_part(base, over) + fresh_part(base, over)
}

/// The entries of `base`, each merged with the entry of `over` of the same
/// key where there is one.
pub open spec fn merged_part(
    base: Seq<(Seq<char>, Val)>,
    over: Seq<(Seq<char>, Val)>,
) -> Seq<(Seq<char>, Val)>
    decreases over, 0int, base.len(),
    via merged_part_decreases
{
    if base.len() == 0 {
        Seq::empty()
    } else {
        let head = match dict_get(over, base[0].0) {
            Some(ov) => (base[0].0, merge_val(base[0].1, ov)),
            None => base[0],
        };
        seq![head] + merged_part(base.drop_first(), over)
    }
}

#[via_fn]
proof fn merged_part_decreases(base: Seq<(Seq<char>, Val)>, over: Seq<(Seq<char>, Val)>) {
    if base.len() > 0 {
        lemma_dict_get_decreases(over, base[0].0);
    }
}

/// The entries of `over` whose keys do not occur in `base`, in their order.
pub open spec fn fresh_part(
    base: Seq<(Seq<char>, Val)>,
    over: Seq<(Seq<char>, Val)>,
) -> Seq<(Seq<char>, Val)>
    decreases over, 0int, 0nat,
{
    if over.len() == 0 {
        Seq::empty()
    } else if dict_get(base, over[0].0) is None {
        seq![over[0]] + fresh_part(base, over.drop_first())
    } else {
        fresh_part(base, over.drop_first())
    }
}

/// `merged_part` keeps the keys of `base` pointwise.
pub proof fn lemma_merged_part_index(base: Seq<(Seq<char>, Val)>, over: Seq<(Seq<char>, Val)>)
    ensures
        merged_part(base, over).len() == base.len(),
        forall|i: int|
            0 <= i < base.len() ==> #[trigger] merged_part(base, over)[i] == (match dict_get(
                over,
                base[i].0,
            ) {
                Some(ov) => (base[i].0, merge_val(base[i].1, ov)),
                None => base[i],
            }),
    decreases base.len(),
{
    if base.len() > 0 {
        lemma_merged_part_index(base.drop_first(), over);
    }
}

/// Looking a key up in a concatenation takes the first part's binding when
/// there is one.
pub proof fn lemma_dict_get_concat(
    a: Seq<(Seq<char>, Val)>,
    b: Seq<(Seq<char>, Val)>,
    k: Seq<char>,
)
    ensures
        dict_get(a + b, k) == (if dict_get(a, k) is Some {
            dict_get(a, k)
        } else {
            dict_get(b, k)
        }),
    decreases a.len(),
{
    if a.len() == 0 {
        assert(a + b =~= b);
    } else {
        lemma_dict_get_concat(a.drop_first(), b, k);
        assert((a + b).drop_first() =~= a.drop_first() + b);
    }
}

/// What a merged dictionary binds each key to: the merge of the two bindings
/// where both sides have the key, and the one binding where only one has it.
pub proof fn lemma_merge_entries_get(
    base: Seq<(Seq<char>, Val)>,
    over: Seq<(Seq<char>, Val)>,
    k: Seq<char>,
)
    ensures
        dict_get(merge_entries(base, over), k) == (match (dict_get(base, k), dict_get(over, k)) {
            (Some(bv), Some(ov)) => Some(merge_val(bv, ov)),
            (Some(bv), None) => Some(bv),
            (None, Some(ov)) => Some(ov),
            (None, None) => None::<Val>,
        }),
    decreases base.len() + over.len(),
{
    lemma_dict_get_concat(merged_part(base, over), fresh_part(base, over), k);
    lemma_merged_get(base, over, k);
    lemma_fresh_get(base, over, k);
}

/// `merged_part` binds exactly the keys of `base`.
proof fn lemma_merged_get(base: Seq<(Seq<char>, Val)>, over: Seq<(Seq<char>, Val)>, k: Seq<char>)
    ensures
        dict_get(merged_part(base, over), k) == (match dict_get(base, k) {
            Some(bv) => match dict_get(over, k) {
                Some(ov) => Some(merge_val(bv, ov)),
                None => Some(bv),
            },
            None => None::<Val>,
        }),
    decreases base.len(),
{
    if base.len() > 0 {
        lemma_merged_get(base.drop_first(), over, k);
        let head = match dict_get(over, base[0].0) {
            Some(ov) => (base[0].0, merge_val(base[0].1, ov)),
            None => base[0],
        };
        assert((seq![head] + merged_part(base.drop_first(), over)).drop_first() =~= merged_part(
            base.drop_first(),
            over,
        ));
    }
}

/// `fresh_part` binds exactly the keys of `over` that `base` lacks.
proof fn lemma_fresh_get(base: Seq<(Seq<char>, Val)>, over: Seq<(Seq<char>, Val)>, k: Seq<char>)
    ensures
        dict_get(fresh_part(base, over), k) == (if dict_get(base, k) is None {
            dict_get(over, k)
        } else {
            None::<Val>
        }),
    decreases over.len(),
{
    if over.len() > 0 {
        lemma_fresh_get(base, over.drop_first(), k);
        if dict_get(base, over[0].0) is None {
            assert((seq![over[0]] + fresh_part(base, over.drop_first())).drop_first() =~= fresh_part(
                base,
                over.drop_first(),
            ));
        }
    }
}

/// Merge two configuration values. Dictionaries merge recursively by key,
/// with `over` winning per leaf; any other pairing is replaced by `over`.
#[verifier::loop_isolation(false)]
pub fn deep_merge(base: &ConfigValue, over: &ConfigValue) -> (r: ConfigValue)
    ensures
        r@ == merge_val(base@, over@),
    decreases *over,
{
    match (base, over) {
        (ConfigValue::Dict(b), ConfigValue::Dict(o)) => {
            let ghost bm = model_entries(b@);
            let ghost om = model_entries(o@);
            proof {
                crate::value::lemma_model_entries_index(b@);
                crate::value::lemma_model_entries_index(o@);
                lemma_merged_part_index(bm, om);
            }
            let mut out: Vec<(String, ConfigValue)> = Vec::new();
            let mut i: usize = 0;
            while i < b.len()
                invariant
                    i <= b.len(),
                    out@.len() == i,
                    forall|j: int|
                        0 <= j < i ==> ((#[trigger] out@[j]).0@, out@[j].1@) == merged_part(bm, om)[j],
                decreases b.len() - i,
            {
                match crate::value::dict_find(o, &b[i].0) {
                    Some(idx) => {
                        proof {
                            lemma_dict_find_get(om, b@[i as int].0@, idx as int);
                        }
                        let merged = deep_merge(&b[i].1, &o[idx].1);
                        out.push((b[i].0.clone(), merged));
                    },
                    None => {
                        proof {
                            lemma_dict_find_none(om, b@[i as int].0@);
                        }
                        out.push((b[i].0.clone(), b[i].1.deep_copy()));
                    },
                }
                i = i + 1;
            }
            let ghost merged_len = b@.len() as int;
            let mut k: usize = 0;
            while k < o.len()
                invariant
                    k <= o.len(),
                    out@.len() == merged_len + fresh_part(bm, om.subrange(0, k as int)).len(),
                    forall|j: int|
                        0 <= j < merged_len ==> ((#[trigger] out@[j]).0@, out@[j].1@) == merged_part(
                            bm,
                            om,
                        )[j],
                    forall|j: int|
                        merged_len <= j < out@.len() ==> ((#[trigger] out@[j]).0@, out@[j].1@)
                            == fresh_part(bm, om.subrange(0, k as int))[j - merged_len],
                decreases o.len() - k,
            {
                let ghost prev = fresh_part(bm, om.subrange(0, k as int));
                match crate::value::dict_find(b, &o[k].0) {
                    Some(idx) => {
                        proof {
                            assert(bm[idx as int].0 == om[k as int].0);
                            lemma_key_present_get_some(bm, om[k as int].0);
                            assert(dict_get(bm, om[k as int].0) is Some);
                        }
                    },
                    None => {
                        proof {
                            lemma_dict_find_none(bm, o@[k as int].0@);
                        }
                        out.push((o[k].0.clone(), o[k].1.deep_copy()));
                    },
                }
                proof {
                    lemma_fresh_part_snoc(bm, om, k as int);
                }
                k = k + 1;
            }
            proof {
                assert(om.subrange(0, om.len() as int) =~= om);
                crate::value::lemma_model_entries_index(out@);
                assert(model_entries(out@) =~= merged_part(bm, om) + fresh_part(bm, om));
            }
            ConfigValue::Dict(out)
        },
        _ => over.deep_copy(),
    }
}

/// Finding a key implies the first occurrence exists.
proof fn lemma_key_present_get_some(entries: Seq<(Seq<char>, Val)>, k: Seq<char>)
    ensures
        (exists|i: int| 0 <= i < entries.len() && (#[trigger] entries[i]).0 == k) ==> dict_get(
            entries,
            k,
        ) is Some,
    decreases entries.len(),
{
    if entries.len() > 0 {
        lemma_key_present_get_some(entries.drop_first(), k);
        if exists|i: int| 0 <= i < entries.len() && (#[trigger] entries[i]).0 == k {
            let i = choose|i: int| 0 <= i < entries.len() && (#[trigger] entries[i]).0 == k;
            if i > 0 {
                assert(entries.drop_first()[i - 1].0 == k);
            }
        }
    }
}

/// Extending the scanned prefix of `over` by one entry extends its fresh part
/// by that entry exactly when `base` lacks its key.
proof fn lemma_fresh_part_snoc(
    base: Seq<(Seq<char>, Val)>,
    over: Seq<(Seq<char>, Val)>,
    k: int,
)
    requires
        0 <= k < over.len(),
    ensures
        fresh_part(base, over.subrange(0, k + 1)) == (if dict_get(base, over[k].0) is None {
            fresh_part(base, over.subrange(0, k)).push(over[k])
        } else {
            fresh_part(base, over.subrange(0, k))
        }),
{
    lemma_fresh_part_snoc_general(base, over.subrange(0, k + 1));
    assert(over.subrange(0, k + 1).drop_last() =~= over.subrange(0, k));
    assert(over.subrange(0, k + 1).last() == over[k]);
}

/// The value at a path of dictionary keys, if the path leads to one.
pub open spec fn get_path(v: Val, path: Seq<Seq<char>>) -> Option<Val>
    decreases path.len(),
{
    if path.len() == 0 {
        Some(v)
    } else {
        match v {
            Val::Dict(entries) => match dict_get(entries, path[0]) {
                Some(child) => get_path(child, path.drop_first()),
                None => None,
            },
            _ => None,
        }
    }
}

/// Precedence: a key path that the higher-precedence tree binds to a
/// non-dictionary value resolves, after the merge, to that value — never to
/// the lower-precedence one.
pub proof fn lemma_merge_precedence(base: Val, over: Val, path: Seq<Seq<char>>)
    requires
        get_path(over, path) matches Some(x) && !(x is Dict),
    ensures
        get_path(merge_val(base, over), path) == get_path(over, path),
    decreases path.len(),
{
    if path.len() > 0 {
        match (base, over) {
            (Val::Dict(be), Val::Dict(oe)) => {
                lemma_merge_entries_get(be, oe, path[0]);
                let oc = dict_get(oe, path[0])->Some_0;
                match dict_get(be, path[0]) {
                    Some(bc) => {
                        lemma_merge_precedence(bc, oc, path.drop_first());
                    },
                    None => {},
                }
            },
            _ => {},
        }
    }
}

/// Deep merge: a key path that the higher-precedence tree does not bind —
/// every proper prefix of it leading to a dictionary or to nothing — keeps,
/// after the merge, exactly the lower-precedence tree's value. In particular
/// overriding one field of a section never erases its siblings.
pub proof fn lemma_merge_keeps_base(base: Val, over: Val, path: Seq<Seq<char>>)
    requires
        path.len() > 0,
        forall|n: int|
            0 <= n < path.len() ==> match #[trigger] get_path(over, path.subrange(0, n)) {
                Some(d) => d is Dict,
                None => true,
            },
        get_path(over, path) is None,
    ensures
        get_path(merge_val(base, over), path) == get_path(base, path),
    decreases path.len(),
{
    assert(path.subrange(0, 0) =~= Seq::<Seq<char>>::empty());
    assert(get_path(over, path.subrange(0, 0)) == Some(over));
    let oe = over->Dict_0;
    let k = path[0];
    let rest = path.drop_first();
    match base {
        Val::Dict(be) => {
            lemma_merge_entries_get(be, oe, k);
            match dict_get(oe, k) {
                Some(ov) => {
                    assert(get_path(over, path) == get_path(ov, rest));
                    if rest.len() == 0 {
                        assert(get_path(ov, rest) == Some(ov));
                    } else {
                        assert forall|n: int| 0 <= n < rest.len() implies match #[trigger]
                            get_path(ov, rest.subrange(0, n)) {
                            Some(d) => d is Dict,
                            None => true,
                        } by {
                            assert(path.subrange(0, n + 1).drop_first() =~= rest.subrange(0, n));
                            assert(path.subrange(0, n + 1)[0] == k);
                            assert(get_path(over, path.subrange(0, n + 1)) == get_path(
                                ov,
                                rest.subrange(0, n),
                            ));
                        }
                        match dict_get(be, k) {
                            Some(bv) => {
                                lemma_merge_keeps_base(bv, ov, rest);
                            },
                            None => {},
                        }
                    }
                },
                None => {},
            }
        },
        _ => {
            if get_path(base, path) is Some {
                assert(base is Dict);
            }
        },
    }
}

/// Merging well-formed trees yields a well-formed tree: every dictionary of
/// the result still has distinct keys.
pub proof fn lemma_merge_wf(base: Val, over: Val)
    requires
        val_wf(base),
        val_wf(over),
    ensures
        val_wf(merge_val(base, over)),
    decreases over, 3int, 0nat,
{
    match (base, over) {
        (Val::Dict(be), Val::Dict(oe)) => {
            lemma_merged_part_index(be, oe);
            lemma_fresh_part_keys(be, oe);
            let m = merged_part(be, oe);
            let f = fresh_part(be, oe);
            let all = m + f;
            assert forall|i: int, j: int| 0 <= i < j < all.len() implies (#[trigger] all[i]).0 != (
            #[trigger] all[j]).0 by {
                if i < m.len() && j >= m.len() {
                    assert(all[j] == f[j - m.len()]);
                    assert(dict_get(be, f[j - m.len()].0) is None);
                    crate::value::lemma_dict_get_some(be, f[j - m.len()].0);
                    assert(be[i].0 == all[i].0);
                }
            }
            assert(keys_unique(all));
            assert forall|i: int| 0 <= i < all.len() implies val_wf((#[trigger] all[i]).1) by {
                if i < m.len() {
                    match dict_get(oe, be[i].0) {
                        Some(ov) => {
                            lemma_dict_get_wf(oe, be[i].0);
                            lemma_merge_wf(be[i].1, ov);
                        },
                        None => {},
                    }
                } else {
                    let j = choose|j: int|
                        0 <= j < oe.len() && f[i - m.len()] == #[trigger] oe[j];
                    assert(val_wf(oe[j].1));
                }
            }
        },
        _ => {},
    }
}

/// A value found in a well-formed dictionary is itself well-formed, and sits
/// below the entries in the termination order.
proof fn lemma_dict_get_wf(entries: Seq<(Seq<char>, Val)>, k: Seq<char>)
    requires
        forall|i: int| 0 <= i < entries.len() ==> val_wf((#[trigger] entries[i]).1),
    ensures
        dict_get(entries, k) matches Some(v) ==> val_wf(v) && decreases_to!(entries => v),
{
    lemma_dict_get_decreases(entries, k);
    crate::value::lemma_dict_get_some(entries, k);
}

/// Every fresh entry is an entry of `over` whose key `base` lacks, and the
/// fresh entries keep distinct keys when `over` has them.
proof fn lemma_fresh_part_keys(base: Seq<(Seq<char>, Val)>, over: Seq<(Seq<char>, Val)>)
    ensures
        forall|i: int|
            0 <= i < fresh_part(base, over).len() ==> (exists|j: int|
                0 <= j < over.len() && #[trigger] fresh_part(base, over)[i] == #[trigger] over[j])
                && dict_get(base, fresh_part(base, over)[i].0) is None,
        keys_unique(over) ==> keys_unique(fresh_part(base, over)),
    decreases over.len(),
{
    if over.len() > 0 {
        lemma_fresh_part_keys(base, over.drop_first());
        let rest = fresh_part(base, over.drop_first());
        assert forall|i: int| 0 <= i < rest.len() implies (exists|j: int|
            0 <= j < over.len() && #[trigger] rest[i] == #[trigger] over[j]) && dict_get(
            base,
            rest[i].0,
        ) is None by {
            let j = choose|j: int|
                0 <= j < over.drop_first().len() && rest[i] == #[trigger] over.drop_first()[j];
            assert(over.drop_first()[j] == over[j + 1]);
        }
        if dict_get(base, over[0].0) is None {
            let f = fresh_part(base, over);
            assert(f =~= seq![over[0]] + rest);
            assert forall|i: int| 0 <= i < f.len() implies (exists|j: int|
                0 <= j < over.len() && #[trigger] f[i] == #[trigger] over[j]) && dict_get(
                base,
                f[i].0,
            ) is None by {
                if i == 0 {
                    assert(f[0] == over[0]);
                } else {
                    assert(f[i] == rest[i - 1]);
                }
            }
            if keys_unique(over) {
                assert forall|i: int, j: int| 0 <= i < j < f.len() implies (#[trigger] f[i]).0 != (
                #[trigger] f[j]).0 by {
                    if i == 0 {
                        let j2 = choose|j2: int|
                            0 <= j2 < over.drop_first().len() && rest[j - 1] == #[trigger] over.drop_first()[j2];
                        assert(over.drop_first()[j2] == over[j2 + 1]);
                        assert(f[j] == over[j2 + 1]);
                        assert(over[0].0 != over[j2 + 1].0);
                    } else {
                        assert(f[i] == rest[i - 1] && f[j] == rest[j - 1]);
                    }
                }
            }
        }
    }
}

/// Splitting the last entry off the fresh-part computation.
proof fn lemma_fresh_part_snoc_general(base: Seq<(Seq<char>, Val)>, over: Seq<(Seq<char>, Val)>)
    requires
        over.len() > 0,
    ensures
        fresh_part(base, over) == (if dict_get(base, over.last().0) is None {
            fresh_part(base, over.drop_last()).push(over.last())
        } else {
            fresh_part(base, over.drop_last())
        }),
    decreases over.len(),
{
    if over.len() == 1 {
        assert(over.drop_first() =~= Seq::empty());
        assert(over.drop_last() =~= Seq::empty());
        if dict_get(base, over[0].0) is None {
            assert(fresh_part(base, over) =~= fresh_part(base, over.drop_last()).push(over.last()));
        }
    } else {
        lemma_fresh_part_snoc_general(base, over.drop_first());
        assert(over.drop_first().drop_last() =~= over.drop_last().drop_first());
        assert(over.drop_first().last() == over.last());
        assert(over.drop_last()[0] == over[0]);
        if dict_get(base, over[0].0) is None {
            if dict_get(base, over.last().0) is None {
                assert(fresh_part(base, over) =~= fresh_part(base, over.drop_last()).push(
                    over.last(),
                ));
            } else {
                assert(fresh_part(base, over) =~= fresh_part(base, over.drop_last()));
            }
        } else {
            if dict_get(base, over.last().0) is None {
                assert(fresh_part(base, over) =~= fresh_part(base, over.drop_last()).push(
                    over.last(),
                ));
            } else {
                assert(fresh_part(base, over) =~= fresh_part(base, over.drop_last()));
            }
        }
    }
}


/// Merging an empty higher-precedence layer over a dictionary changes
/// nothing: with no file and no overrides, seeded defaults pass through the
/// merge untouched.
pub proof fn lemma_merge_empty_over(base: Seq<(Seq<char>, Val)>)
    ensures
        merge_val(Val::Dict(base), Val::Dict(Seq::empty())) == Val::Dict(base),
    decreases base.len(),
{
    lemma_merged_part_index(base, Seq::empty());
    assert(merged_part(base, Seq::empty()) =~= base);
    assert(merge_entries(base, Seq::empty()) =~= base);
}

/// Merging over an empty lower-precedence layer keeps exactly the
/// higher-precedence entries.
pub proof fn lemma_merge_empty_base(over: Seq<(Seq<char>, Val)>)
    ensures
        merge_val(Val::Dict(Seq::empty()), Val::Dict(over)) == Val::Dict(over),
    decreases over.len(),
{
    if over.len() > 0 {
        lemma_merge_empty_base(over.drop_first());
        assert(fresh_part(Seq::empty(), over) =~= over) by {
            assert(merge_entries(Seq::<(Seq<char>, Val)>::empty(), over.drop_first())
                =~= over.drop_first());
            assert(merged_part(Seq::<(Seq<char>, Val)>::empty(), over.drop_first())
                =~= Seq::<(Seq<char>, Val)>::empty());
            assert(fresh_part(Seq::<(Seq<char>, Val)>::empty(), over.drop_first())
                =~= over.drop_first());
        }
        assert(merge_entries(Seq::empty(), over) =~= over);
    } else {
        assert(merge_entries(Seq::<(Seq<char>, Val)>::empty(), over) =~= over);
    }
}

} // verus!
