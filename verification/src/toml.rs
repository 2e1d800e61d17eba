//! A verified parser for the structured configuration file format: a
//! line-oriented TOML subset.
//!
//! Supported lines, after optional leading whitespace:
//! - blank lines and `#` comment lines;
//! - section headers `[a.b.c]` of bare keys joined by dots;
//! - assignments `key = value` with a bare key and a scalar or array value.
//!
//! Values are basic strings without escapes (`"..."`), booleans, integers,
//! floats (kept as literal text), and single-line arrays of scalars. A `#`
//! comment may follow a header or an assignment. Carriage returns count as
//! whitespace, so files with `\r\n` line ends parse the same.
//!
//! Re-opening a section is allowed; assigning the same key twice, or
//! assigning through a key that already holds a non-dictionary, is an error.

use vstd::prelude::*;

use crate::value::dict_get;
use crate::value::model_entries;
use crate::value::ConfigValue;
use crate::value::Val;

verus! {

/// Whitespace inside a line: space, tab, and carriage return.
pub open spec fn is_ws(c: char) -> bool {
    c == ' ' || c == '\t' || c == '\r'
}

/// Characters allowed in bare keys: ASCII letters, digits, `_` and `-`.
pub open spec fn is_bare_char(c: char) -> bool {
    ('a' <= c && c <= 'z') || ('A' <= c && c <= 'Z') || ('0' <= c && c <= '9') || c == '_' || c
        == '-'
}

/// An ASCII digit.
pub open spec fn is_digit(c: char) -> bool {
    '0' <= c && c <= '9'
}

/// The numeric value of an ASCII digit.
pub open spec fn digit_val(c: char) -> int {
    c as int - '0' as int
}

/// The first position at or after `i` holding a non-whitespace character,
/// or the length when only whitespace remains.
pub open spec fn skip_ws(s: Seq<char>, i: int) -> int
    decreases s.len() - i,
{
    if i < 0 || i >= s.len() {
        i
    } else if is_ws(s[i]) {
        skip_ws(s, i + 1)
    } else {
        i
    }
}

/// The end of the run of bare-key characters starting at `i`.
pub open spec fn scan_bare(s: Seq<char>, i: int) -> int
    decreases s.len() - i,
{
    if i < 0 || i >= s.len() {
        i
    } else if is_bare_char(s[i]) {
        scan_bare(s, i + 1)
    } else {
        i
    }
}

/// The end of the run of digits starting at `i`.
pub open spec fn scan_digits(s: Seq<char>, i: int) -> int
    decreases s.len() - i,
{
    if i < 0 || i >= s.len() {
        i
    } else if is_digit(s[i]) {
        scan_digits(s, i + 1)
    } else {
        i
    }
}

/// The first position at or after `i` holding character `c`, if any.
pub open spec fn find_char(s: Seq<char>, i: int, c: char) -> Option<int>
    decreases s.len() - i,
{
    if i < 0 || i >= s.len() {
        None
    } else if s[i] == c {
        Some(i)
    } else {
        find_char(s, i + 1, c)
    }
}

/// `skip_ws` stays in range and skips only whitespace.
pub proof fn lemma_skip_ws(s: Seq<char>, i: int)
    requires
        0 <= i <= s.len(),
    ensures
        i <= skip_ws(s, i) <= s.len(),
        skip_ws(s, i) < s.len() ==> !is_ws(s[skip_ws(s, i)]),
    decreases s.len() - i,
{
    if i < s.len() && is_ws(s[i]) {
        lemma_skip_ws(s, i + 1);
    }
}

/// `scan_bare` stays in range.
pub proof fn lemma_scan_bare(s: Seq<char>, i: int)
    requires
        0 <= i <= s.len(),
    ensures
        i <= scan_bare(s, i) <= s.len(),
    decreases s.len() - i,
{
    if i < s.len() && is_bare_char(s[i]) {
        lemma_scan_bare(s, i + 1);
    }
}

/// `scan_digits` stays in range.
pub proof fn lemma_scan_digits(s: Seq<char>, i: int)
    requires
        0 <= i <= s.len(),
    ensures
        i <= scan_digits(s, i) <= s.len(),
    decreases s.len() - i,
{
    if i < s.len() && is_digit(s[i]) {
        lemma_scan_digits(s, i + 1);
    }
}

/// A found character lies in range, at or after the start.
pub proof fn lemma_find_char(s: Seq<char>, i: int, c: char)
    requires
        0 <= i,
    ensures
        find_char(s, i, c) matches Some(j) ==> i <= j < s.len() && s[j] == c,
    decreases s.len() - i,
{
    if 0 <= i < s.len() && s[i] != c {
        lemma_find_char(s, i + 1, c);
    }
}

/// The number a sequence of ASCII digits denotes, most significant first.
pub open spec fn digits_int(ds: Seq<char>) -> int
    decreases ds.len(),
{
    if ds.len() == 0 {
        0
    } else {
        digits_int(ds.drop_last()) * 10 + digit_val(ds.last())
    }
}

/// A digit run denotes a number that never shrinks as the run grows.
pub proof fn lemma_digits_int_nonneg(ds: Seq<char>)
    requires
        forall|t: int| 0 <= t < ds.len() ==> is_digit(#[trigger] ds[t]),
    ensures
        digits_int(ds) >= 0,
        ds.len() > 0 ==> digits_int(ds) >= digits_int(ds.drop_last()),
    decreases ds.len(),
{
    if ds.len() > 0 {
        lemma_digits_int_nonneg(ds.drop_last());
    }
}

/// Once a digit-run prefix denotes more than a bound, the whole run does.
pub proof fn lemma_digits_int_grows(s: Seq<char>, j0: int, t: int, j: int, bound: int)
    requires
        0 <= j0 <= t <= j <= s.len(),
        forall|x: int| j0 <= x < j ==> is_digit(#[trigger] s[x]),
        digits_int(s.subrange(j0, t)) > bound,
        bound >= 0,
    ensures
        digits_int(s.subrange(j0, j)) > bound,
    decreases j - t,
{
    if t < j {
        let cur = s.subrange(j0, t + 1);
        assert(cur.drop_last() =~= s.subrange(j0, t));
        assert(forall|x: int| 0 <= x < cur.len() ==> is_digit(#[trigger] cur[x]));
        lemma_digits_int_nonneg(cur);
        lemma_digits_int_grows(s, j0, t + 1, j, bound);
    } else {
        assert(s.subrange(j0, t) =~= s.subrange(j0, j));
    }
}

/// What a scalar value starting at position `i` parses to, with the position
/// after it: a basic string, a boolean literal, an integer that fits a signed
/// 64-bit value, or a float kept as its text.
pub open spec fn parse_scalar(s: Seq<char>, i: int) -> Option<(Val, int)> {
    if i < 0 || i >= s.len() {
        None
    } else if s[i] == '"' {
        match find_char(s, i + 1, '"') {
            Some(j) => Some((Val::Str(s.subrange(i + 1, j)), j + 1)),
            None => None,
        }
    } else if i + 4 <= s.len() && s.subrange(i, i + 4) == seq!['t', 'r', 'u', 'e'] {
        Some((Val::Bool(true), i + 4))
    } else if i + 5 <= s.len() && s.subrange(i, i + 5) == seq!['f', 'a', 'l', 's', 'e'] {
        Some((Val::Bool(false), i + 5))
    } else if s[i] == '-' || is_digit(s[i]) {
        let j0 = if s[i] == '-' {
            i + 1
        } else {
            i
        };
        let j = scan_digits(s, j0);
        if j == j0 {
            None
        } else if j < s.len() && s[j] == '.' {
            let k = scan_digits(s, j + 1);
            if k == j + 1 {
                None
            } else {
                Some((Val::Float(s.subrange(i, k)), k))
            }
        } else {
            let n = digits_int(s.subrange(j0, j));
            if s[i] == '-' {
                if n <= 0x8000_0000_0000_0000 {
                    Some((Val::Int((-n) as i64), j))
                } else {
                    None
                }
            } else {
                if n <= 0x7fff_ffff_ffff_ffff {
                    Some((Val::Int(n as i64), j))
                } else {
                    None
                }
            }
        }
    } else {
        None
    }
}

/// A parsed scalar always moves the position forward and stays in range.
pub proof fn lemma_parse_scalar_advances(s: Seq<char>, i: int)
    ensures
        parse_scalar(s, i) matches Some(p) ==> i < p.1 <= s.len(),
{
    if 0 <= i < s.len() {
        if s[i] == '"' {
            lemma_find_char(s, i + 1, '"');
        } else if s[i] == '-' || is_digit(s[i]) {
            let j0 = if s[i] == '-' {
                i + 1
            } else {
                i
            };
            if j0 <= s.len() {
                lemma_scan_digits(s, j0);
                let j = scan_digits(s, j0);
                if j < s.len() && s[j] == '.' {
                    lemma_scan_digits(s, j + 1);
                }
            }
        }
    }
}

/// Executable `skip_ws`.
fn do_skip_ws(s: &Vec<char>, i: usize) -> (r: usize)
    requires
        i <= s@.len(),
    ensures
        r == skip_ws(s@, i as int),
        i <= r <= s@.len(),
{
    let mut j = i;
    while j < s.len() && (s[j] == ' ' || s[j] == '\t' || s[j] == '\r')
        invariant
            i <= j <= s@.len(),
            skip_ws(s@, i as int) == skip_ws(s@, j as int),
        decreases s@.len() - j,
    {
        j = j + 1;
    }
    proof {
        lemma_skip_ws(s@, j as int);
    }
    j
}

/// Whether `c` is a bare-key character, executably.
fn bare_char(c: char) -> (r: bool)
    ensures
        r == is_bare_char(c),
{
    (c >= 'a' && c <= 'z') || (c >= 'A' && c <= 'Z') || (c >= '0' && c <= '9') || c == '_' || c
        == '-'
}

/// Executable `scan_bare`.
fn do_scan_bare(s: &Vec<char>, i: usize) -> (r: usize)
    requires
        i <= s@.len(),
    ensures
        r == scan_bare(s@, i as int),
        i <= r <= s@.len(),
{
    let mut j = i;
    while j < s.len() && bare_char(s[j])
        invariant
            i <= j <= s@.len(),
            scan_bare(s@, i as int) == scan_bare(s@, j as int),
        decreases s@.len() - j,
    {
        j = j + 1;
    }
    j
}

/// Executable `scan_digits`.
fn do_scan_digits(s: &Vec<char>, i: usize) -> (r: usize)
    requires
        i <= s@.len(),
    ensures
        r == scan_digits(s@, i as int),
        i <= r <= s@.len(),
{
    let mut j = i;
    while j < s.len() && s[j] >= '0' && s[j] <= '9'
        invariant
            i <= j <= s@.len(),
            scan_digits(s@, i as int) == scan_digits(s@, j as int),
        decreases s@.len() - j,
    {
        j = j + 1;
    }
    j
}

/// The characters of `s` between `from` and `to`, as a vector.
fn chars_sub(s: &Vec<char>, from: usize, to: usize) -> (r: Vec<char>)
    requires
        from <= to <= s@.len(),
    ensures
        r@ == s@.subrange(from as int, to as int),
{
    let mut out: Vec<char> = Vec::new();
    let mut i = from;
    while i < to
        invariant
            from <= i <= to <= s@.len(),
            out@ =~= s@.subrange(from as int, i as int),
        decreases to - i,
    {
        out.push(s[i]);
        i = i + 1;
    }
    assert(out@ =~= s@.subrange(from as int, to as int));
    out
}

/// The characters of `s` between `from` and `to`, as a string.
fn chars_sub_string(s: &Vec<char>, from: usize, to: usize) -> (r: String)
    requires
        from <= to <= s@.len(),
    ensures
        r@ == s@.subrange(from as int, to as int),
{
    let v = chars_sub(s, from, to);
    crate::strutil::chars_to_string(&v)
}

/// Executable `find_char`.
fn do_find_char(s: &Vec<char>, i: usize, c: char) -> (r: Option<usize>)
    requires
        i <= s@.len(),
    ensures
        match r {
            Some(j) => find_char(s@, i as int, c) == Some(j as int) && i <= j < s@.len(),
            None => find_char(s@, i as int, c) is None,
        },
{
    let mut j = i;
    while j < s.len()
        invariant
            i <= j <= s@.len(),
            find_char(s@, i as int, c) == find_char(s@, j as int, c),
        decreases s@.len() - j,
    {
        if s[j] == c {
            return Some(j);
        }
        j = j + 1;
    }
    None
}


/// Parses the digit run `[j0, j)` of `s` into an unsigned value, or reports
/// that it denotes more than `2^63`.
fn digits_to_u64(s: &Vec<char>, j0: usize, j: usize) -> (r: Option<u64>)
    requires
        j0 <= j <= s@.len(),
        forall|x: int| j0 <= x < j ==> is_digit(#[trigger] s@[x]),
    ensures
        match r {
            Some(n) => n == digits_int(s@.subrange(j0 as int, j as int))
                && n <= 0x8000_0000_0000_0000u64,
            None => digits_int(s@.subrange(j0 as int, j as int)) > 0x8000_0000_0000_0000,
        },
{
    let mut acc: u64 = 0;
    let mut t = j0;
    proof {
        assert(s@.subrange(j0 as int, j0 as int) =~= Seq::<char>::empty());
    }
    while t < j
        invariant
            j0 <= t <= j <= s@.len(),
            forall|x: int| j0 <= x < j ==> is_digit(#[trigger] s@[x]),
            acc == digits_int(s@.subrange(j0 as int, t as int)),
            acc <= 0x8000_0000_0000_0000u64,
        decreases j - t,
    {
        let c = s[t];
        assert(is_digit(c));
        let d: u64 = (c as u8 - 48) as u64;
        assert(d == digit_val(c) && d <= 9);
        let ghost cur = s@.subrange(j0 as int, t + 1);
        proof {
            assert(cur.drop_last() =~= s@.subrange(j0 as int, t as int));
            assert(digits_int(cur) == acc * 10 + d);
        }
        if acc > 0x0CCC_CCCC_CCCC_CCCCu64 {
            proof {
                lemma_digits_int_grows(s@, j0 as int, t + 1, j as int, 0x8000_0000_0000_0000);
            }
            return None;
        }
        let acc2 = acc * 10 + d;
        if acc2 > 0x8000_0000_0000_0000u64 {
            proof {
                lemma_digits_int_grows(s@, j0 as int, t + 1, j as int, 0x8000_0000_0000_0000);
            }
            return None;
        }
        acc = acc2;
        t = t + 1;
    }
    Some(acc)
}

/// Executable `parse_scalar`, producing the configuration value and the
/// position after it.
pub(crate) fn scan_scalar(s: &Vec<char>, i: usize) -> (r: Option<(ConfigValue, usize)>)
    requires
        i <= s@.len(),
    ensures
        match r {
            Some(p) => parse_scalar(s@, i as int) == Some((p.0@, p.1 as int)) && i < p.1
                <= s@.len(),
            None => parse_scalar(s@, i as int) is None,
        },
{
    proof {
        lemma_parse_scalar_advances(s@, i as int);
    }
    if i >= s.len() {
        return None;
    }
    let c = s[i];
    if c == '"' {
        match do_find_char(s, i + 1, '"') {
            Some(j) => {
                let text = chars_sub_string(s, i + 1, j);
                Some((ConfigValue::Str(text), j + 1))
            },
            None => None,
        }
    } else if c == 't' || c == 'f' {
        if c == 't' && s.len() - i >= 4 && s[i + 1] == 'r' && s[i + 2] == 'u' && s[i + 3] == 'e' {
            proof {
                assert(s@.subrange(i as int, i + 4) =~= seq!['t', 'r', 'u', 'e']);
            }
            Some((ConfigValue::Bool(true), i + 4))
        } else if c == 'f' && s.len() - i >= 5 && s[i + 1] == 'a' && s[i + 2] == 'l' && s[i + 3]
            == 's' && s[i + 4] == 'e' {
            proof {
                assert(s@.subrange(i as int, i + 5) =~= seq!['f', 'a', 'l', 's', 'e']);
            }
            Some((ConfigValue::Bool(false), i + 5))
        } else {
            proof {
                if i + 4 <= s@.len() && s@.subrange(i as int, i + 4) == seq!['t', 'r', 'u', 'e'] {
                    assert(s@[i as int] == 't' && s@[i + 1] == 'r' && s@[i + 2] == 'u' && s@[i + 3]
                        == 'e');
                }
                if i + 5 <= s@.len() && s@.subrange(i as int, i + 5) == seq!['f', 'a', 'l', 's', 'e'] {
                    assert(s@[i as int] == 'f' && s@[i + 1] == 'a' && s@[i + 2] == 'l' && s@[i + 3]
                        == 's' && s@[i + 4] == 'e');
                }
            }
            None
        }
    } else if c == '-' || (c >= '0' && c <= '9') {
        let j0 = if c == '-' {
            i + 1
        } else {
            i
        };
        let j = do_scan_digits(s, j0);
        proof {
            lemma_scan_digits_all(s@, j0 as int);
        }
        if j == j0 {
            None
        } else if j < s.len() && s[j] == '.' {
            let k = do_scan_digits(s, j + 1);
            if k == j + 1 {
                None
            } else {
                let text = chars_sub_string(s, i, k);
                Some((ConfigValue::Float(text), k))
            }
        } else {
            match digits_to_u64(s, j0, j) {
                Some(n) => {
                    if c == '-' {
                        let value: i64 = if n == 0x8000_0000_0000_0000u64 {
                            i64::MIN
                        } else {
                            -(n as i64)
                        };
                        Some((ConfigValue::Int(value), j))
                    } else {
                        if n > 0x7fff_ffff_ffff_ffffu64 {
                            None
                        } else {
                            Some((ConfigValue::Int(n as i64), j))
                        }
                    }
                },
                None => None,
            }
        }
    } else {
        proof {
            if i + 4 <= s@.len() && s@.subrange(i as int, i + 4) == seq!['t', 'r', 'u', 'e'] {
                assert(s@[i as int] == 't');
            }
            if i + 5 <= s@.len() && s@.subrange(i as int, i + 5) == seq!['f', 'a', 'l', 's', 'e'] {
                assert(s@[i as int] == 'f');
            }
        }
        None
    }
}

/// Every character a digit scan passes over is a digit.
proof fn lemma_scan_digits_all(s: Seq<char>, i: int)
    requires
        0 <= i <= s.len(),
    ensures
        forall|x: int| i <= x < scan_digits(s, i) ==> is_digit(#[trigger] s[x]),
    decreases s.len() - i,
{
    if i < s.len() && is_digit(s[i]) {
        lemma_scan_digits_all(s, i + 1);
    }
}


/// The scalars of an array body from position `i` on (after any leading
/// whitespace), with the position after the closing bracket.
pub open spec fn parse_items(s: Seq<char>, i: int) -> Option<(Seq<Val>, int)>
    decreases s.len() - i,
    via parse_items_decreases
{
    match parse_scalar(s, i) {
        Some((v, j)) => {
            let k = skip_ws(s, j);
            if k < s.len() && s[k] == ',' {
                let m = skip_ws(s, k + 1);
                match parse_items(s, m) {
                    Some((rest, e)) => Some((seq![v] + rest, e)),
                    None => None,
                }
            } else if k < s.len() && s[k] == ']' {
                Some((seq![v], k + 1))
            } else {
                None
            }
        },
        None => None,
    }
}

#[via_fn]
proof fn parse_items_decreases(s: Seq<char>, i: int) {
    lemma_parse_scalar_advances(s, i);
    match parse_scalar(s, i) {
        Some((v, j)) => {
            lemma_skip_ws(s, j);
            let k = skip_ws(s, j);
            if k < s.len() && s[k] == ',' {
                lemma_skip_ws(s, k + 1);
            }
        },
        None => {},
    }
}

/// Parsed array items end in range, after the start.
pub proof fn lemma_parse_items_advances(s: Seq<char>, i: int)
    ensures
        parse_items(s, i) matches Some(p) ==> i < p.1 <= s.len(),
    decreases s.len() - i,
{
    lemma_parse_scalar_advances(s, i);
    match parse_scalar(s, i) {
        Some((v, j)) => {
            lemma_skip_ws(s, j);
            let k = skip_ws(s, j);
            if k < s.len() && s[k] == ',' {
                lemma_skip_ws(s, k + 1);
                let m = skip_ws(s, k + 1);
                lemma_parse_items_advances(s, m);
            }
        },
        None => {},
    }
}

/// What a value starting at position `i` parses to: an array of scalars
/// between brackets, or one scalar.
pub open spec fn parse_value(s: Seq<char>, i: int) -> Option<(Val, int)> {
    if 0 <= i < s.len() && s[i] == '[' {
        let j = skip_ws(s, i + 1);
        if j < s.len() && s[j] == ']' {
            Some((Val::Array(Seq::empty()), j + 1))
        } else {
            match parse_items(s, j) {
                Some((items, e)) => Some((Val::Array(items), e)),
                None => None,
            }
        }
    } else {
        parse_scalar(s, i)
    }
}

/// A parsed value ends in range, after the start.
pub proof fn lemma_parse_value_advances(s: Seq<char>, i: int)
    ensures
        parse_value(s, i) matches Some(p) ==> i < p.1 <= s.len(),
{
    lemma_parse_scalar_advances(s, i);
    if 0 <= i < s.len() && s[i] == '[' {
        lemma_skip_ws(s, i + 1);
        lemma_parse_items_advances(s, skip_ws(s, i + 1));
    }
}

/// Executable `parse_items`.
fn do_parse_items(s: &Vec<char>, i: usize) -> (r: Option<(Vec<ConfigValue>, usize)>)
    requires
        i <= s@.len(),
    ensures
        match r {
            Some(p) => parse_items(s@, i as int) == Some(
                (crate::value::model_seq(p.0@), p.1 as int),
            ) && i < p.1 <= s@.len(),
            None => parse_items(s@, i as int) is None,
        },
    decreases s@.len() - i,
{
    match scan_scalar(s, i) {
        Some((v, j)) => {
            let k = do_skip_ws(s, j);
            if k < s.len() && s[k] == ',' {
                let m = do_skip_ws(s, k + 1);
                match do_parse_items(s, m) {
                    Some((rest, e)) => {
                        let mut items = rest;
                        let ghost pre = items@;
                        items.insert(0, v);
                        proof {
                            assert(items@.drop_first() =~= pre);
                            crate::value::lemma_model_seq_index(items@);
                            crate::value::lemma_model_seq_index(pre);
                            assert(crate::value::model_seq(items@) =~= seq![v@]
                                + crate::value::model_seq(pre));
                        }
                        Some((items, e))
                    },
                    None => None,
                }
            } else if k < s.len() && s[k] == ']' {
                let mut items: Vec<ConfigValue> = Vec::new();
                items.push(v);
                proof {
                    assert(items@ =~= seq![v]);
                    assert(items@.drop_first() =~= Seq::<ConfigValue>::empty());
                    assert(crate::value::model_seq(Seq::<ConfigValue>::empty()) =~= Seq::<
                        Val,
                    >::empty());
                    assert(crate::value::model_seq(items@) =~= seq![v@]);
                }
                Some((items, k + 1))
            } else {
                None
            }
        },
        None => None,
    }
}

/// Executable `parse_value`.
fn do_parse_value(s: &Vec<char>, i: usize) -> (r: Option<(ConfigValue, usize)>)
    requires
        i <= s@.len(),
    ensures
        match r {
            Some(p) => parse_value(s@, i as int) == Some((p.0@, p.1 as int)) && i < p.1
                <= s@.len(),
            None => parse_value(s@, i as int) is None,
        },
{
    if i < s.len() && s[i] == '[' {
        let j = do_skip_ws(s, i + 1);
        if j < s.len() && s[j] == ']' {
            proof {
                assert(crate::value::model_seq(Seq::<ConfigValue>::empty()) =~= Seq::<
                    Val,
                >::empty());
            }
            Some((ConfigValue::Array(Vec::new()), j + 1))
        } else {
            match do_parse_items(s, j) {
                Some((items, e)) => Some((ConfigValue::Array(items), e)),
                None => None,
            }
        }
    } else {
        scan_scalar(s, i)
    }
}

/// The dotted path of bare keys starting at `i`, with the position after it.
pub open spec fn parse_dotted(s: Seq<char>, i: int) -> Option<(Seq<Seq<char>>, int)>
    decreases s.len() - i,
    via parse_dotted_decreases
{
    if i < 0 {
        None
    } else {
        let j = scan_bare(s, i);
        if j == i {
            None
        } else if j < s.len() && s[j] == '.' {
            match parse_dotted(s, j + 1) {
                Some((rest, e)) => Some((seq![s.subrange(i, j)] + rest, e)),
                None => None,
            }
        } else {
            Some((seq![s.subrange(i, j)], j))
        }
    }
}

#[via_fn]
proof fn parse_dotted_decreases(s: Seq<char>, i: int) {
    if 0 <= i && i <= s.len() {
        lemma_scan_bare(s, i);
    }
}

/// A parsed dotted path ends in range, after the start.
pub proof fn lemma_parse_dotted_advances(s: Seq<char>, i: int)
    requires
        i <= s.len(),
    ensures
        parse_dotted(s, i) matches Some(p) ==> i < p.1 <= s.len() && p.0.len() > 0,
    decreases s.len() - i,
{
    if 0 <= i <= s.len() {
        lemma_scan_bare(s, i);
        let j = scan_bare(s, i);
        if j != i && j < s.len() && s[j] == '.' {
            lemma_parse_dotted_advances(s, j + 1);
        }
    }
}

/// Executable `parse_dotted`.
fn do_parse_dotted(s: &Vec<char>, i: usize) -> (r: Option<(Vec<Vec<char>>, usize)>)
    requires
        i <= s@.len(),
    ensures
        match r {
            Some(p) => parse_dotted(s@, i as int) == Some(
                (p.0@.map_values(|seg: Vec<char>| seg@), p.1 as int),
            ) && i < p.1 <= s@.len(),
            None => parse_dotted(s@, i as int) is None,
        },
    decreases s@.len() - i,
{
    let j = do_scan_bare(s, i);
    if j == i {
        None
    } else if j < s.len() && s[j] == '.' {
        match do_parse_dotted(s, j + 1) {
            Some((rest, e)) => {
                let seg = chars_sub(s, i, j);
                let mut path = rest;
                let ghost pre = path@;
                path.insert(0, seg);
                proof {
                    assert(path@.map_values(|seg: Vec<char>| seg@) =~= seq![
                        s@.subrange(i as int, j as int),
                    ] + pre.map_values(|seg: Vec<char>| seg@));
                }
                Some((path, e))
            },
            None => None,
        }
    } else {
        let seg = chars_sub(s, i, j);
        let mut path: Vec<Vec<char>> = Vec::new();
        path.push(seg);
        proof {
            assert(path@.map_values(|seg: Vec<char>| seg@) =~= seq![
                s@.subrange(i as int, j as int),
            ]);
        }
        Some((path, j))
    }
}

/// Nothing but whitespace, or a comment, from position `i` to the line's end.
pub open spec fn rest_ok(s: Seq<char>, i: int) -> bool {
    let j = skip_ws(s, i);
    j >= s.len() || s[j] == '#'
}

/// Executable `rest_ok`.
fn do_rest_ok(s: &Vec<char>, i: usize) -> (r: bool)
    requires
        i <= s@.len(),
    ensures
        r == rest_ok(s@, i as int),
{
    let j = do_skip_ws(s, i);
    j >= s.len() || s[j] == '#'
}


/// The shape of one line: nothing, a section header with its key path, an
/// assignment of a value to a key, or a malformed line.
pub enum LineShape {
    Blank,
    Header(Seq<Seq<char>>),
    KeyVal(Seq<char>, Val),
    Bad,
}

/// How one line reads: blank or comment, `[section.path]`, or `key = value`,
/// each with optional surrounding whitespace and a trailing comment.
pub open spec fn line_shape(line: Seq<char>) -> LineShape {
    let i = skip_ws(line, 0);
    if i >= line.len() {
        LineShape::Blank
    } else if line[i] == '#' {
        LineShape::Blank
    } else if line[i] == '[' {
        match parse_dotted(line, i + 1) {
            Some((path, j)) => if j < line.len() && line[j] == ']' && rest_ok(line, j + 1) {
                LineShape::Header(path)
            } else {
                LineShape::Bad
            },
            None => LineShape::Bad,
        }
    } else {
        let j = scan_bare(line, i);
        if j == i {
            LineShape::Bad
        } else {
            let k = skip_ws(line, j);
            if k < line.len() && line[k] == '=' {
                let m = skip_ws(line, k + 1);
                match parse_value(line, m) {
                    Some((v, e)) => if rest_ok(line, e) {
                        LineShape::KeyVal(line.subrange(i, j), v)
                    } else {
                        LineShape::Bad
                    },
                    None => LineShape::Bad,
                }
            } else {
                LineShape::Bad
            }
        }
    }
}

/// The executable counterpart of [`LineShape`].
enum LineKind {
    Blank,
    Header(Vec<Vec<char>>),
    KeyVal(Vec<char>, ConfigValue),
    Bad,
}

/// Whether the executable classification carries the shape's content.
spec fn line_kind_matches(k: LineKind, shape: LineShape) -> bool {
    match k {
        LineKind::Blank => shape is Blank,
        LineKind::Header(p) => shape == LineShape::Header(p@.map_values(|seg: Vec<char>| seg@)),
        LineKind::KeyVal(key, v) => shape == LineShape::KeyVal(key@, v@),
        LineKind::Bad => shape is Bad,
    }
}

/// Classifies one line.
fn classify_line(line: &Vec<char>) -> (r: LineKind)
    ensures
        line_kind_matches(r, line_shape(line@)),
{
    let i = do_skip_ws(line, 0);
    if i >= line.len() {
        LineKind::Blank
    } else if line[i] == '#' {
        LineKind::Blank
    } else if line[i] == '[' {
        match do_parse_dotted(line, i + 1) {
            Some((path, j)) => {
                if j < line.len() && line[j] == ']' && do_rest_ok(line, j + 1) {
                    LineKind::Header(path)
                } else {
                    LineKind::Bad
                }
            },
            None => LineKind::Bad,
        }
    } else {
        let j = do_scan_bare(line, i);
        if j == i {
            LineKind::Bad
        } else {
            let k = do_skip_ws(line, j);
            if k < line.len() && line[k] == '=' {
                let m = do_skip_ws(line, k + 1);
                match do_parse_value(line, m) {
                    Some((v, e)) => {
                        if do_rest_ok(line, e) {
                            let key = chars_sub(line, i, j);
                            LineKind::KeyVal(key, v)
                        } else {
                            LineKind::Bad
                        }
                    },
                    None => LineKind::Bad,
                }
            } else {
                LineKind::Bad
            }
        }
    }
}


/// Why a document is rejected.
#[derive(Clone, Copy, Debug, PartialEq, Eq, Structural)]
pub enum ParseErrorKind {
    /// A line matches no supported shape, or a value is out of range.
    Malformed,
    /// The same key is assigned twice in one table.
    DuplicateKey,
    /// An assignment or header path runs through a non-dictionary value.
    Conflict,
}

/// A rejected document: the first offending line, 1-based, and why.
#[derive(Clone, Copy, Debug, PartialEq, Eq, Structural)]
pub struct ParseError {
    /// The 1-based number of the first line that could not be accepted.
    pub line: usize,
    /// Why that line was rejected.
    pub kind: ParseErrorKind,
}

/// The entries with `k` bound to `v`: the first entry of key `k` is replaced,
/// or the binding is appended when no entry has the key.
pub open spec fn set_key(
    entries: Seq<(Seq<char>, Val)>,
    k: Seq<char>,
    v: Val,
) -> Seq<(Seq<char>, Val)>
    decreases entries.len(),
{
    if entries.len() == 0 {
        seq![(k, v)]
    } else if entries[0].0 == k {
        seq![(k, v)] + entries.drop_first()
    } else {
        seq![entries[0]] + set_key(entries.drop_first(), k, v)
    }
}

/// When the key is absent, `set_key` appends.
pub proof fn lemma_set_key_absent(entries: Seq<(Seq<char>, Val)>, k: Seq<char>, v: Val)
    requires
        dict_get(entries, k) is None,
    ensures
        set_key(entries, k, v) =~= entries.push((k, v)),
    decreases entries.len(),
{
    if entries.len() > 0 {
        lemma_set_key_absent(entries.drop_first(), k, v);
        assert(set_key(entries, k, v) =~= seq![entries[0]] + entries.drop_first().push((k, v)));
    }
}

/// When the key's first occurrence is at `i`, `set_key` updates that entry.
pub proof fn lemma_set_key_present(entries: Seq<(Seq<char>, Val)>, k: Seq<char>, v: Val, i: int)
    requires
        0 <= i < entries.len(),
        entries[i].0 == k,
        forall|j: int| 0 <= j < i ==> (#[trigger] entries[j]).0 != k,
    ensures
        set_key(entries, k, v) =~= entries.update(i, (k, v)),
    decreases i,
{
    if i > 0 {
        lemma_set_key_present(entries.drop_first(), k, v, i - 1);
        assert(set_key(entries, k, v) =~= seq![entries[0]] + entries.drop_first().update(
            i - 1,
            (k, v),
        ));
    }
}

/// Binding `key` to `v` in the dictionary reached through `path`, starting at
/// segment `at`, creating empty dictionaries along the way. Assigning an
/// already-bound key is a duplicate; running through a non-dictionary is a
/// conflict.
pub open spec fn insert_path(
    entries: Seq<(Seq<char>, Val)>,
    path: Seq<Seq<char>>,
    at: int,
    key: Seq<char>,
    v: Val,
) -> Result<Seq<(Seq<char>, Val)>, ParseErrorKind>
    decreases path.len() - at,
{
    if at < 0 || at >= path.len() {
        if dict_get(entries, key) is Some {
            Err(ParseErrorKind::DuplicateKey)
        } else {
            Ok(set_key(entries, key, v))
        }
    } else {
        match dict_get(entries, path[at]) {
            Some(Val::Dict(sub)) => match insert_path(sub, path, at + 1, key, v) {
                Ok(sub2) => Ok(set_key(entries, path[at], Val::Dict(sub2))),
                Err(e) => Err(e),
            },
            Some(_) => Err(ParseErrorKind::Conflict),
            None => match insert_path(Seq::empty(), path, at + 1, key, v) {
                Ok(sub2) => Ok(set_key(entries, path[at], Val::Dict(sub2))),
                Err(e) => Err(e),
            },
        }
    }
}

/// Opening the section at `path` from segment `at` on: every segment must be
/// a dictionary, absent segments become empty dictionaries.
pub open spec fn ensure_path(
    entries: Seq<(Seq<char>, Val)>,
    path: Seq<Seq<char>>,
    at: int,
) -> Result<Seq<(Seq<char>, Val)>, ParseErrorKind>
    decreases path.len() - at,
{
    if at < 0 || at >= path.len() {
        Ok(entries)
    } else {
        match dict_get(entries, path[at]) {
            Some(Val::Dict(sub)) => match ensure_path(sub, path, at + 1) {
                Ok(sub2) => Ok(set_key(entries, path[at], Val::Dict(sub2))),
                Err(e) => Err(e),
            },
            Some(_) => Err(ParseErrorKind::Conflict),
            None => match ensure_path(Seq::empty(), path, at + 1) {
                Ok(sub2) => Ok(set_key(entries, path[at], Val::Dict(sub2))),
                Err(e) => Err(e),
            },
        }
    }
}

/// The position of the first entry whose key holds the characters of `key`.
fn dict_find_chars(entries: &Vec<(String, ConfigValue)>, key: &Vec<char>) -> (r: Option<usize>)
    ensures
        match r {
            Some(i) => i < entries@.len() && entries@[i as int].0@ == key@ && forall|j: int|
                0 <= j < i ==> (#[trigger] entries@[j]).0@ != key@,
            None => forall|j: int|
                0 <= j < entries@.len() ==> (#[trigger] entries@[j]).0@ != key@,
        },
{
    let mut i: usize = 0;
    while i < entries.len()
        invariant
            i <= entries@.len(),
            forall|j: int| 0 <= j < i ==> (#[trigger] entries@[j]).0@ != key@,
        decreases entries@.len() - i,
    {
        if crate::strutil::str_eq_chars(entries[i].0.as_str(), key) {
            return Some(i);
        }
        i = i + 1;
    }
    None
}

/// Executable `insert_path`, over an owned entry vector.
fn do_insert_path(
    entries: Vec<(String, ConfigValue)>,
    path: &Vec<Vec<char>>,
    at: usize,
    key: &Vec<char>,
    v: ConfigValue,
) -> (r: Result<Vec<(String, ConfigValue)>, ParseErrorKind>)
    requires
        at <= path@.len(),
    ensures
        ({
            let spec_r = insert_path(
                model_entries(entries@),
                path@.map_values(|seg: Vec<char>| seg@),
                at as int,
                key@,
                v@,
            );
            match r {
                Ok(out) => spec_r == Ok::<_, ParseErrorKind>(model_entries(out@)),
                Err(e) => spec_r == Err::<Seq<(Seq<char>, Val)>, _>(e),
            }
        }),
    decreases path@.len() - at,
{
    let ghost em = model_entries(entries@);
    let ghost pm = path@.map_values(|seg: Vec<char>| seg@);
    proof {
        crate::value::lemma_model_entries_index(entries@);
    }
    if at == path.len() {
        match dict_find_chars(&entries, key) {
            Some(i) => {
                proof {
                    crate::value::lemma_dict_find_get(em, key@, i as int);
                }
                Err(ParseErrorKind::DuplicateKey)
            },
            None => {
                proof {
                    crate::value::lemma_dict_find_none(em, key@);
                    lemma_set_key_absent(em, key@, v@);
                }
                let ghost pre = entries@;
                let mut entries = entries;
                entries.push((crate::strutil::chars_to_string(key), v));
                proof {
                    crate::value::lemma_model_entries_index(entries@);
                    crate::value::lemma_model_entries_index(pre);
                    assert(model_entries(entries@) =~= set_key(em, key@, v@));
                }
                Ok(entries)
            },
        }
    } else {
        let seg = &path[at];
        match dict_find_chars(&entries, seg) {
            Some(i) => {
                proof {
                    crate::value::lemma_dict_find_get(em, pm[at as int], i as int);
                }
                let mut entries = entries;
                let ghost pre = entries@;
                let (name, sub_value) = entries.remove(i);
                match sub_value {
                    ConfigValue::Dict(sub) => {
                        match do_insert_path(sub, path, at + 1, key, v) {
                            Ok(sub2) => {
                                let ghost mid = entries@;
                                entries.insert(i, (name, ConfigValue::Dict(sub2)));
                                proof {
                                    crate::value::lemma_model_entries_index(entries@);
                                    crate::value::lemma_model_entries_index(pre);
                                    crate::value::lemma_model_entries_index(mid);
                                    lemma_set_key_present(
                                        em,
                                        pm[at as int],
                                        Val::Dict(model_entries(sub2@)),
                                        i as int,
                                    );
                                    assert(model_entries(entries@) =~= set_key(
                                        em,
                                        pm[at as int],
                                        Val::Dict(model_entries(sub2@)),
                                    ));
                                }
                                Ok(entries)
                            },
                            Err(e) => Err(e),
                        }
                    },
                    _ => Err(ParseErrorKind::Conflict),
                }
            },
            None => {
                proof {
                    crate::value::lemma_dict_find_none(em, pm[at as int]);
                    assert(model_entries(Seq::<(String, ConfigValue)>::empty()) =~= Seq::<
                        (Seq<char>, Val),
                    >::empty());
                }
                match do_insert_path(Vec::new(), path, at + 1, key, v) {
                    Ok(sub2) => {
                        let ghost pre = entries@;
                        let mut entries = entries;
                        entries.push(
                            (
                                crate::strutil::chars_to_string(seg),
                                ConfigValue::Dict(sub2),
                            ),
                        );
                        proof {
                            crate::value::lemma_model_entries_index(entries@);
                            crate::value::lemma_model_entries_index(pre);
                            lemma_set_key_absent(
                                em,
                                pm[at as int],
                                Val::Dict(model_entries(sub2@)),
                            );
                            assert(model_entries(entries@) =~= set_key(
                                em,
                                pm[at as int],
                                Val::Dict(model_entries(sub2@)),
                            ));
                        }
                        Ok(entries)
                    },
                    Err(e) => Err(e),
                }
            },
        }
    }
}

/// Executable `ensure_path`, over an owned entry vector.
fn do_ensure_path(
    entries: Vec<(String, ConfigValue)>,
    path: &Vec<Vec<char>>,
    at: usize,
) -> (r: Result<Vec<(String, ConfigValue)>, ParseErrorKind>)
    requires
        at <= path@.len(),
    ensures
        ({
            let spec_r = ensure_path(
                model_entries(entries@),
                path@.map_values(|seg: Vec<char>| seg@),
                at as int,
            );
            match r {
                Ok(out) => spec_r == Ok::<_, ParseErrorKind>(model_entries(out@)),
                Err(e) => spec_r == Err::<Seq<(Seq<char>, Val)>, _>(e),
            }
        }),
    decreases path@.len() - at,
{
    let ghost em = model_entries(entries@);
    let ghost pm = path@.map_values(|seg: Vec<char>| seg@);
    proof {
        crate::value::lemma_model_entries_index(entries@);
    }
    if at == path.len() {
        Ok(entries)
    } else {
        let seg = &path[at];
        match dict_find_chars(&entries, seg) {
            Some(i) => {
                proof {
                    crate::value::lemma_dict_find_get(em, pm[at as int], i as int);
                }
                let mut entries = entries;
                let ghost pre = entries@;
                let (name, sub_value) = entries.remove(i);
                match sub_value {
                    ConfigValue::Dict(sub) => {
                        match do_ensure_path(sub, path, at + 1) {
                            Ok(sub2) => {
                                let ghost mid = entries@;
                                entries.insert(i, (name, ConfigValue::Dict(sub2)));
                                proof {
                                    crate::value::lemma_model_entries_index(entries@);
                                    crate::value::lemma_model_entries_index(pre);
                                    crate::value::lemma_model_entries_index(mid);
                                    lemma_set_key_present(
                                        em,
                                        pm[at as int],
                                        Val::Dict(model_entries(sub2@)),
                                        i as int,
                                    );
                                    assert(model_entries(entries@) =~= set_key(
                                        em,
                                        pm[at as int],
                                        Val::Dict(model_entries(sub2@)),
                                    ));
                                }
                                Ok(entries)
                            },
                            Err(e) => Err(e),
                        }
                    },
                    _ => Err(ParseErrorKind::Conflict),
                }
            },
            None => {
                proof {
                    crate::value::lemma_dict_find_none(em, pm[at as int]);
                    assert(model_entries(Seq::<(String, ConfigValue)>::empty()) =~= Seq::<
                        (Seq<char>, Val),
                    >::empty());
                }
                match do_ensure_path(Vec::new(), path, at + 1) {
                    Ok(sub2) => {
                        let ghost pre = entries@;
                        let mut entries = entries;
                        entries.push(
                            (
                                crate::strutil::chars_to_string(seg),
                                ConfigValue::Dict(sub2),
                            ),
                        );
                        proof {
                            crate::value::lemma_model_entries_index(entries@);
                            crate::value::lemma_model_entries_index(pre);
                            lemma_set_key_absent(
                                em,
                                pm[at as int],
                                Val::Dict(model_entries(sub2@)),
                            );
                            assert(model_entries(entries@) =~= set_key(
                                em,
                                pm[at as int],
                                Val::Dict(model_entries(sub2@)),
                            ));
                        }
                        Ok(entries)
                    },
                    Err(e) => Err(e),
                }
            },
        }
    }
}


/// Splitting on newline characters, with `cur` the line read so far.
pub open spec fn lines_acc(s: Seq<char>, cur: Seq<char>) -> Seq<Seq<char>>
    decreases s.len(),
{
    if s.len() == 0 {
        seq![cur]
    } else if s[0] == '\n' {
        seq![cur] + lines_acc(s.drop_first(), Seq::empty())
    } else {
        lines_acc(s.drop_first(), cur.push(s[0]))
    }
}

/// The lines of a document, split on newline characters.
pub open spec fn split_lines(s: Seq<char>) -> Seq<Seq<char>> {
    lines_acc(s, Seq::empty())
}

/// Executable `split_lines`.
#[verifier::loop_isolation(false)]
fn do_split_lines(s: &Vec<char>) -> (r: Vec<Vec<char>>)
    ensures
        r@.map_values(|line: Vec<char>| line@) == split_lines(s@),
{
    let mut done: Vec<Vec<char>> = Vec::new();
    let mut cur: Vec<char> = Vec::new();
    let mut i: usize = 0;
    proof {
        assert(s@.skip(0) =~= s@);
        assert(done@.map_values(|line: Vec<char>| line@) =~= Seq::<Seq<char>>::empty());
    }
    while i < s.len()
        invariant
            i <= s@.len(),
            split_lines(s@) =~= done@.map_values(|line: Vec<char>| line@) + lines_acc(
                s@.skip(i as int),
                cur@,
            ),
        decreases s@.len() - i,
    {
        let ghost prev_done = done@.map_values(|line: Vec<char>| line@);
        proof {
            assert(s@.skip(i as int).drop_first() =~= s@.skip(i + 1));
            assert(s@.skip(i as int)[0] == s@[i as int]);
        }
        if s[i] == '\n' {
            done.push(cur);
            cur = Vec::new();
            proof {
                assert(done@.map_values(|line: Vec<char>| line@) =~= prev_done.push(
                    done@.last()@,
                ));
            }
        } else {
            cur.push(s[i]);
        }
        i = i + 1;
    }
    proof {
        assert(s@.skip(s@.len() as int) =~= Seq::<char>::empty());
    }
    let ghost prev_done = done@.map_values(|line: Vec<char>| line@);
    done.push(cur);
    proof {
        assert(done@.map_values(|line: Vec<char>| line@) =~= prev_done.push(done@.last()@));
    }
    done
}

/// The table a document's lines build from line `i` on, given the table built
/// so far and the section path in force, or the first offending line (0-based)
/// and why it offends.
pub open spec fn parse_lines(
    lines: Seq<Seq<char>>,
    i: int,
    tree: Seq<(Seq<char>, Val)>,
    path: Seq<Seq<char>>,
) -> Result<Seq<(Seq<char>, Val)>, (int, ParseErrorKind)>
    decreases lines.len() - i,
{
    if i < 0 || i >= lines.len() {
        Ok(tree)
    } else {
        match line_shape(lines[i]) {
            LineShape::Blank => parse_lines(lines, i + 1, tree, path),
            LineShape::Header(p) => match ensure_path(tree, p, 0) {
                Ok(t2) => parse_lines(lines, i + 1, t2, p),
                Err(k) => Err((i, k)),
            },
            LineShape::KeyVal(key, v) => match insert_path(tree, path, 0, key, v) {
                Ok(t2) => parse_lines(lines, i + 1, t2, path),
                Err(k) => Err((i, k)),
            },
            LineShape::Bad => Err((i, ParseErrorKind::Malformed)),
        }
    }
}

/// What a whole document parses to: the dictionary its lines build, or the
/// first offending line and why.
pub open spec fn spec_parse_toml(s: Seq<char>) -> Result<Val, (int, ParseErrorKind)> {
    match parse_lines(split_lines(s), 0, Seq::empty(), Seq::empty()) {
        Ok(entries) => Ok(Val::Dict(entries)),
        Err(e) => Err(e),
    }
}

/// Parse a configuration document. On success the result is the dictionary
/// the document describes; on failure the error names the first offending
/// line (1-based) and why it offends.
pub fn parse_toml(text: &str) -> (r: Result<ConfigValue, ParseError>)
    ensures
        match r {
            Ok(v) => spec_parse_toml(text@) == Ok::<_, (int, ParseErrorKind)>(v@),
            Err(e) => spec_parse_toml(text@) == Err::<Val, _>(
                ((e.line - 1) as int, e.kind),
            ) && e.line >= 1,
        },
{
    let chars = crate::strutil::str_to_chars(text);
    let lines = do_split_lines(&chars);
    let ghost lm = lines@.map_values(|line: Vec<char>| line@);
    let mut tree: Vec<(String, ConfigValue)> = Vec::new();
    let mut path: Vec<Vec<char>> = Vec::new();
    let mut i: usize = 0;
    proof {
        assert(model_entries(tree@) =~= Seq::<(Seq<char>, Val)>::empty());
        assert(path@.map_values(|seg: Vec<char>| seg@) =~= Seq::<Seq<char>>::empty());
    }
    while i < lines.len()
        invariant
            i <= lines@.len(),
            lm == lines@.map_values(|line: Vec<char>| line@),
            lm == split_lines(text@),
            parse_lines(lm, 0, Seq::empty(), Seq::empty()) == parse_lines(
                lm,
                i as int,
                model_entries(tree@),
                path@.map_values(|seg: Vec<char>| seg@),
            ),
        decreases lines@.len() - i,
    {
        match classify_line(&lines[i]) {
            LineKind::Blank => {
            },
            LineKind::Header(p) => {
                let ghost tm = model_entries(tree@);
                let ghost pm = path@.map_values(|seg: Vec<char>| seg@);
                match do_ensure_path(tree, &p, 0) {
                    Ok(t2) => {
                        tree = t2;
                        path = p;
                    },
                    Err(k) => {
                        proof {
                            assert(lm[i as int] == lines@[i as int]@);
                            assert(parse_lines(lm, i as int, tm, pm) == Err::<
                                Seq<(Seq<char>, Val)>,
                                _,
                            >((i as int, k)));
                            assert(spec_parse_toml(text@) == Err::<Val, _>((i as int, k)));
                        }
                        return Err(ParseError { line: i + 1, kind: k });
                    },
                }
            },
            LineKind::KeyVal(key, v) => {
                let ghost tm = model_entries(tree@);
                let ghost pm = path@.map_values(|seg: Vec<char>| seg@);
                match do_insert_path(tree, &path, 0, &key, v) {
                    Ok(t2) => {
                        tree = t2;
                    },
                    Err(k) => {
                        proof {
                            assert(lm[i as int] == lines@[i as int]@);
                            assert(parse_lines(lm, i as int, tm, pm) == Err::<
                                Seq<(Seq<char>, Val)>,
                                _,
                            >((i as int, k)));
                            assert(spec_parse_toml(text@) == Err::<Val, _>((i as int, k)));
                        }
                        return Err(ParseError { line: i + 1, kind: k });
                    },
                }
            },
            LineKind::Bad => {
                proof {
                    assert(lm[i as int] == lines@[i as int]@);
                    assert(line_shape(lm[i as int]) is Bad);
                    assert(parse_lines(
                        lm,
                        i as int,
                        model_entries(tree@),
                        path@.map_values(|seg: Vec<char>| seg@),
                    ) == Err::<Seq<(Seq<char>, Val)>, _>((i as int, ParseErrorKind::Malformed)));
                    assert(spec_parse_toml(text@) == Err::<Val, _>((
                        i as int,
                        ParseErrorKind::Malformed,
                    )));
                }
                return Err(ParseError { line: i + 1, kind: ParseErrorKind::Malformed });
            },
        }
        i = i + 1;
    }
    Ok(ConfigValue::Dict(tree))
}


/// A parsed scalar is well-formed: it is never a container with bad content.
proof fn lemma_parse_scalar_wf(s: Seq<char>, i: int)
    ensures
        parse_scalar(s, i) matches Some(p) ==> crate::value::val_wf(p.0),
{
}

/// Parsed array items are all well-formed.
proof fn lemma_parse_items_wf(s: Seq<char>, i: int)
    ensures
        parse_items(s, i) matches Some(p) ==> forall|x: int|
            0 <= x < p.0.len() ==> crate::value::val_wf(#[trigger] p.0[x]),
    decreases s.len() - i,
{
    lemma_parse_scalar_wf(s, i);
    lemma_parse_scalar_advances(s, i);
    match parse_scalar(s, i) {
        Some((v, j)) => {
            lemma_skip_ws(s, j);
            let k = skip_ws(s, j);
            if k < s.len() && s[k] == ',' {
                lemma_skip_ws(s, k + 1);
                let m = skip_ws(s, k + 1);
                lemma_parse_items_wf(s, m);
                match parse_items(s, m) {
                    Some((rest, e)) => {
                        assert forall|x: int|
                            0 <= x < (seq![v] + rest).len() implies crate::value::val_wf(
                            #[trigger] (seq![v] + rest)[x],
                        ) by {
                            if x > 0 {
                                assert((seq![v] + rest)[x] == rest[x - 1]);
                            }
                        }
                    },
                    None => {},
                }
            }
        },
        None => {},
    }
}

/// A parsed value is well-formed.
proof fn lemma_parse_value_wf(s: Seq<char>, i: int)
    ensures
        parse_value(s, i) matches Some(p) ==> crate::value::val_wf(p.0),
{
    lemma_parse_scalar_wf(s, i);
    if 0 <= i < s.len() && s[i] == '[' {
        lemma_parse_items_wf(s, skip_ws(s, i + 1));
    }
}

/// Well-formedness of a dictionary entry sequence: distinct keys, every
/// value well-formed.
pub open spec fn entries_wf(entries: Seq<(Seq<char>, Val)>) -> bool {
    crate::value::keys_unique(entries) && forall|i: int|
        0 <= i < entries.len() ==> crate::value::val_wf((#[trigger] entries[i]).1)
}

/// `set_key` keeps entries well-formed, and introduces no key but `k`.
pub proof fn lemma_set_key_wf(entries: Seq<(Seq<char>, Val)>, k: Seq<char>, v: Val)
    requires
        entries_wf(entries),
        crate::value::val_wf(v),
    ensures
        entries_wf(set_key(entries, k, v)),
        forall|j: int|
            0 <= j < set_key(entries, k, v).len() ==> (#[trigger] set_key(entries, k, v)[j]).0 == k
                || exists|x: int| 0 <= x < entries.len() && set_key(entries, k, v)[j].0 == (
            #[trigger] entries[x]).0,
    decreases entries.len(),
{
    let out = set_key(entries, k, v);
    if entries.len() == 0 {
    } else if entries[0].0 == k {
        assert(out =~= seq![(k, v)] + entries.drop_first());
        assert forall|j: int| 0 <= j < out.len() implies (#[trigger] out[j]).0 == k || exists|x: int|
            0 <= x < entries.len() && out[j].0 == (#[trigger] entries[x]).0 by {
            if j > 0 {
                assert(out[j] == entries.drop_first()[j - 1]);
                assert(out[j].0 == entries[j].0);
            }
        }
        assert forall|i: int, j: int| 0 <= i < j < out.len() implies (#[trigger] out[i]).0 != (
        #[trigger] out[j]).0 by {
            if i > 0 {
                assert(out[i].0 == entries[i].0 && out[j].0 == entries[j].0);
            } else {
                assert(out[j].0 == entries[j].0);
                assert(entries[0].0 != entries[j].0);
            }
        }
        assert forall|i: int| 0 <= i < out.len() implies crate::value::val_wf(
            (#[trigger] out[i]).1,
        ) by {
            if i > 0 {
                assert(out[i] == entries[i]);
                assert(crate::value::val_wf(entries[i].1));
            }
        }
    } else {
        assert(entries_wf(entries.drop_first())) by {
            assert(forall|i: int|
                0 <= i < entries.drop_first().len() ==> #[trigger] entries.drop_first()[i]
                    == entries[i + 1]);
        }
        lemma_set_key_wf(entries.drop_first(), k, v);
        let sub = set_key(entries.drop_first(), k, v);
        assert(out =~= seq![entries[0]] + sub);
        assert forall|j: int| 0 <= j < out.len() implies (#[trigger] out[j]).0 == k || exists|x: int|
            0 <= x < entries.len() && out[j].0 == (#[trigger] entries[x]).0 by {
            if j > 0 {
                assert(out[j] == sub[j - 1]);
                if sub[j - 1].0 != k {
                    let x = choose|x: int|
                        0 <= x < entries.drop_first().len() && sub[j - 1].0 == (
                        #[trigger] entries.drop_first()[x]).0;
                    assert(entries.drop_first()[x] == entries[x + 1]);
                }
            } else {
                assert(out[0].0 == entries[0].0);
            }
        }
        assert forall|i: int, j: int| 0 <= i < j < out.len() implies (#[trigger] out[i]).0 != (
        #[trigger] out[j]).0 by {
            if i > 0 {
                assert(out[i] == sub[i - 1] && out[j] == sub[j - 1]);
            } else {
                assert(out[j] == sub[j - 1]);
                if sub[j - 1].0 == k {
                    assert(entries[0].0 != k);
                } else {
                    let x = choose|x: int|
                        0 <= x < entries.drop_first().len() && sub[j - 1].0 == (
                        #[trigger] entries.drop_first()[x]).0;
                    assert(entries.drop_first()[x] == entries[x + 1]);
                    assert(entries[0].0 != entries[x + 1].0);
                }
            }
        }
        assert forall|i: int| 0 <= i < out.len() implies crate::value::val_wf(
            (#[trigger] out[i]).1,
        ) by {
            if i > 0 {
                assert(out[i] == sub[i - 1]);
            } else {
                assert(crate::value::val_wf(entries[0].1));
            }
        }
    }
}

/// `insert_path` keeps the table well-formed.
proof fn lemma_insert_path_wf(
    entries: Seq<(Seq<char>, Val)>,
    path: Seq<Seq<char>>,
    at: int,
    key: Seq<char>,
    v: Val,
)
    requires
        entries_wf(entries),
        crate::value::val_wf(v),
    ensures
        insert_path(entries, path, at, key, v) matches Ok(t2) ==> entries_wf(t2),
    decreases path.len() - at,
{
    if at < 0 || at >= path.len() {
        if dict_get(entries, key) is None {
            lemma_set_key_wf(entries, key, v);
        }
    } else {
        crate::value::lemma_dict_get_some(entries, path[at]);
        match dict_get(entries, path[at]) {
            Some(Val::Dict(sub)) => {
                assert(crate::value::val_wf(Val::Dict(sub))) by {
                    let x = choose|x: int|
                        0 <= x < entries.len() && #[trigger] entries[x] == (
                            path[at],
                            dict_get(entries, path[at])->Some_0,
                        );
                    assert(crate::value::val_wf(entries[x].1));
                }
                assert(entries_wf(sub));
                lemma_insert_path_wf(sub, path, at + 1, key, v);
                match insert_path(sub, path, at + 1, key, v) {
                    Ok(sub2) => {
                        lemma_set_key_wf(entries, path[at], Val::Dict(sub2));
                    },
                    Err(_) => {},
                }
            },
            Some(_) => {},
            None => {
                assert(entries_wf(Seq::<(Seq<char>, Val)>::empty()));
                lemma_insert_path_wf(Seq::empty(), path, at + 1, key, v);
                match insert_path(Seq::empty(), path, at + 1, key, v) {
                    Ok(sub2) => {
                        lemma_set_key_wf(entries, path[at], Val::Dict(sub2));
                    },
                    Err(_) => {},
                }
            },
        }
    }
}

/// `ensure_path` keeps the table well-formed.
proof fn lemma_ensure_path_wf(entries: Seq<(Seq<char>, Val)>, path: Seq<Seq<char>>, at: int)
    requires
        entries_wf(entries),
    ensures
        ensure_path(entries, path, at) matches Ok(t2) ==> entries_wf(t2),
    decreases path.len() - at,
{
    if 0 <= at < path.len() {
        crate::value::lemma_dict_get_some(entries, path[at]);
        match dict_get(entries, path[at]) {
            Some(Val::Dict(sub)) => {
                assert(crate::value::val_wf(Val::Dict(sub))) by {
                    let x = choose|x: int|
                        0 <= x < entries.len() && #[trigger] entries[x] == (
                            path[at],
                            dict_get(entries, path[at])->Some_0,
                        );
                    assert(crate::value::val_wf(entries[x].1));
                }
                assert(entries_wf(sub));
                lemma_ensure_path_wf(sub, path, at + 1);
                match ensure_path(sub, path, at + 1) {
                    Ok(sub2) => {
                        lemma_set_key_wf(entries, path[at], Val::Dict(sub2));
                    },
                    Err(_) => {},
                }
            },
            Some(_) => {},
            None => {
                assert(entries_wf(Seq::<(Seq<char>, Val)>::empty()));
                lemma_ensure_path_wf(Seq::empty(), path, at + 1);
                match ensure_path(Seq::empty(), path, at + 1) {
                    Ok(sub2) => {
                        lemma_set_key_wf(entries, path[at], Val::Dict(sub2));
                    },
                    Err(_) => {},
                }
            },
        }
    }
}

/// The fold over the lines keeps the table well-formed.
proof fn lemma_parse_lines_wf(
    lines: Seq<Seq<char>>,
    i: int,
    tree: Seq<(Seq<char>, Val)>,
    path: Seq<Seq<char>>,
)
    requires
        entries_wf(tree),
    ensures
        parse_lines(lines, i, tree, path) matches Ok(t) ==> entries_wf(t),
    decreases lines.len() - i,
{
    if 0 <= i < lines.len() {
        match line_shape(lines[i]) {
            LineShape::Blank => {
                lemma_parse_lines_wf(lines, i + 1, tree, path);
            },
            LineShape::Header(p) => {
                lemma_ensure_path_wf(tree, p, 0);
                match ensure_path(tree, p, 0) {
                    Ok(t2) => {
                        lemma_parse_lines_wf(lines, i + 1, t2, p);
                    },
                    Err(_) => {},
                }
            },
            LineShape::KeyVal(key, v) => {
                assert(crate::value::val_wf(v)) by {
                    lemma_line_shape_value_wf(lines[i]);
                }
                lemma_insert_path_wf(tree, path, 0, key, v);
                match insert_path(tree, path, 0, key, v) {
                    Ok(t2) => {
                        lemma_parse_lines_wf(lines, i + 1, t2, path);
                    },
                    Err(_) => {},
                }
            },
            LineShape::Bad => {},
        }
    }
}

/// The value of an assignment line is well-formed.
proof fn lemma_line_shape_value_wf(line: Seq<char>)
    ensures
        line_shape(line) matches LineShape::KeyVal(key, v) ==> crate::value::val_wf(v),
{
    let i = skip_ws(line, 0);
    if 0 <= i < line.len() && line[i] != '#' && line[i] != '[' {
        let j = scan_bare(line, i);
        if j != i {
            let k = skip_ws(line, j);
            if k < line.len() && line[k] == '=' {
                lemma_parse_value_wf(line, skip_ws(line, k + 1));
            }
        }
    }
}

/// A parsed document is well-formed: every dictionary in it has distinct
/// keys.
pub proof fn lemma_parse_toml_wf(s: Seq<char>)
    ensures
        spec_parse_toml(s) matches Ok(v) ==> crate::value::val_wf(v),
{
    assert(entries_wf(Seq::<(Seq<char>, Val)>::empty()));
    lemma_parse_lines_wf(split_lines(s), 0, Seq::empty(), Seq::empty());
}

} // verus!
