//! The round trip from the generator back through the parser: a rendered
//! value reads back as the same value, a rendered assignment or header line
//! reads back as the same key and value or section path, and a whole
//! generated document — flat, or one section level deep — loads back as
//! exactly the dictionary its schema describes.

use vstd::prelude::*;

use crate::schema::dec_nat;
use crate::schema::render_items;
use crate::schema::render_leaf;
use crate::schema::render_leaves;
use crate::schema::render_tables;
use crate::schema::join_path;
use crate::schema::lemma_join_path_push;
use crate::schema::spec_render;
use crate::schema::NodeModel;
use crate::schema::render_value;
use crate::toml::digit_val;
use crate::toml::digits_int;
use crate::toml::find_char;
use crate::toml::is_bare_char;
use crate::toml::is_digit;
use crate::toml::is_ws;
use crate::toml::line_shape;
use crate::toml::lines_acc;
use crate::toml::parse_lines;
use crate::toml::split_lines;
use crate::toml::parse_items;
use crate::toml::parse_scalar;
use crate::toml::parse_value;
use crate::toml::scan_bare;
use crate::toml::scan_digits;
use crate::toml::skip_ws;
use crate::toml::LineShape;
use crate::value::Val;

verus! {

/// The decimal digits of a number are digits, denote the number again, and
/// never start the text with anything but a digit.
proof fn lemma_dec_nat_digits(n: nat)
    ensures
        dec_nat(n).len() >= 1,
        forall|i: int| 0 <= i < dec_nat(n).len() ==> is_digit(#[trigger] dec_nat(n)[i]),
        digits_int(dec_nat(n)) == n,
    decreases n,
{
    if n < 10 {
        assert(dec_nat(n) == seq![(48 + n) as u8 as char]);
        assert(digit_val((48 + n) as u8 as char) == n);
        assert(dec_nat(n).drop_last() =~= Seq::<char>::empty());
        assert(digits_int(Seq::<char>::empty()) == 0);
        assert(dec_nat(n).last() == (48 + n) as u8 as char);
    } else {
        lemma_dec_nat_digits(n / 10);
        let whole = dec_nat(n);
        assert(whole == dec_nat(n / 10).push((48 + n % 10) as u8 as char));
        assert(whole.drop_last() =~= dec_nat(n / 10));
        assert(digit_val((48 + n % 10) as u8 as char) == n % 10);
        assert(digits_int(whole) == (n / 10) * 10 + n % 10);
        assert forall|i: int| 0 <= i < whole.len() implies is_digit(#[trigger] whole[i]) by {
            if i < whole.len() - 1 {
                assert(whole[i] == dec_nat(n / 10)[i]);
            } else {
                assert(whole[i] == (48 + n % 10) as u8 as char);
            }
        }
    }
}

/// A digit run bounded by a non-digit, or by the end, is scanned exactly.
proof fn lemma_scan_digits_exact(s: Seq<char>, i: int, j: int)
    requires
        0 <= i <= j <= s.len(),
        forall|x: int| i <= x < j ==> is_digit(#[trigger] s[x]),
        j == s.len() || !is_digit(s[j]),
    ensures
        scan_digits(s, i) == j,
    decreases j - i,
{
    if i < j {
        lemma_scan_digits_exact(s, i + 1, j);
    }
}

/// A bare-key run bounded by a non-bare character, or by the end, is scanned
/// exactly.
proof fn lemma_scan_bare_exact(s: Seq<char>, i: int, j: int)
    requires
        0 <= i <= j <= s.len(),
        forall|x: int| i <= x < j ==> is_bare_char(#[trigger] s[x]),
        j == s.len() || !is_bare_char(s[j]),
    ensures
        scan_bare(s, i) == j,
    decreases j - i,
{
    if i < j {
        lemma_scan_bare_exact(s, i + 1, j);
    }
}

/// A whitespace run bounded by a non-whitespace character, or by the end, is
/// skipped exactly.
proof fn lemma_skip_ws_exact(s: Seq<char>, i: int, j: int)
    requires
        0 <= i <= j <= s.len(),
        forall|x: int| i <= x < j ==> is_ws(#[trigger] s[x]),
        j == s.len() || !is_ws(s[j]),
    ensures
        skip_ws(s, i) == j,
    decreases j - i,
{
    if i < j {
        lemma_skip_ws_exact(s, i + 1, j);
    }
}

/// The first occurrence of a character after a run without it is found
/// exactly.
proof fn lemma_find_char_exact(s: Seq<char>, i: int, j: int, c: char)
    requires
        0 <= i <= j < s.len(),
        forall|x: int| i <= x < j ==> #[trigger] s[x] != c,
        s[j] == c,
    ensures
        find_char(s, i, c) == Some(j),
    decreases j - i,
{
    if i < j {
        lemma_find_char_exact(s, i + 1, j, c);
    }
}

/// Whether a float literal has the shape the parser reads back whole: an
/// optional minus sign, digits, a dot, digits.
pub open spec fn float_text_wf(t: Seq<char>) -> bool {
    let j0: int = if t.len() > 0 && t[0] == '-' {
        1
    } else {
        0
    };
    exists|j: int|
        j0 < j < t.len() - 1 && #[trigger] t[j] == '.' && (forall|x: int|
            j0 <= x < j ==> is_digit(#[trigger] t[x])) && (forall|x: int|
            j < x < t.len() ==> is_digit(#[trigger] t[x]))
}

/// Whether a value renders as text the parser reads back as the same value:
/// booleans and integers always do; a float must keep a well-formed literal;
/// a string must not contain a quote; an array's items must themselves be
/// such scalars. Dictionaries render as sections, not as values, and a null
/// renders as nothing.
pub open spec fn renderable(v: Val) -> bool
    decreases v,
{
    match v {
        Val::Null => false,
        Val::Bool(_) => true,
        Val::Int(_) => true,
        Val::Float(t) => float_text_wf(t),
        Val::Str(s) => forall|i: int| 0 <= i < s.len() ==> #[trigger] s[i] != '"',
        Val::Array(items) => forall|i: int|
            0 <= i < items.len() ==> renderable(#[trigger] items[i]) && !(items[i] is Array)
                && !(items[i] is Dict) && !(items[i] is Null),
        Val::Dict(_) => false,
    }
}

/// A character that ends a scalar without extending it: whitespace, a comma,
/// a closing bracket, or a comment sign.
pub open spec fn is_value_end(c: char) -> bool {
    is_ws(c) || c == ',' || c == ']' || c == '#'
}

/// The first character of a rendered scalar: a quote, a letter of a boolean
/// literal, a minus sign, or a digit — never whitespace or a delimiter.
proof fn lemma_render_first_char(v: Val)
    requires
        renderable(v),
        !(v is Array),
        !(v is Dict),
        !(v is Null),
    ensures
        render_value(v).len() >= 1,
        !is_ws(render_value(v)[0]),
        render_value(v)[0] != ']',
        render_value(v)[0] != ',',
        render_value(v)[0] != '#',
        render_value(v)[0] != '[',
        render_value(v)[0] != '\n',
{
    match v {
        Val::Bool(b) => {},
        Val::Int(n) => {
            if n >= 0 {
                lemma_dec_nat_digits(n as nat);
                assert(render_value(v)[0] == dec_nat(n as nat)[0]);
                assert(is_digit(render_value(v)[0]));
            } else {
                lemma_dec_nat_digits((-(n as int)) as nat);
                assert(render_value(v)[0] == '-');
            }
        },
        Val::Float(t) => {
            let j0: int = if t.len() > 0 && t[0] == '-' {
                1
            } else {
                0
            };
            let j = choose|j: int|
                j0 < j < t.len() - 1 && #[trigger] t[j] == '.' && (forall|x: int|
                    j0 <= x < j ==> is_digit(#[trigger] t[x])) && (forall|x: int|
                    j < x < t.len() ==> is_digit(#[trigger] t[x]));
            if t[0] != '-' {
                assert(is_digit(t[0]));
            }
        },
        Val::Str(s) => {},
        _ => {},
    }
}

/// A rendered scalar, followed by a scalar-ending character or by the end of
/// the text, parses back as exactly the value it was rendered from.
pub proof fn lemma_parse_scalar_render(s: Seq<char>, i: int, v: Val)
    requires
        renderable(v),
        !(v is Array),
        !(v is Dict),
        !(v is Null),
        0 <= i,
        i + render_value(v).len() <= s.len(),
        s.subrange(i, i + render_value(v).len()) == render_value(v),
        i + render_value(v).len() == s.len() || is_value_end(s[i + render_value(v).len()]),
    ensures
        parse_scalar(s, i) == Some((v, i + render_value(v).len())),
{
    let r = render_value(v);
    let e = i + r.len();
    lemma_render_first_char(v);
    assert(forall|x: int| 0 <= x < r.len() ==> s[i + x] == #[trigger] r[x]);
    match v {
        Val::Bool(b) => {
            if b {
                assert(s.subrange(i, i + 4) =~= seq!['t', 'r', 'u', 'e']);
                assert(s[i] != '"');
            } else {
                assert(s.subrange(i, i + 5) =~= seq!['f', 'a', 'l', 's', 'e']);
                assert(s[i] == 'f' && s[i] != '"');
                if i + 4 <= s.len() {
                    assert(s.subrange(i, i + 4)[0] == 'f');
                    assert(s.subrange(i, i + 4) != seq!['t', 'r', 'u', 'e']);
                }
            }
        },
        Val::Int(n) => {
            if n >= 0 {
                lemma_dec_nat_digits(n as nat);
                assert forall|x: int| i <= x < e implies is_digit(#[trigger] s[x]) by {
                    assert(s[x] == r[x - i]);
                }
                assert(is_digit(s[i]));
                assert(s[i] != '"' && s[i] != '-');
                if i + 4 <= s.len() {
                    assert(s.subrange(i, i + 4)[0] == s[i]);
                    assert(s.subrange(i, i + 4) != seq!['t', 'r', 'u', 'e']);
                }
                if i + 5 <= s.len() {
                    assert(s.subrange(i, i + 5)[0] == s[i]);
                    assert(s.subrange(i, i + 5) != seq!['f', 'a', 'l', 's', 'e']);
                }
                lemma_scan_digits_exact(s, i, e);
                assert(e == s.len() || !is_digit(s[e]));
                assert(e < s.len() ==> s[e] != '.');
                assert(s.subrange(i, e) =~= dec_nat(n as nat));
                assert(digits_int(s.subrange(i, e)) == n);
            } else {
                let m = (-(n as int)) as nat;
                lemma_dec_nat_digits(m);
                assert(s[i] == '-');
                assert forall|x: int| i + 1 <= x < e implies is_digit(#[trigger] s[x]) by {
                    assert(s[x] == r[x - i]);
                    assert(r[x - i] == dec_nat(m)[x - i - 1]);
                }
                assert forall|x: int| 0 <= x < dec_nat(m).len() implies #[trigger] s.subrange(
                    i + 1,
                    e,
                )[x] == dec_nat(m)[x] by {
                    assert(s[i + 1 + x] == r[1 + x]);
                    assert(r[1 + x] == dec_nat(m)[x]);
                }
                if i + 4 <= s.len() {
                    assert(s.subrange(i, i + 4)[0] == '-');
                    assert(s.subrange(i, i + 4) != seq!['t', 'r', 'u', 'e']);
                }
                if i + 5 <= s.len() {
                    assert(s.subrange(i, i + 5)[0] == '-');
                    assert(s.subrange(i, i + 5) != seq!['f', 'a', 'l', 's', 'e']);
                }
                lemma_scan_digits_exact(s, i + 1, e);
                assert(e > i + 1);
                assert(e == s.len() || !is_digit(s[e]));
                assert(e < s.len() ==> s[e] != '.');
                assert(s.subrange(i + 1, e) =~= dec_nat(m));
                assert(digits_int(s.subrange(i + 1, e)) == m);
                assert(m <= 0x8000_0000_0000_0000);
                assert((-(m as int)) as i64 == n);
            }
        },
        Val::Float(t) => {
            let j0: int = if t.len() > 0 && t[0] == '-' {
                1
            } else {
                0
            };
            let j = choose|j: int|
                j0 < j < t.len() - 1 && #[trigger] t[j] == '.' && (forall|x: int|
                    j0 <= x < j ==> is_digit(#[trigger] t[x])) && (forall|x: int|
                    j < x < t.len() ==> is_digit(#[trigger] t[x]));
            assert(r == t);
            assert(s[i + j] == '.');
            if j0 == 1 {
                assert(s[i] == '-');
            } else {
                assert(is_digit(s[i]));
            }
            assert(s[i] != '"');
            if i + 4 <= s.len() {
                assert(s.subrange(i, i + 4)[0] == s[i]);
                assert(s.subrange(i, i + 4) != seq!['t', 'r', 'u', 'e']);
            }
            if i + 5 <= s.len() {
                assert(s.subrange(i, i + 5)[0] == s[i]);
                assert(s.subrange(i, i + 5) != seq!['f', 'a', 'l', 's', 'e']);
            }
            assert forall|x: int| i + j0 <= x < i + j implies is_digit(#[trigger] s[x]) by {
                assert(s[x] == t[x - i]);
            }
            lemma_scan_digits_exact(s, i + j0, i + j);
            assert forall|x: int| i + j + 1 <= x < e implies is_digit(#[trigger] s[x]) by {
                assert(s[x] == t[x - i]);
            }
            lemma_scan_digits_exact(s, i + j + 1, e);
            assert(e == s.len() || !is_digit(s[e]));
            assert(s.subrange(i, e) =~= t);
        },
        Val::Str(inner) => {
            assert(s[i] == '"');
            assert forall|x: int| i + 1 <= x < e - 1 implies #[trigger] s[x] != '"' by {
                assert(s[x] == r[x - i]);
                assert(r[x - i] == inner[x - i - 1]);
            }
            assert(s[e - 1] == r[r.len() as int - 1]);
            assert(r[r.len() as int - 1] == '"');
            lemma_find_char_exact(s, i + 1, e - 1, '"');
            assert forall|x: int| 0 <= x < inner.len() implies #[trigger] s.subrange(
                i + 1,
                e - 1,
            )[x] == inner[x] by {
                assert(s[i + 1 + x] == r[1 + x]);
                assert(r[1 + x] == inner[x]);
            }
            assert(s.subrange(i + 1, e - 1) =~= inner);
        },
        _ => {},
    }
}


/// Rendered array items followed by the closing bracket parse back as
/// exactly the items they were rendered from.
pub proof fn lemma_parse_items_render(s: Seq<char>, i: int, items: Seq<Val>)
    requires
        items.len() >= 1,
        forall|x: int|
            0 <= x < items.len() ==> renderable(#[trigger] items[x]) && !(items[x] is Array) && !(
            items[x] is Dict) && !(items[x] is Null),
        0 <= i,
        i + render_items(items).len() + 1 <= s.len(),
        s.subrange(i, i + render_items(items).len()) == render_items(items),
        s[i + render_items(items).len()] == ']',
    ensures
        parse_items(s, i) == Some((items, i + render_items(items).len() + 1)),
    decreases items.len(),
{
    let ri = render_items(items);
    let r0 = render_value(items[0]);
    assert(forall|x: int| 0 <= x < ri.len() ==> s[i + x] == #[trigger] ri[x]);
    if items.len() == 1 {
        assert(ri == r0);
        lemma_parse_scalar_render(s, i, items[0]);
        let j = i + r0.len();
        assert(s[j] == ']');
        assert(skip_ws(s, j) == j);
        assert(seq![items[0]] =~= items);
    } else {
        let rest = items.drop_first();
        let rr = render_items(rest);
        assert(ri == r0 + seq![',', ' '] + rr);
        assert forall|x: int| 0 <= x < r0.len() implies #[trigger] s.subrange(i, i + r0.len())[x]
            == r0[x] by {
            assert(s[i + x] == ri[x]);
            assert(ri[x] == r0[x]);
        }
        assert(s.subrange(i, i + r0.len()) =~= r0);
        assert(s[i + r0.len()] == ri[r0.len() as int] && ri[r0.len() as int] == ',');
        lemma_parse_scalar_render(s, i, items[0]);
        let j = i + r0.len();
        assert(skip_ws(s, j) == j);
        assert(s[j + 1] == ri[r0.len() as int + 1] && ri[r0.len() as int + 1] == ' ');
        let m = j + 2;
        if m < s.len() {
            if m == i + ri.len() {
                assert(s[m] == ']');
            } else {
                assert(rest[0] == items[1]);
                lemma_render_first_char(rest[0]);
                assert(s[m] == ri[r0.len() as int + 2]);
                assert(ri[r0.len() as int + 2] == rr[0]);
                assert(rr[0] == render_value(rest[0])[0]);
            }
            assert(!is_ws(s[m]));
        }
        lemma_skip_ws_exact(s, j + 1, m);
        assert forall|x: int| 0 <= x < rr.len() implies #[trigger] s.subrange(m, m + rr.len())[x]
            == rr[x] by {
            assert(s[m + x] == ri[r0.len() as int + 2 + x]);
            assert(ri[r0.len() as int + 2 + x] == rr[x]);
        }
        assert(s.subrange(m, m + rr.len()) =~= rr);
        assert(s[m + rr.len()] == ']');
        assert forall|x: int|
            0 <= x < rest.len() implies renderable(#[trigger] rest[x]) && !(rest[x] is Array) && !(
        rest[x] is Dict) && !(rest[x] is Null) by {
            assert(rest[x] == items[x + 1]);
        }
        lemma_parse_items_render(s, m, rest);
        assert(seq![items[0]] + rest =~= items);
    }
}

/// A rendered value — a scalar or an array of scalars — followed by a
/// value-ending character or by the end of the text, parses back as exactly
/// the value it was rendered from.
pub proof fn lemma_parse_value_render(s: Seq<char>, i: int, v: Val)
    requires
        renderable(v),
        !(v is Dict),
        !(v is Null),
        0 <= i,
        i + render_value(v).len() <= s.len(),
        s.subrange(i, i + render_value(v).len()) == render_value(v),
        i + render_value(v).len() == s.len() || is_value_end(s[i + render_value(v).len()]),
    ensures
        parse_value(s, i) == Some((v, i + render_value(v).len())),
{
    let r = render_value(v);
    let e = i + r.len();
    assert(forall|x: int| 0 <= x < r.len() ==> s[i + x] == #[trigger] r[x]);
    match v {
        Val::Array(items) => {
            let ri = render_items(items);
            assert(r == seq!['['] + ri + seq![']']);
            assert(r[0] == (seq!['['] + ri)[0]);
            assert((seq!['['] + ri)[0] == '[');
            assert(s[i] == r[0]);
            assert(s[i] == '[');
            assert(s[e - 1] == r[r.len() as int - 1] && r[r.len() as int - 1] == ']');
            if items.len() == 0 {
                assert(ri.len() == 0);
                assert(s[i + 1] == ']');
                assert(skip_ws(s, i + 1) == i + 1);
                assert(items =~= Seq::<Val>::empty());
                assert(e == i + 2);
                assert(parse_value(s, i) == Some((Val::Array(items), e)));
            } else {
                lemma_render_first_char(items[0]);
                assert(s[i + 1] == r[1]);
                assert(r[1] == ri[0]);
                assert(ri[0] == render_value(items[0])[0]) by {
                    if items.len() == 1 {
                        assert(ri == render_value(items[0]));
                    } else {
                        assert(ri == render_value(items[0]) + seq![',', ' '] + render_items(
                            items.drop_first(),
                        ));
                    }
                }
                assert(!is_ws(s[i + 1]) && s[i + 1] != ']');
                assert(skip_ws(s, i + 1) == i + 1);
                assert forall|x: int| 0 <= x < ri.len() implies #[trigger] s.subrange(
                    i + 1,
                    i + 1 + ri.len(),
                )[x] == ri[x] by {
                    assert(s[i + 1 + x] == r[1 + x]);
                    assert(r[1 + x] == ri[x]);
                }
                assert(s.subrange(i + 1, i + 1 + ri.len()) =~= ri);
                assert(s[i + 1 + ri.len()] == ']');
                lemma_parse_items_render(s, i + 1, items);
                assert(parse_items(s, i + 1) == Some((items, e)));
                assert(parse_value(s, i) == Some((Val::Array(items), e)));
            }
        },
        _ => {
            lemma_render_first_char(v);
            assert(s[i] == r[0]);
            lemma_parse_scalar_render(s, i, v);
        },
    }
}

/// Whether a key is a bare key: nonempty, of bare-key characters only.
pub open spec fn bare_key_wf(key: Seq<char>) -> bool {
    key.len() > 0 && forall|i: int| 0 <= i < key.len() ==> is_bare_char(#[trigger] key[i])
}

/// The round trip of one rendered assignment: the line the generator writes
/// for a key and a renderable value reads back as an assignment of exactly
/// that value to exactly that key.
pub proof fn lemma_render_line_shape(key: Seq<char>, v: Val)
    requires
        bare_key_wf(key),
        renderable(v),
        !(v is Dict),
        !(v is Null),
    ensures
        line_shape(key + seq![' ', '=', ' '] + render_value(v)) == LineShape::KeyVal(key, v),
{
    let r = render_value(v);
    let line = key + seq![' ', '=', ' '] + r;
    let kl = key.len() as int;
    assert(forall|x: int| 0 <= x < key.len() ==> line[x] == #[trigger] key[x]);
    assert(line[kl] == ' ' && line[kl + 1] == '=' && line[kl + 2] == ' ');
    assert(forall|x: int| 0 <= x < r.len() ==> line[kl + 3 + x] == #[trigger] r[x]);
    assert(is_bare_char(line[0]) && !is_ws(line[0]));
    assert(skip_ws(line, 0) == 0);
    assert(line[0] != '#' && line[0] != '[');
    lemma_scan_bare_exact(line, 0, kl);
    assert(skip_ws(line, kl) == kl + 1) by {
        lemma_skip_ws_exact(line, kl, kl + 1);
    }
    match v {
        Val::Array(_) => {
            assert(line[kl + 3] == '[');
        },
        _ => {
            lemma_render_first_char(v);
            assert(line[kl + 3] == r[0]);
        },
    }
    assert(skip_ws(line, kl + 2) == kl + 3) by {
        lemma_skip_ws_exact(line, kl + 2, kl + 3);
    }
    assert forall|x: int| 0 <= x < r.len() implies #[trigger] line.subrange(
        kl + 3,
        kl + 3 + r.len(),
    )[x] == r[x] by {
        assert(line[kl + 3 + x] == r[x]);
    }
    assert(line.subrange(kl + 3, kl + 3 + r.len()) =~= r);
    lemma_parse_value_render(line, kl + 3, v);
    assert(skip_ws(line, line.len() as int) == line.len() as int);
    assert(line.subrange(0, kl) =~= key);
}


/// A text without newlines.
pub open spec fn no_newline(s: Seq<char>) -> bool {
    forall|i: int| 0 <= i < s.len() ==> #[trigger] s[i] != '\n'
}

/// Splitting walks over a newline-free prefix, gathering it into the current
/// line.
proof fn lemma_lines_acc_skip(a: Seq<char>, b: Seq<char>, cur: Seq<char>)
    requires
        no_newline(a),
    ensures
        lines_acc(a + b, cur) == lines_acc(b, cur + a),
    decreases a.len(),
{
    if a.len() == 0 {
        assert(a + b =~= b);
        assert(cur + a =~= cur);
    } else {
        assert((a + b)[0] == a[0]);
        assert((a + b).len() > 0);
        assert((a + b).drop_first() =~= a.drop_first() + b);
        assert(no_newline(a.drop_first())) by {
            assert(forall|i: int|
                0 <= i < a.drop_first().len() ==> #[trigger] a.drop_first()[i] == a[i + 1]);
        }
        lemma_lines_acc_skip(a.drop_first(), b, cur.push(a[0]));
        assert(cur.push(a[0]) + a.drop_first() =~= cur + a);
    }
}

/// A newline ends the current line.
proof fn lemma_lines_acc_newline(b: Seq<char>, cur: Seq<char>)
    ensures
        lines_acc(seq!['\n'] + b, cur) == seq![cur] + lines_acc(b, Seq::empty()),
{
    assert((seq!['\n'] + b)[0] == '\n');
    assert((seq!['\n'] + b).drop_first() =~= b);
}

/// The first newline-terminated line splits off the front of a document.
proof fn lemma_split_first_line(line: Seq<char>, rest: Seq<char>)
    requires
        no_newline(line),
    ensures
        split_lines(line + seq!['\n'] + rest) == seq![line] + split_lines(rest),
{
    assert(line + seq!['\n'] + rest =~= line + (seq!['\n'] + rest));
    lemma_lines_acc_skip(line, seq!['\n'] + rest, Seq::empty());
    assert(Seq::<char>::empty() + line =~= line);
    lemma_lines_acc_newline(rest, line);
}

/// A line whose first character is the comment sign is blank to the parser.
proof fn lemma_comment_line_blank(doc: Seq<char>)
    ensures
        line_shape(seq!['#', ' '] + doc) == LineShape::Blank,
{
    let line = seq!['#', ' '] + doc;
    assert(line[0] == '#');
    assert(!is_ws(line[0]));
    assert(skip_ws(line, 0) == 0);
}

/// The empty document is one empty line, which is blank.
proof fn lemma_split_empty()
    ensures
        split_lines(Seq::empty()) == seq![Seq::<char>::empty()],
        line_shape(Seq::empty()) == LineShape::Blank,
{
    assert(skip_ws(Seq::<char>::empty(), 0) == 0);
}

/// Folding a suffix of lines embedded at an offset in a longer list comes to
/// the same successful end.
proof fn lemma_parse_lines_offset(
    full: Seq<Seq<char>>,
    off: int,
    part: Seq<Seq<char>>,
    i: int,
    tree: Seq<(Seq<char>, Val)>,
    path: Seq<Seq<char>>,
    out: Seq<(Seq<char>, Val)>,
)
    requires
        0 <= off,
        full.len() == off + part.len(),
        forall|j: int| 0 <= j < part.len() ==> full[off + j] == #[trigger] part[j],
        0 <= i <= part.len(),
        parse_lines(part, i, tree, path) == Ok::<_, (int, crate::toml::ParseErrorKind)>(out),
    ensures
        parse_lines(full, off + i, tree, path) == Ok::<_, (int, crate::toml::ParseErrorKind)>(out),
    decreases part.len() - i,
{
    if i < part.len() {
        assert(full[off + i] == part[i]);
        match line_shape(part[i]) {
            LineShape::Blank => {
                lemma_parse_lines_offset(full, off, part, i + 1, tree, path, out);
            },
            LineShape::Header(p) => {
                match crate::toml::ensure_path(tree, p, 0) {
                    Ok(t2) => {
                        lemma_parse_lines_offset(full, off, part, i + 1, t2, p, out);
                    },
                    Err(_) => {},
                }
            },
            LineShape::KeyVal(key, v) => {
                match crate::toml::insert_path(tree, path, 0, key, v) {
                    Ok(t2) => {
                        lemma_parse_lines_offset(full, off, part, i + 1, t2, path, out);
                    },
                    Err(_) => {},
                }
            },
            LineShape::Bad => {},
        }
    }
}


/// The dictionary a flat schema describes: each field's key bound to its
/// example value, in declaration order.
pub open spec fn leaf_entries(fields: Seq<(Seq<char>, NodeModel)>) -> Seq<(Seq<char>, Val)> {
    Seq::new(fields.len(), |i: int| (fields[i].0, fields[i].1->Leaf_1))
}

/// A flat, well-formed schema: every field a leaf under a bare key, keys
/// distinct, documentation on one line, and every example value one the
/// parser reads back.
pub open spec fn flat_schema_wf(fields: Seq<(Seq<char>, NodeModel)>) -> bool {
    (forall|i: int|
        0 <= i < fields.len() ==> (#[trigger] fields[i]).1 is Leaf && bare_key_wf(fields[i].0)
            && renderable(fields[i].1->Leaf_1) && !(fields[i].1->Leaf_1 is Dict) && !(
        fields[i].1->Leaf_1 is Null) && no_newline(render_value(fields[i].1->Leaf_1))
            && no_newline(fields[i].1->Leaf_0)) && crate::value::keys_unique(leaf_entries(fields))
}

/// A flat schema renders no sections.
proof fn lemma_render_tables_flat(fields: Seq<(Seq<char>, NodeModel)>, path: Seq<Seq<char>>)
    requires
        forall|i: int| 0 <= i < fields.len() ==> (#[trigger] fields[i]).1 is Leaf,
    ensures
        render_tables(fields, path) == Seq::<char>::empty(),
    decreases fields, 0int, fields.len(),
{
    if fields.len() > 0 {
        assert(fields[0].1 is Leaf);
        assert(forall|i: int|
            0 <= i < fields.drop_first().len() ==> (#[trigger] fields.drop_first()[i])
                == fields[i + 1]);
        lemma_render_tables_flat(fields.drop_first(), path);
        assert(render_tables(fields, path) =~= Seq::<char>::empty());
    }
}

/// A bare key holds no newline.
proof fn lemma_bare_key_no_newline(key: Seq<char>)
    requires
        bare_key_wf(key),
    ensures
        no_newline(key),
{
    assert forall|i: int| 0 <= i < key.len() implies #[trigger] key[i] != '\n' by {
        assert(is_bare_char(key[i]));
    }
}

/// Folding the rendered leaf lines of a flat schema over a table binds, after
/// the bindings already there, each key to its example value, in order.
#[verifier::rlimit(100)]
proof fn lemma_parse_flat_leaves(fields: Seq<(Seq<char>, NodeModel)>, tree: Seq<(Seq<char>, Val)>)
    requires
        flat_schema_wf(fields),
        crate::toml::entries_wf(tree),
        forall|i: int|
            0 <= i < fields.len() ==> crate::value::dict_get(
                tree,
                (#[trigger] fields[i]).0,
            ) is None,
    ensures
        parse_lines(split_lines(render_leaves(fields)), 0, tree, Seq::empty()) == Ok::<
            _,
            (int, crate::toml::ParseErrorKind),
        >(tree + leaf_entries(fields)),
    decreases fields.len(),
{
    if fields.len() == 0 {
        lemma_split_empty();
        assert(render_leaves(fields) =~= Seq::<char>::empty());
        let lines = split_lines(Seq::<char>::empty());
        assert(parse_lines(lines, 0, tree, Seq::empty()) == parse_lines(
            lines,
            1,
            tree,
            Seq::empty(),
        ));
        assert(leaf_entries(fields) =~= Seq::<(Seq<char>, Val)>::empty());
        assert(tree + leaf_entries(fields) =~= tree);
    } else {
        let key = fields[0].0;
        let doc = fields[0].1->Leaf_0;
        let ex = fields[0].1->Leaf_1;
        let rest = fields.drop_first();
        let restrender = render_leaves(rest);
        let kvline = key + seq![' ', '=', ' '] + render_value(ex);
        assert(render_leaves(fields) == render_leaf(key, doc, ex) + restrender);
        lemma_bare_key_no_newline(key);
        assert(no_newline(kvline)) by {
            assert forall|x: int| 0 <= x < kvline.len() implies #[trigger] kvline[x] != '\n' by {
                if x < key.len() {
                    assert(kvline[x] == key[x]);
                } else if x >= key.len() + 3 {
                    assert(kvline[x] == render_value(ex)[x - key.len() - 3]);
                }
            }
        }
        lemma_render_line_shape(key, ex);

        // The rest of the schema still satisfies the hypotheses over the
        // grown table.
        let tree2 = tree.push((key, ex));
        assert(crate::value::dict_get(tree, key) is None);
        crate::toml::lemma_set_key_absent(tree, key, ex);
        assert(crate::value::val_wf(ex)) by {
            match ex {
                Val::Array(items) => {
                    assert(forall|x: int|
                        0 <= x < items.len() ==> crate::value::val_wf(#[trigger] items[x]));
                },
                _ => {},
            }
        }
        assert(crate::toml::entries_wf(tree2)) by {
            crate::toml::lemma_set_key_wf(tree, key, ex);
        }
        assert(forall|i: int|
            0 <= i < rest.len() ==> #[trigger] rest[i] == fields[i + 1]);
        assert(flat_schema_wf(rest)) by {
            assert forall|i: int, j: int|
                0 <= i < j < leaf_entries(rest).len() implies (#[trigger] leaf_entries(
                rest,
            )[i]).0 != (#[trigger] leaf_entries(rest)[j]).0 by {
                assert(leaf_entries(rest)[i].0 == leaf_entries(fields)[i + 1].0);
                assert(leaf_entries(rest)[j].0 == leaf_entries(fields)[j + 1].0);
            }
        }
        assert forall|i: int|
            0 <= i < rest.len() implies crate::value::dict_get(
            tree2,
            (#[trigger] rest[i]).0,
        ) is None by {
            assert(rest[i] == fields[i + 1]);
            crate::merge::lemma_dict_get_concat(tree, seq![(key, ex)], rest[i].0);
            assert(tree2 =~= tree + seq![(key, ex)]);
            assert(leaf_entries(fields)[0].0 == key);
            assert(leaf_entries(fields)[i + 1].0 == rest[i].0);
            assert(rest[i].0 != key);
            assert(seq![(key, ex)].drop_first() =~= Seq::<(Seq<char>, Val)>::empty());
            assert(crate::value::dict_get(Seq::<(Seq<char>, Val)>::empty(), rest[i].0) is None);
            assert(crate::value::dict_get(seq![(key, ex)], rest[i].0) is None);
        }
        lemma_parse_flat_leaves(rest, tree2);

        // Split the first field's chunk off the rendered document.
        if doc.len() == 0 {
            assert(render_leaf(key, doc, ex) =~= kvline + seq!['\n']);
            assert(render_leaves(fields) =~= kvline + seq!['\n'] + restrender);
            lemma_split_first_line(kvline, restrender);
            let lines = split_lines(render_leaves(fields));
            assert(lines == seq![kvline] + split_lines(restrender));
            assert(lines[0] == kvline);
            assert(forall|j: int|
                0 <= j < split_lines(restrender).len() ==> lines[1 + j] == #[trigger] split_lines(
                    restrender,
                )[j]);
            lemma_parse_lines_offset(
                lines,
                1,
                split_lines(restrender),
                0,
                tree2,
                Seq::empty(),
                tree2 + leaf_entries(rest),
            );
            assert(crate::toml::insert_path(tree, Seq::empty(), 0, key, ex) == Ok::<
                _,
                crate::toml::ParseErrorKind,
            >(tree2));
            assert(parse_lines(lines, 0, tree, Seq::empty()) == parse_lines(
                lines,
                1,
                tree2,
                Seq::empty(),
            ));
            assert(tree2 + leaf_entries(rest) =~= tree + leaf_entries(fields));
        } else {
            let comment = seq!['#', ' '] + doc;
            assert(render_leaf(key, doc, ex) =~= comment + seq!['\n'] + (kvline + seq!['\n']));
            assert(render_leaves(fields) =~= comment + seq!['\n'] + (kvline + seq!['\n']
                + restrender));
            assert(no_newline(comment)) by {
                assert forall|x: int| 0 <= x < comment.len() implies #[trigger] comment[x]
                    != '\n' by {
                    if x >= 2 {
                        assert(comment[x] == doc[x - 2]);
                    }
                }
            }
            lemma_split_first_line(comment, kvline + seq!['\n'] + restrender);
            assert(kvline + seq!['\n'] + restrender =~= (comment + seq!['\n'] + (kvline
                + seq!['\n'] + restrender)).subrange(
                comment.len() as int + 1,
                (comment + seq!['\n'] + (kvline + seq!['\n'] + restrender)).len() as int,
            ));
            lemma_split_first_line(kvline, restrender);
            let lines = split_lines(render_leaves(fields));
            assert(lines == seq![comment] + (seq![kvline] + split_lines(restrender)));
            assert(lines[0] == comment);
            assert(lines[1] == kvline);
            lemma_comment_line_blank(doc);
            assert(forall|j: int|
                0 <= j < split_lines(restrender).len() ==> lines[2 + j] == #[trigger] split_lines(
                    restrender,
                )[j]);
            lemma_parse_lines_offset(
                lines,
                2,
                split_lines(restrender),
                0,
                tree2,
                Seq::empty(),
                tree2 + leaf_entries(rest),
            );
            assert(crate::toml::insert_path(tree, Seq::empty(), 0, key, ex) == Ok::<
                _,
                crate::toml::ParseErrorKind,
            >(tree2));
            assert(parse_lines(lines, 0, tree, Seq::empty()) == parse_lines(
                lines,
                1,
                tree,
                Seq::empty(),
            ));
            assert(parse_lines(lines, 1, tree, Seq::empty()) == parse_lines(
                lines,
                2,
                tree2,
                Seq::empty(),
            ));
            assert(tree2 + leaf_entries(rest) =~= tree + leaf_entries(fields));
        }
    }
}

/// The round trip of a generated flat document: rendering a flat,
/// well-formed schema and loading the text back yields exactly the
/// dictionary the schema describes — every field present, bound to its
/// example value, in declaration order.
pub proof fn lemma_flat_schema_roundtrip(fields: Seq<(Seq<char>, NodeModel)>)
    requires
        flat_schema_wf(fields),
    ensures
        crate::toml::spec_parse_toml(spec_render(fields)) == Ok::<
            _,
            (int, crate::toml::ParseErrorKind),
        >(Val::Dict(leaf_entries(fields))),
{
    lemma_render_tables_flat(fields, Seq::empty());
    assert(spec_render(fields) =~= render_leaves(fields));
    assert(crate::toml::entries_wf(Seq::<(Seq<char>, Val)>::empty()));
    lemma_parse_flat_leaves(fields, Seq::empty());
    assert(Seq::<(Seq<char>, Val)>::empty() + leaf_entries(fields) =~= leaf_entries(fields));
}


/// Every segment of a path is a bare key.
pub open spec fn path_wf(path: Seq<Seq<char>>) -> bool {
    path.len() > 0 && forall|i: int| 0 <= i < path.len() ==> bare_key_wf(#[trigger] path[i])
}

/// A dotted well-formed path, followed by a character that is neither a dot
/// nor a bare-key character, parses back as exactly its segments.
proof fn lemma_parse_dotted_join(s: Seq<char>, i: int, path: Seq<Seq<char>>)
    requires
        path_wf(path),
        0 <= i,
        i + join_path(path).len() <= s.len(),
        s.subrange(i, i + join_path(path).len()) == join_path(path),
        i + join_path(path).len() == s.len() || (!is_bare_char(s[i + join_path(path).len()])
            && s[i + join_path(path).len()] != '.'),
    ensures
        crate::toml::parse_dotted(s, i) == Some((path, i + join_path(path).len())),
    decreases path.len(),
{
    let jp = join_path(path);
    let e = i + jp.len();
    let head = path[0];
    assert(forall|x: int| 0 <= x < jp.len() ==> s[i + x] == #[trigger] jp[x]);
    if path.len() == 1 {
        assert(jp == head);
        assert forall|x: int| i <= x < e implies is_bare_char(#[trigger] s[x]) by {
            assert(s[x] == jp[x - i]);
        }
        lemma_scan_bare_exact(s, i, e);
        assert(s.subrange(i, e) =~= head);
        assert(seq![s.subrange(i, e)] =~= path);
    } else {
        let rest = path.drop_first();
        assert(jp == head + seq!['.'] + join_path(rest));
        let hl = head.len() as int;
        assert forall|x: int| i <= x < i + hl implies is_bare_char(#[trigger] s[x]) by {
            assert(s[x] == jp[x - i]);
            assert(jp[x - i] == head[x - i]);
        }
        assert(s[i + hl] == jp[hl] && jp[hl] == '.');
        lemma_scan_bare_exact(s, i, i + hl);
        assert(s.subrange(i, i + hl) =~= head);
        assert(path_wf(rest)) by {
            assert(forall|x: int| 0 <= x < rest.len() ==> #[trigger] rest[x] == path[x + 1]);
        }
        assert forall|x: int| 0 <= x < join_path(rest).len() implies #[trigger] s.subrange(
            i + hl + 1,
            i + hl + 1 + join_path(rest).len(),
        )[x] == join_path(rest)[x] by {
            assert(s[i + hl + 1 + x] == jp[hl + 1 + x]);
            assert(jp[hl + 1 + x] == join_path(rest)[x]);
        }
        assert(s.subrange(i + hl + 1, i + hl + 1 + join_path(rest).len()) =~= join_path(rest));
        lemma_parse_dotted_join(s, i + hl + 1, rest);
        assert(seq![s.subrange(i, i + hl)] + rest =~= path);
    }
}

/// The round trip of one rendered section header: the line the generator
/// writes for a section path reads back as a header of exactly that path.
pub proof fn lemma_render_header_shape(path: Seq<Seq<char>>)
    requires
        path_wf(path),
    ensures
        line_shape(seq!['['] + join_path(path) + seq![']']) == LineShape::Header(path),
{
    let jp = join_path(path);
    let line = seq!['['] + jp + seq![']'];
    assert(line[0] == '[');
    assert(skip_ws(line, 0) == 0);
    assert(forall|x: int| 0 <= x < jp.len() ==> line[1 + x] == #[trigger] jp[x]);
    assert(line[1 + jp.len() as int] == ']');
    assert forall|x: int| 0 <= x < jp.len() implies #[trigger] line.subrange(
        1,
        1 + jp.len() as int,
    )[x] == jp[x] by {
        assert(line[1 + x] == jp[x]);
    }
    assert(line.subrange(1, 1 + jp.len() as int) =~= jp);
    lemma_parse_dotted_join(line, 1, path);
    assert(skip_ws(line, line.len() as int) == line.len() as int);
}


/// The leaf bindings of a table's fields, in declaration order.
pub open spec fn leaf_part(fields: Seq<(Seq<char>, NodeModel)>) -> Seq<(Seq<char>, Val)>
    decreases fields.len(),
{
    if fields.len() == 0 {
        Seq::empty()
    } else {
        (match fields[0].1 {
            NodeModel::Leaf(_, ex) => seq![(fields[0].0, ex)],
            NodeModel::Table(_) => Seq::empty(),
        }) + leaf_part(fields.drop_first())
    }
}

/// The section bindings of a table's fields, one level deep, in declaration
/// order: each section binds its own leaf fields.
pub open spec fn section_part(fields: Seq<(Seq<char>, NodeModel)>) -> Seq<(Seq<char>, Val)>
    decreases fields.len(),
{
    if fields.len() == 0 {
        Seq::empty()
    } else {
        (match fields[0].1 {
            NodeModel::Leaf(_, _) => Seq::empty(),
            NodeModel::Table(sub) => seq![(fields[0].0, Val::Dict(leaf_entries(sub)))],
        }) + section_part(fields.drop_first())
    }
}

/// A schema of leaves and one level of sections, every section flat: bare
/// distinct keys throughout, and every example value one the parser reads
/// back from its own line.
pub open spec fn depth1_schema_wf(fields: Seq<(Seq<char>, NodeModel)>) -> bool {
    (forall|i: int|
        0 <= i < fields.len() ==> bare_key_wf((#[trigger] fields[i]).0) && match fields[i].1 {
            NodeModel::Leaf(doc, ex) => renderable(ex) && !(ex is Dict) && !(ex is Null)
                && no_newline(render_value(ex)) && no_newline(doc),
            NodeModel::Table(sub) => flat_schema_wf(sub),
        }) && (forall|i: int, j: int|
        0 <= i < j < fields.len() ==> (#[trigger] fields[i]).0 != (#[trigger] fields[j]).0)
}

/// A renderable value that is not a dictionary is well-formed.
proof fn lemma_renderable_wf(v: Val)
    requires
        renderable(v),
        !(v is Dict),
        !(v is Null),
    ensures
        crate::value::val_wf(v),
{
    match v {
        Val::Array(items) => {
            assert(forall|x: int|
                0 <= x < items.len() ==> crate::value::val_wf(#[trigger] items[x]));
        },
        _ => {},
    }
}

/// The empty document, and any document of blank lines, folds to the table
/// it started with, whatever the section path in force.
proof fn lemma_parse_empty_doc(tree: Seq<(Seq<char>, Val)>, path: Seq<Seq<char>>)
    ensures
        parse_lines(split_lines(Seq::empty()), 0, tree, path) == Ok::<
            _,
            (int, crate::toml::ParseErrorKind),
        >(tree),
{
    lemma_split_empty();
    let lines = split_lines(Seq::<char>::empty());
    assert(parse_lines(lines, 0, tree, path) == parse_lines(lines, 1, tree, path));
}

/// Folding the rendered leaf lines of a table's fields, at the root path,
/// binds each leaf key to its example value, then continues with the rest of
/// the document.
#[verifier::rlimit(100)]
proof fn lemma_parse_leaves_then(
    fields: Seq<(Seq<char>, NodeModel)>,
    tree: Seq<(Seq<char>, Val)>,
    suffix: Seq<char>,
    out: Seq<(Seq<char>, Val)>,
)
    requires
        forall|i: int|
            0 <= i < fields.len() ==> bare_key_wf((#[trigger] fields[i]).0) && (fields[i].1 is Leaf
                ==> renderable(fields[i].1->Leaf_1) && !(fields[i].1->Leaf_1 is Dict) && !(
            fields[i].1->Leaf_1 is Null) && no_newline(render_value(fields[i].1->Leaf_1))
                && no_newline(fields[i].1->Leaf_0)),
        forall|i: int, j: int|
            0 <= i < j < fields.len() ==> (#[trigger] fields[i]).0 != (#[trigger] fields[j]).0,
        crate::toml::entries_wf(tree),
        forall|i: int|
            0 <= i < fields.len() ==> crate::value::dict_get(
                tree,
                (#[trigger] fields[i]).0,
            ) is None,
        forall|pp: Seq<Seq<char>>|
            #[trigger] parse_lines(split_lines(suffix), 0, tree + leaf_part(fields), pp) == Ok::<
                _,
                (int, crate::toml::ParseErrorKind),
            >(out),
    ensures
        parse_lines(split_lines(render_leaves(fields) + suffix), 0, tree, Seq::empty()) == Ok::<
            _,
            (int, crate::toml::ParseErrorKind),
        >(out),
    decreases fields.len(),
{
    if fields.len() == 0 {
        assert(render_leaves(fields) =~= Seq::<char>::empty());
        assert(render_leaves(fields) + suffix =~= suffix);
        assert(tree + leaf_part(fields) =~= tree);
    } else {
        let key = fields[0].0;
        let rest = fields.drop_first();
        assert(forall|i: int| 0 <= i < rest.len() ==> #[trigger] rest[i] == fields[i + 1]);
        match fields[0].1 {
            NodeModel::Table(_) => {
                assert(render_leaves(fields) =~= render_leaves(rest));
                assert(render_leaves(fields) + suffix =~= render_leaves(rest) + suffix);
                assert(leaf_part(fields) =~= leaf_part(rest));
                lemma_parse_leaves_then(rest, tree, suffix, out);
            },
            NodeModel::Leaf(doc, ex) => {
                let kvline = key + seq![' ', '=', ' '] + render_value(ex);
                lemma_bare_key_no_newline(key);
                assert(no_newline(kvline)) by {
                    assert forall|x: int| 0 <= x < kvline.len() implies #[trigger] kvline[x]
                        != '\n' by {
                        if x < key.len() {
                            assert(kvline[x] == key[x]);
                        } else if x >= key.len() + 3 {
                            assert(kvline[x] == render_value(ex)[x - key.len() - 3]);
                        }
                    }
                }
                lemma_render_line_shape(key, ex);
                let tree2 = tree.push((key, ex));
                crate::toml::lemma_set_key_absent(tree, key, ex);
                lemma_renderable_wf(ex);
                crate::toml::lemma_set_key_wf(tree, key, ex);
                assert forall|i: int|
                    0 <= i < rest.len() implies crate::value::dict_get(
                    tree2,
                    (#[trigger] rest[i]).0,
                ) is None by {
                    crate::merge::lemma_dict_get_concat(tree, seq![(key, ex)], rest[i].0);
                    assert(tree2 =~= tree + seq![(key, ex)]);
                    assert(rest[i].0 == fields[i + 1].0);
                    assert(rest[i].0 != key);
                    assert(seq![(key, ex)].drop_first() =~= Seq::<(Seq<char>, Val)>::empty());
                    assert(crate::value::dict_get(
                        Seq::<(Seq<char>, Val)>::empty(),
                        rest[i].0,
                    ) is None);
                    assert(crate::value::dict_get(seq![(key, ex)], rest[i].0) is None);
                }
                assert(tree2 + leaf_part(rest) =~= tree + leaf_part(fields));
                lemma_parse_leaves_then(rest, tree2, suffix, out);
                if doc.len() == 0 {
                    assert(render_leaf(key, doc, ex) =~= kvline + seq!['\n']);
                    assert(render_leaves(fields) + suffix =~= kvline + seq!['\n'] + (render_leaves(
                        rest,
                    ) + suffix));
                    lemma_split_first_line(kvline, render_leaves(rest) + suffix);
                    let lines = split_lines(render_leaves(fields) + suffix);
                    assert(lines == seq![kvline] + split_lines(render_leaves(rest) + suffix));
                    assert(lines[0] == kvline);
                    assert(forall|j: int|
                        0 <= j < split_lines(render_leaves(rest) + suffix).len() ==> lines[1 + j]
                            == #[trigger] split_lines(render_leaves(rest) + suffix)[j]);
                    assert(crate::toml::insert_path(tree, Seq::empty(), 0, key, ex) == Ok::<
                        _,
                        crate::toml::ParseErrorKind,
                    >(tree2));
                    lemma_parse_lines_offset(
                        lines,
                        1,
                        split_lines(render_leaves(rest) + suffix),
                        0,
                        tree2,
                        Seq::empty(),
                        out,
                    );
                } else {
                    let comment = seq!['#', ' '] + doc;
                    assert(no_newline(comment)) by {
                        assert forall|x: int| 0 <= x < comment.len() implies #[trigger] comment[x]
                            != '\n' by {
                            if x >= 2 {
                                assert(comment[x] == doc[x - 2]);
                            }
                        }
                    }
                    assert(render_leaves(fields) + suffix =~= comment + seq!['\n'] + (kvline
                        + seq!['\n'] + (render_leaves(rest) + suffix)));
                    lemma_split_first_line(
                        comment,
                        kvline + seq!['\n'] + (render_leaves(rest) + suffix),
                    );
                    assert(kvline + seq!['\n'] + (render_leaves(rest) + suffix) =~= kvline
                        + seq!['\n'] + (render_leaves(rest) + suffix));
                    lemma_split_first_line(kvline, render_leaves(rest) + suffix);
                    let lines = split_lines(render_leaves(fields) + suffix);
                    assert(lines == seq![comment] + (seq![kvline] + split_lines(render_leaves(rest)
                        + suffix)));
                    assert(lines[0] == comment);
                    assert(lines[1] == kvline);
                    lemma_comment_line_blank(doc);
                    assert(forall|j: int|
                        0 <= j < split_lines(render_leaves(rest) + suffix).len() ==> lines[2 + j]
                            == #[trigger] split_lines(render_leaves(rest) + suffix)[j]);
                    assert(crate::toml::insert_path(tree, Seq::empty(), 0, key, ex) == Ok::<
                        _,
                        crate::toml::ParseErrorKind,
                    >(tree2));
                    lemma_parse_lines_offset(
                        lines,
                        2,
                        split_lines(render_leaves(rest) + suffix),
                        0,
                        tree2,
                        Seq::empty(),
                        out,
                    );
                    assert(parse_lines(lines, 0, tree, Seq::empty()) == parse_lines(
                        lines,
                        1,
                        tree,
                        Seq::empty(),
                    ));
                }
            },
        }
    }
}


/// Rebinding the last-appended key leaves everything before it alone.
proof fn lemma_set_key_concat_last(
    base: Seq<(Seq<char>, Val)>,
    k: Seq<char>,
    old_v: Val,
    v: Val,
)
    requires
        crate::value::dict_get(base, k) is None,
    ensures
        crate::toml::set_key(base + seq![(k, old_v)], k, v) =~= base + seq![(k, v)],
    decreases base.len(),
{
    let whole = base + seq![(k, old_v)];
    if base.len() == 0 {
        assert(whole =~= seq![(k, old_v)]);
        assert(crate::toml::set_key(whole, k, v) =~= seq![(k, v)] + whole.drop_first());
        assert(whole.drop_first() =~= Seq::<(Seq<char>, Val)>::empty());
    } else {
        assert(whole[0] == base[0]);
        assert(base[0].0 != k);
        assert(whole.drop_first() =~= base.drop_first() + seq![(k, old_v)]);
        lemma_set_key_concat_last(base.drop_first(), k, old_v, v);
        assert(crate::toml::set_key(whole, k, v) =~= seq![base[0]] + (base.drop_first() + seq![
            (k, v),
        ]));
    }
}

/// Folding the rendered leaf lines of a flat section, under its path, binds
/// each key to its example inside the section, then continues with the rest
/// of the document.
#[verifier::rlimit(100)]
proof fn lemma_parse_section_leaves_then(
    subfields: Seq<(Seq<char>, NodeModel)>,
    k: Seq<char>,
    base: Seq<(Seq<char>, Val)>,
    done: Seq<(Seq<char>, Val)>,
    suffix: Seq<char>,
    out: Seq<(Seq<char>, Val)>,
)
    requires
        flat_schema_wf(subfields),
        crate::toml::entries_wf(base),
        crate::toml::entries_wf(done),
        crate::value::dict_get(base, k) is None,
        forall|i: int|
            0 <= i < subfields.len() ==> crate::value::dict_get(
                done,
                (#[trigger] subfields[i]).0,
            ) is None,
        forall|pp: Seq<Seq<char>>|
            #[trigger] parse_lines(
                split_lines(suffix),
                0,
                base + seq![(k, Val::Dict(done + leaf_entries(subfields)))],
                pp,
            ) == Ok::<_, (int, crate::toml::ParseErrorKind)>(out),
    ensures
        parse_lines(
            split_lines(render_leaves(subfields) + suffix),
            0,
            base + seq![(k, Val::Dict(done))],
            seq![k],
        ) == Ok::<_, (int, crate::toml::ParseErrorKind)>(out),
    decreases subfields.len(),
{
    let tree = base + seq![(k, Val::Dict(done))];
    if subfields.len() == 0 {
        assert(render_leaves(subfields) =~= Seq::<char>::empty());
        assert(render_leaves(subfields) + suffix =~= suffix);
        assert(leaf_entries(subfields) =~= Seq::<(Seq<char>, Val)>::empty());
        assert(done + leaf_entries(subfields) =~= done);
        assert(base + seq![(k, Val::Dict(done + leaf_entries(subfields)))] =~= tree);
    } else {
        let key = subfields[0].0;
        let doc = subfields[0].1->Leaf_0;
        let ex = subfields[0].1->Leaf_1;
        let rest = subfields.drop_first();
        assert(forall|i: int| 0 <= i < rest.len() ==> #[trigger] rest[i] == subfields[i + 1]);
        let kvline = key + seq![' ', '=', ' '] + render_value(ex);
        lemma_bare_key_no_newline(key);
        assert(no_newline(kvline)) by {
            assert forall|x: int| 0 <= x < kvline.len() implies #[trigger] kvline[x] != '\n' by {
                if x < key.len() {
                    assert(kvline[x] == key[x]);
                } else if x >= key.len() + 3 {
                    assert(kvline[x] == render_value(ex)[x - key.len() - 3]);
                }
            }
        }
        lemma_render_line_shape(key, ex);

        // The assignment inserts into the section at the path's end.
        crate::merge::lemma_dict_get_concat(base, seq![(k, Val::Dict(done))], k);
        assert(seq![(k, Val::Dict(done))].drop_first() =~= Seq::<(Seq<char>, Val)>::empty());
        assert(crate::value::dict_get(tree, k) == Some(Val::Dict(done)));
        crate::toml::lemma_set_key_absent(done, key, ex);
        let done2 = done.push((key, ex));
        assert(crate::toml::insert_path(done, seq![k], 1, key, ex) == Ok::<
            _,
            crate::toml::ParseErrorKind,
        >(done2)) by {
            assert(done2 =~= crate::toml::set_key(done, key, ex));
        }
        lemma_set_key_concat_last(base, k, Val::Dict(done), Val::Dict(done2));
        let tree2 = base + seq![(k, Val::Dict(done2))];
        assert(crate::toml::set_key(tree, k, Val::Dict(done2)) =~= tree2);
        assert(crate::toml::insert_path(tree, seq![k], 0, key, ex) == Ok::<
            _,
            crate::toml::ParseErrorKind,
        >(tree2));

        // The remaining leaves still satisfy the hypotheses.
        lemma_renderable_wf(ex);
        crate::toml::lemma_set_key_wf(done, key, ex);
        assert(crate::toml::entries_wf(done2));
        assert forall|i: int|
            0 <= i < rest.len() implies crate::value::dict_get(
            done2,
            (#[trigger] rest[i]).0,
        ) is None by {
            crate::merge::lemma_dict_get_concat(done, seq![(key, ex)], rest[i].0);
            assert(done2 =~= done + seq![(key, ex)]);
            assert(leaf_entries(subfields)[0].0 == key);
            assert(leaf_entries(subfields)[i + 1].0 == rest[i].0);
            assert(rest[i].0 != key);
            assert(seq![(key, ex)].drop_first() =~= Seq::<(Seq<char>, Val)>::empty());
            assert(crate::value::dict_get(Seq::<(Seq<char>, Val)>::empty(), rest[i].0) is None);
            assert(crate::value::dict_get(seq![(key, ex)], rest[i].0) is None);
        }
        assert(flat_schema_wf(rest)) by {
            assert forall|i: int, j: int|
                0 <= i < j < leaf_entries(rest).len() implies (#[trigger] leaf_entries(
                rest,
            )[i]).0 != (#[trigger] leaf_entries(rest)[j]).0 by {
                assert(leaf_entries(rest)[i].0 == leaf_entries(subfields)[i + 1].0);
                assert(leaf_entries(rest)[j].0 == leaf_entries(subfields)[j + 1].0);
            }
        }
        assert(done2 + leaf_entries(rest) =~= done + leaf_entries(subfields));
        lemma_parse_section_leaves_then(rest, k, base, done2, suffix, out);

        // Split the first leaf's chunk off the document.
        if doc.len() == 0 {
            assert(render_leaf(key, doc, ex) =~= kvline + seq!['\n']);
            assert(render_leaves(subfields) + suffix =~= kvline + seq!['\n'] + (render_leaves(rest)
                + suffix));
            lemma_split_first_line(kvline, render_leaves(rest) + suffix);
            let lines = split_lines(render_leaves(subfields) + suffix);
            assert(lines == seq![kvline] + split_lines(render_leaves(rest) + suffix));
            assert(lines[0] == kvline);
            assert(forall|j: int|
                0 <= j < split_lines(render_leaves(rest) + suffix).len() ==> lines[1 + j]
                    == #[trigger] split_lines(render_leaves(rest) + suffix)[j]);
            lemma_parse_lines_offset(
                lines,
                1,
                split_lines(render_leaves(rest) + suffix),
                0,
                tree2,
                seq![k],
                out,
            );
        } else {
            let comment = seq!['#', ' '] + doc;
            assert(no_newline(comment)) by {
                assert forall|x: int| 0 <= x < comment.len() implies #[trigger] comment[x]
                    != '\n' by {
                    if x >= 2 {
                        assert(comment[x] == doc[x - 2]);
                    }
                }
            }
            assert(render_leaves(subfields) + suffix =~= comment + seq!['\n'] + (kvline
                + seq!['\n'] + (render_leaves(rest) + suffix)));
            lemma_split_first_line(comment, kvline + seq!['\n'] + (render_leaves(rest) + suffix));
            lemma_split_first_line(kvline, render_leaves(rest) + suffix);
            let lines = split_lines(render_leaves(subfields) + suffix);
            assert(lines == seq![comment] + (seq![kvline] + split_lines(render_leaves(rest)
                + suffix)));
            assert(lines[0] == comment);
            assert(lines[1] == kvline);
            lemma_comment_line_blank(doc);
            assert(forall|j: int|
                0 <= j < split_lines(render_leaves(rest) + suffix).len() ==> lines[2 + j]
                    == #[trigger] split_lines(render_leaves(rest) + suffix)[j]);
            lemma_parse_lines_offset(
                lines,
                2,
                split_lines(render_leaves(rest) + suffix),
                0,
                tree2,
                seq![k],
                out,
            );
            assert(parse_lines(lines, 0, tree, seq![k]) == parse_lines(lines, 1, tree, seq![k]));
        }
    }
}


/// One rendered section — blank line, header, leaf lines — opens the section
/// fresh, fills it, and continues with the rest of the document, whatever
/// section path was in force before it.
proof fn lemma_parse_section_then(
    subfields: Seq<(Seq<char>, NodeModel)>,
    k: Seq<char>,
    base: Seq<(Seq<char>, Val)>,
    suffix: Seq<char>,
    out: Seq<(Seq<char>, Val)>,
    pp: Seq<Seq<char>>,
)
    requires
        flat_schema_wf(subfields),
        bare_key_wf(k),
        crate::toml::entries_wf(base),
        crate::value::dict_get(base, k) is None,
        forall|pp: Seq<Seq<char>>|
            #[trigger] parse_lines(
                split_lines(suffix),
                0,
                base + seq![(k, Val::Dict(leaf_entries(subfields)))],
                pp,
            ) == Ok::<_, (int, crate::toml::ParseErrorKind)>(out),
    ensures
        parse_lines(
            split_lines(
                seq!['\n', '['] + k + seq![']', '\n'] + (render_leaves(subfields) + suffix),
            ),
            0,
            base,
            pp,
        ) == Ok::<_, (int, crate::toml::ParseErrorKind)>(out),
{
    let header = seq!['['] + k + seq![']'];
    let text = seq!['\n', '['] + k + seq![']', '\n'] + (render_leaves(subfields) + suffix);
    lemma_bare_key_no_newline(k);
    assert(no_newline(header)) by {
        assert forall|x: int| 0 <= x < header.len() implies #[trigger] header[x] != '\n' by {
            if 1 <= x < 1 + k.len() {
                assert(header[x] == k[x - 1]);
            }
        }
    }
    assert(text =~= Seq::<char>::empty() + seq!['\n'] + (header + seq!['\n'] + (render_leaves(
        subfields,
    ) + suffix)));
    assert(no_newline(Seq::<char>::empty()));
    lemma_split_first_line(
        Seq::empty(),
        header + seq!['\n'] + (render_leaves(subfields) + suffix),
    );
    lemma_split_first_line(header, render_leaves(subfields) + suffix);
    let lines = split_lines(text);
    assert(lines == seq![Seq::<char>::empty()] + (seq![header] + split_lines(render_leaves(
        subfields,
    ) + suffix)));
    assert(lines[0] == Seq::<char>::empty());
    assert(lines[1] == header);
    assert(line_shape(Seq::<char>::empty()) == LineShape::Blank) by {
        lemma_split_empty();
    }
    assert(join_path(seq![k]) == k);
    assert(header =~= seq!['['] + join_path(seq![k]) + seq![']']);
    lemma_render_header_shape(seq![k]);
    assert(path_wf(seq![k]));
    assert(line_shape(header) == LineShape::Header(seq![k]));

    let opened = base + seq![(k, Val::Dict(Seq::empty()))];
    crate::toml::lemma_set_key_absent(base, k, Val::Dict(Seq::empty()));
    assert(crate::toml::ensure_path(base, seq![k], 0) == Ok::<
        _,
        crate::toml::ParseErrorKind,
    >(opened)) by {
        assert(crate::toml::ensure_path(Seq::<(Seq<char>, Val)>::empty(), seq![k], 1) == Ok::<
            _,
            crate::toml::ParseErrorKind,
        >(Seq::<(Seq<char>, Val)>::empty()));
        assert(crate::toml::set_key(base, k, Val::Dict(Seq::empty())) =~= opened);
    }

    assert(crate::toml::entries_wf(Seq::<(Seq<char>, Val)>::empty()));
    assert(Seq::<(Seq<char>, Val)>::empty() + leaf_entries(subfields) =~= leaf_entries(subfields));
    lemma_parse_section_leaves_then(subfields, k, base, Seq::empty(), suffix, out);
    assert(parse_lines(
        split_lines(render_leaves(subfields) + suffix),
        0,
        opened,
        seq![k],
    ) == Ok::<_, (int, crate::toml::ParseErrorKind)>(out));

    assert(forall|j: int|
        0 <= j < split_lines(render_leaves(subfields) + suffix).len() ==> lines[2 + j]
            == #[trigger] split_lines(render_leaves(subfields) + suffix)[j]);
    lemma_parse_lines_offset(
        lines,
        2,
        split_lines(render_leaves(subfields) + suffix),
        0,
        opened,
        seq![k],
        out,
    );
    assert(parse_lines(lines, 0, base, pp) == parse_lines(lines, 1, base, pp));
    assert(parse_lines(lines, 1, base, pp) == parse_lines(lines, 2, opened, seq![k]));
}

/// The rendered sections of a depth-one schema, processed in order, each
/// open their own table and fill it, whatever section path was in force.
proof fn lemma_parse_tables_then(
    fields: Seq<(Seq<char>, NodeModel)>,
    tree: Seq<(Seq<char>, Val)>,
    suffix: Seq<char>,
    out: Seq<(Seq<char>, Val)>,
)
    requires
        forall|i: int|
            0 <= i < fields.len() ==> bare_key_wf((#[trigger] fields[i]).0) && (fields[i].1 is Table
                ==> flat_schema_wf(fields[i].1->Table_0)),
        forall|i: int, j: int|
            0 <= i < j < fields.len() ==> (#[trigger] fields[i]).0 != (#[trigger] fields[j]).0,
        crate::toml::entries_wf(tree),
        forall|i: int|
            0 <= i < fields.len() && (#[trigger] fields[i]).1 is Table ==> crate::value::dict_get(
                tree,
                fields[i].0,
            ) is None,
        forall|pp: Seq<Seq<char>>|
            #[trigger] parse_lines(split_lines(suffix), 0, tree + section_part(fields), pp) == Ok::<
                _,
                (int, crate::toml::ParseErrorKind),
            >(out),
    ensures
        forall|pp: Seq<Seq<char>>|
            #[trigger] parse_lines(
                split_lines(render_tables(fields, Seq::empty()) + suffix),
                0,
                tree,
                pp,
            ) == Ok::<_, (int, crate::toml::ParseErrorKind)>(out),
    decreases fields,
{
    if fields.len() == 0 {
        assert(render_tables(fields, Seq::empty()) =~= Seq::<char>::empty());
        assert(render_tables(fields, Seq::empty()) + suffix =~= suffix);
        assert(tree + section_part(fields) =~= tree);
    } else {
        let k = fields[0].0;
        let rest = fields.drop_first();
        assert(forall|i: int| 0 <= i < rest.len() ==> #[trigger] rest[i] == fields[i + 1]);
        assert(decreases_to!(fields => fields.drop_first()));
        match fields[0].1 {
            NodeModel::Leaf(_, _) => {
                assert(render_tables(fields, Seq::empty()) =~= render_tables(rest, Seq::empty()));
                assert(render_tables(fields, Seq::empty()) + suffix =~= render_tables(
                    rest,
                    Seq::empty(),
                ) + suffix);
                assert(section_part(fields) =~= section_part(rest));
                lemma_parse_tables_then(rest, tree, suffix, out);
            },
            NodeModel::Table(sub) => {
                assert(forall|i: int| 0 <= i < sub.len() ==> (#[trigger] sub[i]).1 is Leaf);
                lemma_render_tables_flat(sub, Seq::empty().push(k));
                assert(Seq::<Seq<char>>::empty().push(k) =~= seq![k]);
                lemma_join_path_push(Seq::empty(), k);
                assert(join_path(Seq::<Seq<char>>::empty().push(k)) == k);
                assert(render_tables(fields, Seq::empty()) =~= seq!['\n', '['] + k + seq![
                    ']',
                    '\n',
                ] + (render_leaves(sub) + render_tables(rest, Seq::empty())));
                assert(render_tables(fields, Seq::empty()) + suffix =~= seq!['\n', '['] + k + seq![
                    ']',
                    '\n',
                ] + (render_leaves(sub) + (render_tables(rest, Seq::empty()) + suffix)));
                let tree2 = tree + seq![(k, Val::Dict(leaf_entries(sub)))];
                assert(crate::toml::entries_wf(tree2)) by {
                    assert(crate::value::val_wf(Val::Dict(leaf_entries(sub)))) by {
                        assert forall|x: int|
                            0 <= x < leaf_entries(sub).len() implies crate::value::val_wf(
                            (#[trigger] leaf_entries(sub)[x]).1,
                        ) by {
                            lemma_renderable_wf(sub[x].1->Leaf_1);
                        }
                    }
                    crate::toml::lemma_set_key_absent(tree, k, Val::Dict(leaf_entries(sub)));
                    crate::toml::lemma_set_key_wf(tree, k, Val::Dict(leaf_entries(sub)));
                    assert(crate::toml::set_key(tree, k, Val::Dict(leaf_entries(sub)))
                        =~= tree2);
                }
                assert forall|i: int|
                    0 <= i < rest.len() && (#[trigger] rest[i]).1 is Table implies
                    crate::value::dict_get(tree2, rest[i].0) is None by {
                    crate::merge::lemma_dict_get_concat(
                        tree,
                        seq![(k, Val::Dict(leaf_entries(sub)))],
                        rest[i].0,
                    );
                    assert(rest[i].0 == fields[i + 1].0);
                    assert(rest[i].0 != k);
                    assert(seq![(k, Val::Dict(leaf_entries(sub)))].drop_first() =~= Seq::<
                        (Seq<char>, Val),
                    >::empty());
                    assert(crate::value::dict_get(
                        Seq::<(Seq<char>, Val)>::empty(),
                        rest[i].0,
                    ) is None);
                    assert(crate::value::dict_get(
                        seq![(k, Val::Dict(leaf_entries(sub)))],
                        rest[i].0,
                    ) is None);
                }
                assert(tree2 + section_part(rest) =~= tree + section_part(fields));
                lemma_parse_tables_then(rest, tree2, suffix, out);
                assert forall|pp: Seq<Seq<char>>|
                    #[trigger] parse_lines(
                    split_lines(render_tables(fields, Seq::empty()) + suffix),
                    0,
                    tree,
                    pp,
                ) == Ok::<_, (int, crate::toml::ParseErrorKind)>(out) by {
                    lemma_parse_section_then(
                        sub,
                        k,
                        tree,
                        render_tables(rest, Seq::empty()) + suffix,
                        out,
                        pp,
                    );
                }
            },
        }
    }
}


/// The leaf bindings of a well-formed schema form a well-formed table whose
/// keys all name leaf fields.
proof fn lemma_leaf_part_props(fields: Seq<(Seq<char>, NodeModel)>)
    requires
        depth1_schema_wf(fields),
    ensures
        crate::toml::entries_wf(leaf_part(fields)),
        forall|q: Seq<char>|
            #[trigger] crate::value::dict_get(leaf_part(fields), q) is Some ==> exists|i: int|
                0 <= i < fields.len() && (#[trigger] fields[i]).0 == q && fields[i].1 is Leaf,
    decreases fields.len(),
{
    if fields.len() > 0 {
        let rest = fields.drop_first();
        assert(forall|i: int| 0 <= i < rest.len() ==> #[trigger] rest[i] == fields[i + 1]);
        lemma_leaf_part_props(rest);
        let lp = leaf_part(fields);
        let lpr = leaf_part(rest);
        assert forall|q: Seq<char>|
            #[trigger] crate::value::dict_get(lp, q) is Some implies exists|i: int|
                0 <= i < fields.len() && (#[trigger] fields[i]).0 == q && fields[i].1 is Leaf by {
            match fields[0].1 {
                NodeModel::Leaf(_, ex) => {
                    assert(lp =~= seq![(fields[0].0, ex)] + lpr);
                    crate::merge::lemma_dict_get_concat(seq![(fields[0].0, ex)], lpr, q);
                    if q == fields[0].0 {
                        assert(fields[0].0 == q && fields[0].1 is Leaf);
                    } else {
                        assert(seq![(fields[0].0, ex)].drop_first() =~= Seq::<
                            (Seq<char>, Val),
                        >::empty());
                        assert(crate::value::dict_get(
                            Seq::<(Seq<char>, Val)>::empty(),
                            q,
                        ) is None);
                        assert(crate::value::dict_get(seq![(fields[0].0, ex)], q) is None);
                        let i = choose|i: int|
                            0 <= i < rest.len() && (#[trigger] rest[i]).0 == q
                                && rest[i].1 is Leaf;
                        assert(fields[i + 1].0 == q && fields[i + 1].1 is Leaf);
                    }
                },
                NodeModel::Table(_) => {
                    assert(lp =~= lpr);
                    let i = choose|i: int|
                        0 <= i < rest.len() && (#[trigger] rest[i]).0 == q && rest[i].1 is Leaf;
                    assert(fields[i + 1].0 == q && fields[i + 1].1 is Leaf);
                },
            }
        }
        match fields[0].1 {
            NodeModel::Leaf(_, ex) => {
                assert(lp =~= seq![(fields[0].0, ex)] + lpr);
                lemma_renderable_wf(ex);
                assert forall|i: int, j: int| 0 <= i < j < lp.len() implies (#[trigger] lp[i]).0
                    != (#[trigger] lp[j]).0 by {
                    if i == 0 {
                        assert(lp[j] == lpr[j - 1]);
                        crate::value::lemma_dict_get_some(lpr, lpr[j - 1].0);
                        if crate::value::dict_get(lpr, lpr[j - 1].0) is None {
                            assert(lpr[j - 1].0 != lpr[j - 1].0);
                        }
                        let x = choose|x: int|
                            0 <= x < rest.len() && (#[trigger] rest[x]).0 == lpr[j - 1].0
                                && rest[x].1 is Leaf;
                        assert(fields[x + 1].0 == lpr[j - 1].0);
                        assert(fields[0].0 != fields[x + 1].0);
                    } else {
                        assert(lp[i] == lpr[i - 1] && lp[j] == lpr[j - 1]);
                    }
                }
                assert forall|i: int| 0 <= i < lp.len() implies crate::value::val_wf(
                    (#[trigger] lp[i]).1,
                ) by {
                    if i > 0 {
                        assert(lp[i] == lpr[i - 1]);
                    }
                }
            },
            NodeModel::Table(_) => {
                assert(lp =~= lpr);
            },
        }
    }
}

/// The round trip of a generated document, one section level deep: rendering
/// a well-formed schema of leaves and flat sections and loading the text
/// back yields exactly the dictionary the schema describes — every leaf
/// bound to its example at the root, then every section with its own leaves,
/// in declaration order.
pub proof fn lemma_depth1_schema_roundtrip(fields: Seq<(Seq<char>, NodeModel)>)
    requires
        depth1_schema_wf(fields),
    ensures
        crate::toml::spec_parse_toml(spec_render(fields)) == Ok::<
            _,
            (int, crate::toml::ParseErrorKind),
        >(Val::Dict(leaf_part(fields) + section_part(fields))),
{
    let final_tree = leaf_part(fields) + section_part(fields);
    lemma_leaf_part_props(fields);

    // Nothing follows the sections: the fold ends with the finished table.
    assert forall|pp: Seq<Seq<char>>|
        #[trigger] parse_lines(split_lines(Seq::empty()), 0, final_tree, pp) == Ok::<
            _,
            (int, crate::toml::ParseErrorKind),
        >(final_tree) by {
        lemma_parse_empty_doc(final_tree, pp);
    }

    // The sections fill their own tables over the root leaves.
    assert forall|i: int|
        0 <= i < fields.len() && (#[trigger] fields[i]).1 is Table implies
        crate::value::dict_get(leaf_part(fields), fields[i].0) is None by {
        if crate::value::dict_get(leaf_part(fields), fields[i].0) is Some {
            let j = choose|j: int|
                0 <= j < fields.len() && (#[trigger] fields[j]).0 == fields[i].0
                    && fields[j].1 is Leaf;
            assert(j != i);
            if j < i {
                assert(fields[j].0 != fields[i].0);
            } else {
                assert(fields[i].0 != fields[j].0);
            }
        }
    }
    lemma_parse_tables_then(fields, leaf_part(fields), Seq::empty(), final_tree);
    assert(render_tables(fields, Seq::empty()) + Seq::<char>::empty() =~= render_tables(
        fields,
        Seq::empty(),
    ));

    // The root leaves fill the empty table first.
    assert(crate::toml::entries_wf(Seq::<(Seq<char>, Val)>::empty()));
    assert(forall|i: int|
        0 <= i < fields.len() ==> crate::value::dict_get(
            Seq::<(Seq<char>, Val)>::empty(),
            (#[trigger] fields[i]).0,
        ) is None);
    assert forall|pp: Seq<Seq<char>>|
        #[trigger] parse_lines(
        split_lines(render_tables(fields, Seq::empty())),
        0,
        Seq::<(Seq<char>, Val)>::empty() + leaf_part(fields),
        pp,
    ) == Ok::<_, (int, crate::toml::ParseErrorKind)>(final_tree) by {
        assert(Seq::<(Seq<char>, Val)>::empty() + leaf_part(fields) =~= leaf_part(fields));
    }
    lemma_parse_leaves_then(
        fields,
        Seq::empty(),
        render_tables(fields, Seq::empty()),
        final_tree,
    );
    assert(spec_render(fields) == render_leaves(fields) + render_tables(fields, Seq::empty()));
}

} // verus!
