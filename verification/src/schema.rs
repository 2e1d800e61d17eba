//! Documented configuration generation: a declared schema of fields, nested
//! sections, per-field documentation and example values is rendered as a
//! commented configuration document in the same format the loader reads.

use vstd::prelude::*;

use crate::value::model_seq;
use crate::value::ConfigValue;
use crate::value::Val;

verus! {

/// One declared field of a configuration type: a documented scalar with an
/// example value, or a nested section of further fields.
pub enum SchemaNode {
    /// A scalar or array field.
    Leaf {
        /// The field's documentation; empty for none.
        doc: String,
        /// The example value the generated document shows.
        example: ConfigValue,
    },
    /// A nested section.
    Table {
        /// The section's fields, in declaration order.
        fields: Vec<(String, SchemaNode)>,
    },
}

/// The declared shape of a configuration type: its fields in declaration
/// order.
pub struct Schema {
    /// The top-level fields.
    pub fields: Vec<(String, SchemaNode)>,
}

/// The model of a schema node.
pub enum NodeModel {
    Leaf(Seq<char>, Val),
    Table(Seq<(Seq<char>, NodeModel)>),
}

impl SchemaNode {
    /// The model of this node.
    pub open spec fn model(self) -> NodeModel
        decreases self, 1int, 0nat,
    {
        match self {
            SchemaNode::Leaf { doc, example } => NodeModel::Leaf(doc@, example@),
            SchemaNode::Table { fields } => NodeModel::Table(schema_fields_model(fields@)),
        }
    }
}

impl View for SchemaNode {
    type V = NodeModel;

    open spec fn view(&self) -> NodeModel {
        self.model()
    }
}

/// The models of a sequence of schema fields, in order.
pub open spec fn schema_fields_model(s: Seq<(String, SchemaNode)>) -> Seq<(Seq<char>, NodeModel)>
    decreases s, 0int, s.len(),
{
    if s.len() == 0 {
        Seq::empty()
    } else {
        seq![(s[0].0@, s[0].1.model())] + schema_fields_model(s.drop_first())
    }
}

/// `schema_fields_model` maps the sequence pointwise.
pub proof fn lemma_schema_fields_model_index(s: Seq<(String, SchemaNode)>)
    ensures
        schema_fields_model(s).len() == s.len(),
        forall|i: int|
            0 <= i < s.len() ==> schema_fields_model(s)[i] == (s[i].0@, s[i].1.model()),
    decreases s.len(),
{
    if s.len() > 0 {
        lemma_schema_fields_model_index(s.drop_first());
    }
}

impl View for Schema {
    type V = Seq<(Seq<char>, NodeModel)>;

    open spec fn view(&self) -> Seq<(Seq<char>, NodeModel)> {
        schema_fields_model(self.fields@)
    }
}

/// The decimal digits of a non-negative number, most significant first.
pub open spec fn dec_nat(n: nat) -> Seq<char>
    decreases n,
{
    if n < 10 {
        seq![(48 + n) as u8 as char]
    } else {
        dec_nat(n / 10).push((48 + n % 10) as u8 as char)
    }
}

/// The decimal text of an integer, with a leading `-` when negative.
pub open spec fn dec_int(n: int) -> Seq<char> {
    if n < 0 {
        seq!['-'] + dec_nat((-n) as nat)
    } else {
        dec_nat(n as nat)
    }
}

/// Appends the decimal digits of `n`.
fn push_dec(n: u64, out: &mut Vec<char>)
    ensures
        final(out)@ == old(out)@ + dec_nat(n as nat),
    decreases n,
{
    if n < 10 {
        out.push((48 + n as u8) as char);
        assert(final(out)@ =~= old(out)@ + dec_nat(n as nat));
    } else {
        push_dec(n / 10, out);
        out.push((48 + (n % 10) as u8) as char);
        assert(final(out)@ =~= old(out)@ + dec_nat(n as nat));
    }
}

/// Appends the decimal text of `n`.
fn push_dec_i64(n: i64, out: &mut Vec<char>)
    ensures
        final(out)@ == old(out)@ + dec_int(n as int),
{
    if n < 0 {
        out.push('-');
        let u: u64 = if n == i64::MIN {
            0x8000_0000_0000_0000u64
        } else {
            (-n) as u64
        };
        push_dec(u, out);
        assert(final(out)@ =~= old(out)@ + dec_int(n as int));
    } else {
        push_dec(n as u64, out);
    }
}

/// Appends the decimal digits of `n`.
pub fn push_dec_usize(n: usize, out: &mut Vec<char>)
    ensures
        final(out)@ == old(out)@ + dec_nat(n as nat),
{
    push_dec(n as u64, out);
}

/// The text a scalar or array value is rendered as.
pub open spec fn render_value(v: Val) -> Seq<char>
    decreases v, 1int, 0nat,
{
    match v {
        Val::Null => Seq::empty(),
        Val::Bool(b) => if b {
            seq!['t', 'r', 'u', 'e']
        } else {
            seq!['f', 'a', 'l', 's', 'e']
        },
        Val::Int(n) => dec_int(n as int),
        Val::Float(text) => text,
        Val::Str(s) => seq!['"'] + s + seq!['"'],
        Val::Array(items) => seq!['['] + render_items(items) + seq![']'],
        Val::Dict(_) => Seq::empty(),
    }
}

/// The comma-separated texts of an array's items.
pub open spec fn render_items(items: Seq<Val>) -> Seq<char>
    decreases items, 0int, items.len(),
{
    if items.len() == 0 {
        Seq::empty()
    } else if items.len() == 1 {
        render_value(items[0])
    } else {
        render_value(items[0]) + seq![',', ' '] + render_items(items.drop_first())
    }
}

/// Appends the rendered text of a scalar or array value.
#[verifier::loop_isolation(false)]
fn push_value(v: &ConfigValue, out: &mut Vec<char>)
    ensures
        final(out)@ == old(out)@ + render_value(v@),
    decreases *v, 1int, 0nat,
{
    match v {
        ConfigValue::Null => {
            assert(final(out)@ =~= old(out)@ + render_value(v@));
        },
        ConfigValue::Bool(b) => {
            if *b {
                out.push('t');
                out.push('r');
                out.push('u');
                out.push('e');
            } else {
                out.push('f');
                out.push('a');
                out.push('l');
                out.push('s');
                out.push('e');
            }
            assert(final(out)@ =~= old(out)@ + render_value(v@));
        },
        ConfigValue::Int(n) => {
            push_dec_i64(*n, out);
        },
        ConfigValue::Float(text) => {
            push_str(text.as_str(), out);
        },
        ConfigValue::Str(s) => {
            out.push('"');
            push_str(s.as_str(), out);
            out.push('"');
            assert(final(out)@ =~= old(out)@ + render_value(v@));
        },
        ConfigValue::Array(items) => {
            out.push('[');
            push_items(items, 0, out);
            out.push(']');
            proof {
                crate::value::lemma_model_seq_index(items@);
                assert(model_seq(items@).skip(0) =~= model_seq(items@));
                assert(final(out)@ =~= old(out)@ + render_value(v@));
            }
        },
        ConfigValue::Dict(_) => {
            assert(final(out)@ =~= old(out)@ + render_value(v@));
        },
    }
}

/// Appends the rendered items of an array from position `idx` on.
#[verifier::loop_isolation(false)]
fn push_items(items: &Vec<ConfigValue>, idx: usize, out: &mut Vec<char>)
    requires
        idx <= items@.len(),
    ensures
        final(out)@ == old(out)@ + render_items(model_seq(items@).skip(idx as int)),
    decreases *items, 0int, items@.len() - idx,
{
    proof {
        crate::value::lemma_model_seq_index(items@);
    }
    let ghost m = model_seq(items@).skip(idx as int);
    if idx < items.len() {
        push_value(&items[idx], out);
        if idx + 1 < items.len() {
            out.push(',');
            out.push(' ');
            push_items(items, idx + 1, out);
            proof {
                assert(m[0] == items@[idx as int]@);
                assert(m.drop_first() =~= model_seq(items@).skip(idx + 1));
                assert(final(out)@ =~= old(out)@ + render_items(m));
            }
        } else {
            proof {
                assert(m.len() == 1);
                assert(m[0] == items@[idx as int]@);
                assert(final(out)@ =~= old(out)@ + render_items(m));
            }
        }
    } else {
        proof {
            assert(m.len() == 0);
            assert(final(out)@ =~= old(out)@ + render_items(m));
        }
    }
}

/// Appends the characters of a string slice.
fn push_str(s: &str, out: &mut Vec<char>)
    ensures
        final(out)@ == old(out)@ + s@,
{
    let chars = crate::strutil::str_to_chars(s);
    let mut i: usize = 0;
    while i < chars.len()
        invariant
            i <= chars@.len(),
            chars@ == s@,
            out@ == old(out)@ + s@.subrange(0, i as int),
        decreases chars@.len() - i,
    {
        out.push(chars[i]);
        proof {
            assert(old(out)@ + s@.subrange(0, i as int) + seq![s@[i as int]] =~= old(out)@
                + s@.subrange(0, i + 1));
        }
        i = i + 1;
    }
    proof {
        assert(s@.subrange(0, s@.len() as int) =~= s@);
    }
}


/// The dotted text of a section path.
pub open spec fn join_path(path: Seq<Seq<char>>) -> Seq<char>
    decreases path.len(),
{
    if path.len() == 0 {
        Seq::empty()
    } else if path.len() == 1 {
        path[0]
    } else {
        path[0] + seq!['.'] + join_path(path.drop_first())
    }
}

/// Extending a path extends its dotted text on the right.
pub proof fn lemma_join_path_push(path: Seq<Seq<char>>, key: Seq<char>)
    ensures
        join_path(path.push(key)) == (if path.len() == 0 {
            key
        } else {
            join_path(path) + seq!['.'] + key
        }),
    decreases path.len(),
{
    let p2 = path.push(key);
    if path.len() == 0 {
        assert(join_path(p2) == p2[0]);
        assert(p2[0] == key);
    } else {
        lemma_join_path_push(path.drop_first(), key);
        assert(p2.drop_first() =~= path.drop_first().push(key));
        if path.len() == 1 {
            assert(join_path(p2) =~= path[0] + seq!['.'] + key);
            assert(join_path(path) + seq!['.'] + key =~= path[0] + seq!['.'] + key);
        } else {
            assert(join_path(p2) =~= path[0] + seq!['.'] + join_path(path.drop_first().push(key)));
            assert(join_path(path) + seq!['.'] + key =~= path[0] + seq!['.'] + (join_path(
                path.drop_first(),
            ) + seq!['.'] + key));
        }
    }
}

/// The lines one documented leaf field renders as: an optional `# doc`
/// comment line, then `key = value`.
pub open spec fn render_leaf(key: Seq<char>, doc: Seq<char>, example: Val) -> Seq<char> {
    (if doc.len() > 0 {
        seq!['#', ' '] + doc + seq!['\n']
    } else {
        Seq::empty()
    }) + key + seq![' ', '=', ' '] + render_value(example) + seq!['\n']
}

/// The lines the leaf fields of one table render as, in order.
pub open spec fn render_leaves(fields: Seq<(Seq<char>, NodeModel)>) -> Seq<char>
    decreases fields.len(),
{
    if fields.len() == 0 {
        Seq::empty()
    } else {
        (match fields[0].1 {
            NodeModel::Leaf(doc, example) => render_leaf(fields[0].0, doc, example),
            NodeModel::Table(_) => Seq::empty(),
        }) + render_leaves(fields.drop_first())
    }
}

/// The lines the nested sections of one table render as: for each, a blank
/// line, its `[dotted.path]` header, its leaf fields, then its own nested
/// sections, depth first, in declaration order.
pub open spec fn render_tables(fields: Seq<(Seq<char>, NodeModel)>, path: Seq<Seq<char>>) -> Seq<
    char,
>
    decreases fields, 0int, fields.len(),
    via render_tables_decreases
{
    if fields.len() == 0 {
        Seq::empty()
    } else {
        (match fields[0].1 {
            NodeModel::Leaf(_, _) => Seq::empty(),
            NodeModel::Table(sub) => {
                let p2 = path.push(fields[0].0);
                seq!['\n', '['] + join_path(p2) + seq![']', '\n'] + render_leaves(sub)
                    + render_tables(sub, p2)
            },
        }) + render_tables(fields.drop_first(), path)
    }
}

#[via_fn]
proof fn render_tables_decreases(fields: Seq<(Seq<char>, NodeModel)>, path: Seq<Seq<char>>) {
    if fields.len() > 0 {
        assert(decreases_to!(fields => fields[0]));
        assert(decreases_to!(fields[0] => fields[0].1));
        match fields[0].1 {
            NodeModel::Table(sub) => {
                assert(decreases_to!(fields[0].1 => sub));
            },
            _ => {},
        }
        assert(decreases_to!(fields => fields.drop_first()));
    }
}

/// The whole document a schema renders as: the top-level leaf fields, then
/// every section.
pub open spec fn spec_render(fields: Seq<(Seq<char>, NodeModel)>) -> Seq<char> {
    render_leaves(fields) + render_tables(fields, Seq::empty())
}

/// Appends the leaf fields of one table from position `idx` on.
#[verifier::loop_isolation(false)]
fn emit_leaves(fields: &Vec<(String, SchemaNode)>, idx: usize, out: &mut Vec<char>)
    requires
        idx <= fields@.len(),
    ensures
        final(out)@ == old(out)@ + render_leaves(schema_fields_model(fields@).skip(idx as int)),
    decreases fields@.len() - idx,
{
    proof {
        lemma_schema_fields_model_index(fields@);
    }
    let ghost m = schema_fields_model(fields@).skip(idx as int);
    if idx < fields.len() {
        proof {
            assert(m[0] == (fields@[idx as int].0@, fields@[idx as int].1@));
            assert(m.drop_first() =~= schema_fields_model(fields@).skip(idx + 1));
        }
        match &fields[idx].1 {
            SchemaNode::Leaf { doc, example } => {
                if !doc.as_str().is_empty() {
                    out.push('#');
                    out.push(' ');
                    push_str(doc.as_str(), out);
                    out.push('\n');
                }
                push_str(fields[idx].0.as_str(), out);
                out.push(' ');
                out.push('=');
                out.push(' ');
                push_value(example, out);
                out.push('\n');
                emit_leaves(fields, idx + 1, out);
                proof {
                    assert(final(out)@ =~= old(out)@ + render_leaves(m));
                }
            },
            SchemaNode::Table { .. } => {
                emit_leaves(fields, idx + 1, out);
                proof {
                    assert(final(out)@ =~= old(out)@ + render_leaves(m));
                }
            },
        }
    } else {
        proof {
            assert(m.len() == 0);
            assert(final(out)@ =~= old(out)@ + render_leaves(m));
        }
    }
}

/// Appends the nested sections of one table from position `idx` on. `prefix`
/// holds the dotted text of `path`, and `at_root` says whether the path is
/// empty.
#[verifier::loop_isolation(false)]
#[verifier::rlimit(60)]
fn emit_tables(
    fields: &Vec<(String, SchemaNode)>,
    idx: usize,
    prefix: &Vec<char>,
    at_root: bool,
    Ghost(path): Ghost<Seq<Seq<char>>>,
    out: &mut Vec<char>,
)
    requires
        idx <= fields@.len(),
        join_path(path) == prefix@,
        at_root == (path.len() == 0),
    ensures
        final(out)@ == old(out)@ + render_tables(
            schema_fields_model(fields@).skip(idx as int),
            path,
        ),
    decreases *fields, 0int, fields@.len() - idx,
{
    proof {
        lemma_schema_fields_model_index(fields@);
    }
    let ghost m = schema_fields_model(fields@).skip(idx as int);
    if idx < fields.len() {
        proof {
            assert(m[0] == (fields@[idx as int].0@, fields@[idx as int].1@));
            assert(m.drop_first() =~= schema_fields_model(fields@).skip(idx + 1));
        }
        match &fields[idx].1 {
            SchemaNode::Leaf { .. } => {
                proof {
                    assert(decreases_to!(*fields => fields@));
                }
                emit_tables(fields, idx + 1, prefix, at_root, Ghost(path), out);
                proof {
                    assert(final(out)@ =~= old(out)@ + render_tables(m, path));
                }
            },
            SchemaNode::Table { fields: sub } => {
                let key_chars = crate::strutil::str_to_chars(fields[idx].0.as_str());
                let mut new_prefix: Vec<char> = Vec::new();
                if !at_root {
                    let mut t: usize = 0;
                    while t < prefix.len()
                        invariant
                            t <= prefix@.len(),
                            new_prefix@ =~= prefix@.subrange(0, t as int),
                        decreases prefix@.len() - t,
                    {
                        new_prefix.push(prefix[t]);
                        t = t + 1;
                    }
                    new_prefix.push('.');
                }
                let mut t: usize = 0;
                while t < key_chars.len()
                    invariant
                        t <= key_chars@.len(),
                        new_prefix@ =~= (if at_root {
                            Seq::<char>::empty()
                        } else {
                            prefix@ + seq!['.']
                        }) + key_chars@.subrange(0, t as int),
                    decreases key_chars@.len() - t,
                {
                    new_prefix.push(key_chars[t]);
                    t = t + 1;
                }
                let ghost p2 = path.push(fields@[idx as int].0@);
                proof {
                    lemma_join_path_push(path, fields@[idx as int].0@);
                    assert(new_prefix@ =~= join_path(p2));
                }
                let ghost before_header = out@;
                out.push('\n');
                out.push('[');
                let mut t: usize = 0;
                while t < new_prefix.len()
                    invariant
                        t <= new_prefix@.len(),
                        out@ =~= before_header + seq!['\n', '['] + new_prefix@.subrange(
                            0,
                            t as int,
                        ),
                    decreases new_prefix@.len() - t,
                {
                    out.push(new_prefix[t]);
                    t = t + 1;
                }
                out.push(']');
                out.push('\n');
                proof {
                    assert(new_prefix@.subrange(0, new_prefix@.len() as int) =~= new_prefix@);
                    assert(out@ =~= before_header + (seq!['\n', '['] + join_path(p2) + seq![
                        ']',
                        '\n',
                    ]));
                }
                emit_leaves(sub, 0, out);
                proof {
                    assert(decreases_to!(*fields => fields@));
                    assert(decreases_to!(fields@ => fields@[idx as int]));
                    assert(decreases_to!(fields@[idx as int] => fields@[idx as int].1));
                }
                emit_tables(sub, 0, &new_prefix, false, Ghost(p2), out);
                proof {
                    assert(decreases_to!(*fields => fields@));
                }
                emit_tables(fields, idx + 1, prefix, at_root, Ghost(path), out);
                proof {
                    assert(schema_fields_model(sub@).skip(0) =~= schema_fields_model(sub@));
                    assert(final(out)@ =~= old(out)@ + render_tables(m, path));
                }
            },
        }
    } else {
        proof {
            assert(m.len() == 0);
            assert(final(out)@ =~= old(out)@ + render_tables(m, path));
        }
    }
}

/// A configuration type that declares its shape: fields, nesting,
/// documentation, and example values.
///
/// Callers implement this for their configuration types; the generated
/// document is rendered from it.
pub trait ConfigSchema {
    /// The declared shape of this type.
    fn schema() -> Schema;
}

/// Renders a schema as a configuration document: the top-level leaf fields
/// first, each with its documentation as a `#` comment and its example
/// value, then every section under its `[dotted.path]` header, depth first.
pub fn render_schema(schema: &Schema) -> (r: String)
    ensures
        r@ == spec_render(schema@),
{
    let mut out: Vec<char> = Vec::new();
    emit_leaves(&schema.fields, 0, &mut out);
    let prefix: Vec<char> = Vec::new();
    proof {
        assert(join_path(Seq::<Seq<char>>::empty()) =~= Seq::<char>::empty());
        assert(schema_fields_model(schema.fields@).skip(0) =~= schema_fields_model(
            schema.fields@,
        ));
    }
    emit_tables(&schema.fields, 0, &prefix, true, Ghost(Seq::empty()), &mut out);
    crate::strutil::chars_to_string(&out)
}

/// The generated configuration document for type `C`: its declared schema,
/// rendered. Which schema `C` declares is the caller's trait impl; the text
/// is always the rendering of some schema, and [`render_schema`] pins the
/// rendering of a given one exactly.
pub fn generate_config_text<C: ConfigSchema>() -> (r: String)
    ensures
        exists|fields: Seq<(Seq<char>, NodeModel)>| r@ == #[trigger] spec_render(fields),
{
    let schema = C::schema();
    let r = render_schema(&schema);
    proof {
        assert(r@ == spec_render(schema@));
    }
    r
}

} // verus!
