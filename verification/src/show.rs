//! A configuration as text: one line for every leaf, or nested in braces.

use crate::number::{format_i32, i32_to_string};
use crate::parser::conf::{ConfMap, SingleModel, SingleValue, TypedModel, Value, ValueModel};
use crate::parser::tree::{Entries, Node, TreeMap, TreeValue};
use crate::text::{join, views};
use vstd::prelude::*;
use vstd::string::StringExecFns;

verus! {

/// The forms in which a configuration is shown.
#[derive(Clone, Copy, Debug, PartialEq, Eq, Structural)]
pub enum ShowFmt {
    Conf,
    Json,
    Debug,
}

impl Default for ShowFmt {
    fn default() -> (r: Self)
        ensures
            r == ShowFmt::Conf,
    {
        ShowFmt::Conf
    }
}

/// The text of a typed scalar.
pub open spec fn single_text(value: SingleModel) -> Seq<char> {
    match value {
        SingleModel::String(text) => text,
        SingleModel::Bool(flag) => if flag {
            "true"@
        } else {
            "false"@
        },
        SingleModel::Integer(number) => format_i32(number),
    }
}

/// The texts of the first `count` scalars.
pub open spec fn single_texts(items: Seq<SingleModel>, count: int) -> Seq<Seq<char>> {
    Seq::new(count as nat, |i: int| single_text(items[i]))
}

/// The text of a leaf: that of its scalar, or those of its scalars with
/// commas between them.
pub open spec fn scalar_text(value: TypedModel) -> Seq<char> {
    match value {
        ValueModel::Single(item) => single_text(item),
        ValueModel::Collection(items) => join(single_texts(items, items.len() as int), seq![',']),
    }
}

/// The dotted path of a key below a prefix; the empty prefix is the root.
pub open spec fn full_key(prefix: Seq<char>, key: Seq<char>) -> Seq<char> {
    if prefix.len() == 0 {
        key
    } else {
        prefix + seq!['.'] + key
    }
}

/// The lines `path = value` for the leaves below the first `count` entries of
/// a table, depth first, the entries of every table in the order of their
/// keys.
pub open spec fn conf_lines(es: Entries<TypedModel>, prefix: Seq<char>, count: nat) -> Seq<
    Seq<char>,
>
    decreases es, count,
{
    if count == 0 || count > es.len() {
        Seq::empty()
    } else {
        let path = full_key(prefix, es[count - 1].0);
        conf_lines(es, prefix, (count - 1) as nat) + match es[count - 1].1 {
            Node::Leaf(value) => seq![path + " = "@ + scalar_text(value)],
            Node::Branch(below) => conf_lines(below, path, below.len()),
        }
    }
}

/// A configuration as lines `path = value`, with a line feed between every
/// two.
pub open spec fn conf_text(es: Entries<TypedModel>) -> Seq<char> {
    join(conf_lines(es, Seq::empty(), es.len()), seq!['\n'])
}

/// `n` tabs.
pub open spec fn tabs(n: nat) -> Seq<char> {
    Seq::new(n, |i: int| '\t')
}

/// The parts `key: value` for the first `count` entries of a table that
/// stands `indent` levels deep, each indented one level more.
pub open spec fn json_parts(es: Entries<TypedModel>, indent: nat, count: nat) -> Seq<Seq<char>>
    decreases es, count,
{
    if count == 0 || count > es.len() {
        Seq::empty()
    } else {
        json_parts(es, indent, (count - 1) as nat).push(
            tabs(indent + 1) + es[count - 1].0 + ": "@ + match es[count - 1].1 {
                Node::Leaf(value) => scalar_text(value),
                Node::Branch(below) => json_text(below, indent + 1),
            },
        )
    }
}

/// A table in braces: its parts with a comma and a line feed between every
/// two, and the closing brace indented as deep as the table stands.
pub open spec fn json_text(es: Entries<TypedModel>, indent: nat) -> Seq<char>
    decreases es, es.len() + 1,
{
    "{\n"@ + join(json_parts(es, indent, es.len()), ",\n"@) + "\n"@ + tabs(indent) + "}"@
}

/// The given strings with `sep` between every two.
pub fn join_strings(parts: &Vec<String>, sep: &str) -> (r: String)
    ensures
        r@ == join(views(parts@), sep@),
{
    let mut out = String::new();
    let mut i: usize = 0;
    let ghost all = views(parts@);
    assert(all.take(0) =~= Seq::<Seq<char>>::empty());
    while i < parts.len()
        invariant
            i <= parts@.len(),
            all == views(parts@),
            out@ == join(all.take(i as int), sep@),
        decreases parts@.len() - i,
    {
        assert(all.take(i + 1).drop_last() =~= all.take(i as int));
        if i > 0 {
            out.append(sep);
        }
        out.append(parts[i].as_str());
        assert(out@ =~= join(all.take(i + 1), sep@));
        i += 1;
    }
    assert(all.take(i as int) =~= all);
    out
}

/// The text of a typed scalar.
pub fn render_single(value: &SingleValue) -> (r: String)
    ensures
        r@ == single_text(value@),
{
    match value {
        SingleValue::String(text) => text.clone(),
        SingleValue::Bool(flag) => if *flag {
            String::from_str("true")
        } else {
            String::from_str("false")
        },
        SingleValue::Integer(number) => i32_to_string(*number),
    }
}

/// The text of a leaf.
pub fn render_scalar(value: &Value<SingleValue>) -> (r: String)
    ensures
        r@ == scalar_text(value@),
{
    match value {
        Value::Single(item) => render_single(item),
        Value::Collection(entries) => {
            let ghost items = Seq::new(entries@.len(), |i: int| entries@[i]@);
            assert(value@ == ValueModel::Collection(items));
            let mut parts: Vec<String> = Vec::new();
            let mut i: usize = 0;
            while i < entries.len()
                invariant
                    i <= entries@.len() == items.len(),
                    forall|j: int| 0 <= j < entries@.len() ==> #[trigger] items[j] == entries@[j]@,
                    views(parts@) == single_texts(items, i as int),
                decreases entries@.len() - i,
            {
                let ghost before = views(parts@);
                let text = render_single(&entries[i]);
                assert(items[i as int] == entries@[i as int]@);
                parts.push(text);
                assert(views(parts@) =~= before.push(text@));
                assert(views(parts@) =~= single_texts(items, i + 1));
                i += 1;
            }
            proof {
                reveal_strlit(",");
                assert(","@ =~= seq![',']);
            }
            join_strings(&parts, ",")
        },
    }
}

/// Adds the lines of a table to `output`.
fn collect_entries(table: &TreeMap<Value<SingleValue>>, prefix: &str, output: &mut Vec<String>)
    ensures
        views(final(output)@) == views(old(output)@) + conf_lines(table@, prefix@, table@.len()),
    decreases table@,
{
    let n = table.len();
    let mut i: usize = 0;
    let ghost start = views(output@);
    assert(start + conf_lines(table@, prefix@, 0) =~= start);
    while i < n
        invariant
            i <= n == table@.len(),
            views(output@) == start + conf_lines(table@, prefix@, i as nat),
        decreases n - i,
    {
        let key = table.key_at(i);
        let mut path = String::new();
        if !prefix.is_empty() {
            path.append(prefix);
            path.push('.');
        }
        path.append(key.as_str());
        assert(path@ =~= full_key(prefix@, key@));
        let ghost before = views(output@);
        match table.value_at(i) {
            TreeValue::Scalar(scalar) => {
                let mut line = path;
                line.append(" = ");
                line.append(render_scalar(scalar).as_str());
                output.push(line);
                assert(views(output@) =~= before + seq![line@]);
            },
            TreeValue::Nested(children) => {
                assert(table@[i as int].1->Branch_0 == children@);
                collect_entries(children, path.as_str(), output);
            },
        }
        assert(views(output@) =~= start + conf_lines(table@, prefix@, (i + 1) as nat));
        i += 1;
    }
}

/// The configuration as lines `path = value`. See [`conf_text`].
pub fn conf_map_as_conf(conf_map: &ConfMap) -> (r: String)
    ensures
        r@ == conf_text(conf_map@),
{
    let mut lines: Vec<String> = Vec::new();
    collect_entries(&conf_map.0, "", &mut lines);
    proof {
        reveal_strlit("");
        reveal_strlit("\n");
        assert(""@ =~= Seq::<char>::empty());
        assert("\n"@ =~= seq!['\n']);
        assert(views(lines@) =~= conf_lines(conf_map@, Seq::empty(), conf_map@.len()));
    }
    join_strings(&lines, "\n")
}

/// A table in braces, `indent` being the tabs of the depth it stands at.
fn render_map(table: &TreeMap<Value<SingleValue>>, indent: &str, Ghost(depth): Ghost<nat>) -> (r:
    String)
    requires
        indent@ == tabs(depth),
    ensures
        r@ == json_text(table@, depth),
    decreases table@,
{
    let mut child_indent = String::from_str(indent);
    child_indent.push('\t');
    assert(child_indent@ =~= tabs(depth + 1));
    let mut parts: Vec<String> = Vec::new();
    let n = table.len();
    let mut i: usize = 0;
    while i < n
        invariant
            i <= n == table@.len(),
            child_indent@ == tabs(depth + 1),
            views(parts@) == json_parts(table@, depth, i as nat),
        decreases n - i,
    {
        let mut part = child_indent.clone();
        part.append(table.key_at(i).as_str());
        part.append(": ");
        match table.value_at(i) {
            TreeValue::Scalar(scalar) => {
                part.append(render_scalar(scalar).as_str());
            },
            TreeValue::Nested(children) => {
                assert(table@[i as int].1->Branch_0 == children@);
                part.append(render_map(children, child_indent.as_str(), Ghost(depth + 1)).as_str());
            },
        }
        let ghost before = views(parts@);
        parts.push(part);
        assert(views(parts@) =~= before.push(part@));
        i += 1;
    }
    let mut out = String::from_str("{\n");
    out.append(join_strings(&parts, ",\n").as_str());
    out.append("\n");
    out.append(indent);
    out.append("}");
    out
}

/// The configuration nested in braces. See [`json_text`].
pub fn conf_map_as_json(conf_map: &ConfMap) -> (r: String)
    ensures
        r@ == json_text(conf_map@, 0),
{
    proof {
        reveal_strlit("");
        assert(""@ =~= tabs(0));
    }
    render_map(&conf_map.0, "", Ghost(0))
}

} // verus!
