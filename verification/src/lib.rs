//! Configuration text with dotted keys, read into a tree and typed under a
//! schema.

use crate::error::ParseError;
use crate::order::key_lt;
use crate::parser::conf::SingleValue;
use crate::parser::mir::{assemble, str_to_mir, StructuredInput};
use crate::parser::tree::{plain_keys, well_formed, Entries, Node, TreeMap, TreeValue};
use crate::text::split_lines;
use vstd::prelude::*;

pub mod error;
pub mod number;
pub mod order;
pub mod parser;
pub mod show;
pub mod text;

verus! {

/// A node of a configuration without a schema: the text of a value, or a
/// nested table.
pub type ConfValue = TreeValue<String>;

/// A configuration without a schema.
pub type ConfMap = TreeMap<String>;

/// An assembled tree without its line numbers.
pub open spec fn untyped(node: Node<(Seq<char>, usize)>) -> Node<Seq<char>>
    decreases node, 0nat,
{
    match node {
        Node::Leaf(payload) => Node::Leaf(payload.0),
        Node::Branch(es) => Node::Branch(untyped_entries(es, es.len())),
    }
}

/// The first `count` entries of an assembled table without their line
/// numbers.
pub open spec fn untyped_entries(es: Entries<(Seq<char>, usize)>, count: nat) -> Entries<
    Seq<char>,
>
    decreases es, count,
{
    if count == 0 || count > es.len() {
        Seq::empty()
    } else {
        untyped_entries(es, (count - 1) as nat).push((es[count - 1].0, untyped(es[count - 1].1)))
    }
}

/// The entries without line numbers keep the keys they had.
pub proof fn lemma_untyped_keys(es: Entries<(Seq<char>, usize)>, count: nat)
    requires
        count <= es.len(),
    ensures
        untyped_entries(es, count).len() == count,
        forall|i: int| 0 <= i < count ==> (#[trigger] untyped_entries(es, count)[i]).0 == es[i].0,
    decreases count,
{
    if count > 0 {
        lemma_untyped_keys(es, (count - 1) as nat);
    }
}

/// Drops the line numbers of a table.
fn without_lines(table: &StructuredInput) -> (r: ConfMap)
    requires
        table.wf(),
    ensures
        r@ == untyped_entries(table@, table@.len()),
        r.wf(),
    decreases table@,
{
    let mut out: ConfMap = TreeMap::new();
    let n = table.len();
    let mut i: usize = 0;
    while i < n
        invariant
            i <= n == table@.len(),
            table.wf(),
            out.wf(),
            out@ == untyped_entries(table@, i as nat),
        decreases n - i,
    {
        let ghost node = table@[i as int].1;
        assert(well_formed(node));
        let value = match table.value_at(i) {
            TreeValue::Scalar((text, _)) => {
                assert(node matches Node::Leaf(payload) && payload.0 == text@);
                TreeValue::Scalar(text.clone())
            },
            TreeValue::Nested(below) => {
                assert(node == Node::Branch(below@) && node->Branch_0 == below@);
                TreeValue::Nested(without_lines(below))
            },
        };
        assert(value@ == untyped(node));
        proof {
            lemma_untyped_keys(table@, i as nat);
            if i > 0 {
                assert(key_lt(table@[i - 1].0, table@[i as int].0));
            }
        }
        out.push_last(table.key_at(i).clone(), value);
        i += 1;
    }
    out
}

/// Parses a configuration text, lines of `key = value`, without a schema:
/// the tree of the text with the text of each value at its leaves. Keys and
/// values are read as they are for a typed configuration.
pub fn parse_str(input: &str) -> (r: Result<ConfMap, ParseError>)
    ensures
        match assemble(split_lines(input@), seq!['=']) {
            Ok(tree) => r matches Ok(conf) && conf@ == untyped_entries(tree, tree.len())
                && conf.wf() && plain_keys(conf@),
            Err(failure) => r matches Err(e) && e@ == failure,
        },
{
    match str_to_mir::<SingleValue>(input) {
        Ok(mir) => {
            proof {
                lemma_untyped_keys(mir@, mir@.len());
            }
            Ok(without_lines(&mir))
        },
        Err(e) => Err(e),
    }
}

} // verus!
