//! Schemas: the tree of declared types that a schema text compiles to.

use crate::error::{unknown_kind_failure, PRslt, ParseError};
use crate::order::key_lt;
use crate::parser::conf::{kind_named, SingleValueDiscriminants, Value, ValueModel};
use crate::parser::mir::{str_to_mir, StructuredInput};
use crate::parser::tree::{
    descend, lemma_rank_bounds, lemma_rank_same_keys, lookup, plain_keys, rank, resolve,
    well_formed, Entries, Node, TreeMap, TreeValue,
};
use crate::text::{lemma_split_one, piece_bounds, split, to_chars, to_string, trim, trim_bounds};
use vstd::prelude::*;
use vstd::slice::slice_subrange;
use vstd::std_specs::convert::FromSpecImpl;

verus! {

/// A node of a schema: a declared type, or a nested table of them.
pub type SchemaValue = TreeValue<Value<SingleValueDiscriminants>>;

/// The declared type of a leaf, as a mathematical value.
pub type TypeModel = ValueModel<SingleValueDiscriminants>;

/// A schema: the declared type of every key.
#[derive(Debug)]
pub struct SchemaMap(pub TreeMap<Value<SingleValueDiscriminants>>);

impl View for SchemaMap {
    type V = Entries<TypeModel>;

    open spec fn view(&self) -> Entries<TypeModel> {
        self.0@
    }
}

/// The type that the text of a schema leaf declares. With a comma in it, the
/// text is a list of kind names, each trimmed, and declares a collection with
/// one entry for every name, in order. Without one, the trimmed text is one
/// kind name and declares a single value. A name that is no kind's spoils the
/// whole.
pub open spec fn leaf_type(text: Seq<char>) -> Option<TypeModel> {
    if text.contains(',') {
        let names = split(text, ',');
        if forall|i: int| 0 <= i < names.len() ==> kind_named(trim(#[trigger] names[i])) is Some {
            Some(
                ValueModel::Collection(
                    Seq::new(names.len(), |i: int| kind_named(trim(names[i])).unwrap()),
                ),
            )
        } else {
            None
        }
    } else {
        match kind_named(trim(text)) {
            Some(kind) => Some(ValueModel::Single(kind)),
            None => None,
        }
    }
}

/// The schema tree of an assembled tree: every leaf's text gives way to the
/// type it declares, and tables stay as they are. There is none where some
/// leaf declares no type.
pub open spec fn compile(node: Node<(Seq<char>, usize)>) -> Option<Node<TypeModel>>
    decreases node, 0nat,
{
    match node {
        Node::Leaf(payload) => match leaf_type(payload.0) {
            Some(ty) => Some(Node::Leaf(ty)),
            None => None,
        },
        Node::Branch(es) => match compile_entries(es, es.len()) {
            Some(out) => Some(Node::Branch(out)),
            None => None,
        },
    }
}

/// The schema entries of the first `count` entries of a table.
pub open spec fn compile_entries(es: Entries<(Seq<char>, usize)>, count: nat) -> Option<
    Entries<TypeModel>,
>
    decreases es, count,
{
    if count == 0 || count > es.len() {
        Some(Seq::empty())
    } else {
        match compile_entries(es, (count - 1) as nat) {
            None => None,
            Some(out) => match compile(es[count - 1].1) {
                None => None,
                Some(node) => Some(out.push((es[count - 1].0, node))),
            },
        }
    }
}

/// The compiled entries keep the keys of the entries they come from.
pub proof fn lemma_compile_entries_keys(es: Entries<(Seq<char>, usize)>, count: nat)
    requires
        count <= es.len(),
    ensures
        compile_entries(es, count) matches Some(out) ==> out.len() == count && forall|i: int|
            0 <= i < count ==> (#[trigger] out[i]).0 == es[i].0 && compile(es[i].1) == Some(
                out[i].1,
            ),
    decreases count,
{
    if count > 0 {
        lemma_compile_entries_keys(es, (count - 1) as nat);
    }
}

/// Declaration law: a type that the assembled tree declares at a path is
/// the type that the schema holds at the same path.
pub proof fn lemma_compile_descend(
    es: Entries<(Seq<char>, usize)>,
    path: Seq<Seq<char>>,
    depth: int,
    text: Seq<char>,
    line: usize,
)
    requires
        well_formed(Node::Branch(es)),
        compile_entries(es, es.len()) is Some,
        0 <= depth < path.len(),
        descend(es, path, depth) == Some(Node::Leaf((text, line))),
    ensures
        leaf_type(text) matches Some(ty) && descend(
            compile_entries(es, es.len())->Some_0,
            path,
            depth,
        ) == Some(Node::Leaf(ty)),
    decreases path.len() - depth,
{
    let out = compile_entries(es, es.len())->Some_0;
    let segment = path[depth];
    let r = rank(es, segment);
    lemma_rank_bounds(es, segment);
    lemma_compile_entries_keys(es, es.len());
    lemma_rank_same_keys(out, es, segment);
    assert(lookup(out, segment) == Some(out[r].1));
    assert(compile(es[r].1) == Some(out[r].1));
    assert(well_formed(es[r].1));
    if depth < path.len() - 1 {
        lemma_compile_descend(es[r].1->Branch_0, path, depth + 1, text, line);
    }
}

impl SchemaMap {
    /// Every table of the schema has its keys in order.
    pub open spec fn wf(&self) -> bool {
        self.0.wf()
    }

    /// The schema that declares nothing.
    pub fn new() -> (r: Self)
        ensures
            r@ == Seq::<(Seq<char>, Node<TypeModel>)>::empty(),
            r.wf(),
    {
        SchemaMap(TreeMap::new())
    }

    pub fn from_inner(inner: TreeMap<Value<SingleValueDiscriminants>>) -> (r: Self)
        ensures
            r.0 == inner,
    {
        SchemaMap(inner)
    }

    pub fn into_inner(self) -> (r: TreeMap<Value<SingleValueDiscriminants>>)
        ensures
            r == self.0,
    {
        self.0
    }

    pub fn is_empty(&self) -> (r: bool)
        ensures
            r == (self@.len() == 0),
    {
        self.0.is_empty()
    }

    /// The node that the schema holds for a dotted key. See [`resolve`].
    pub fn get(&self, key: &str) -> (r: Option<&SchemaValue>)
        requires
            self.wf(),
        ensures
            match r {
                Some(v) => resolve(self@, key@) == Some(v@) && v.wf(),
                None => resolve(self@, key@) is None,
            },
    {
        self.0.get_path(key)
    }
}

impl From<TreeMap<Value<SingleValueDiscriminants>>> for SchemaMap {
    fn from(inner: TreeMap<Value<SingleValueDiscriminants>>) -> (r: SchemaMap)
        ensures
            r.0 == inner,
    {
        SchemaMap(inner)
    }
}

impl FromSpecImpl<TreeMap<Value<SingleValueDiscriminants>>> for SchemaMap {
    open spec fn obeys_from_spec() -> bool {
        true
    }

    open spec fn from_spec(inner: TreeMap<Value<SingleValueDiscriminants>>) -> SchemaMap {
        SchemaMap(inner)
    }
}

impl Default for SchemaMap {
    fn default() -> (r: Self)
        ensures
            r@ == Seq::<(Seq<char>, Node<TypeModel>)>::empty(),
            r.wf(),
    {
        SchemaMap::new()
    }
}

/// Reads the type that the text of a schema leaf declares. See [`leaf_type`].
pub fn parse_schema_value(value: &str) -> (r: PRslt<SchemaValue>)
    ensures
        match leaf_type(value@) {
            Some(ty) => r matches Ok(v) && v@ == Node::Leaf(ty),
            None => r matches Err(e) && e@ == unknown_kind_failure(),
        },
{
    let chars = to_chars(value);
    let text = chars.as_slice();
    let pieces = piece_bounds(text, ',');
    proof {
        lemma_split_one(value@, ',');
    }
    if pieces.len() > 1 {
        let ghost names = split(value@, ',');
        let mut kinds: Vec<SingleValueDiscriminants> = Vec::new();
        let mut k: usize = 0;
        while k < pieces.len()
            invariant
                k <= pieces@.len() == names.len(),
                text@ == value@,
                value@.contains(','),
                names == split(value@, ','),
                forall|j: int|
                    0 <= j < pieces@.len() ==> (#[trigger] pieces@[j]).0 <= pieces@[j].1
                        <= text@.len() && text@.subrange(
                        pieces@[j].0 as int,
                        pieces@[j].1 as int,
                    ) == names[j],
                kinds@.len() == k,
                forall|j: int|
                    0 <= j < k ==> kind_named(trim(names[j])) == Some(#[trigger] kinds@[j]),
            decreases pieces@.len() - k,
        {
            let (lo, hi) = pieces[k];
            let piece = slice_subrange(text, lo, hi);
            let (x, y) = trim_bounds(piece);
            let name = to_string(slice_subrange(piece, x, y));
            match SingleValueDiscriminants::from_str(name.as_str()) {
                Ok(kind) => {
                    kinds.push(kind);
                },
                Err(e) => {
                    assert(kind_named(trim(names[k as int])) is None);
                    return Err(ParseError::from(e));
                },
            }
            k += 1;
        }
        let out = TreeValue::Scalar(Value::Collection(kinds));
        proof {
            assert forall|i: int| 0 <= i < names.len() implies kind_named(
                trim(#[trigger] names[i]),
            ) is Some by {
                assert(kind_named(trim(names[i])) == Some(kinds@[i]));
            }
            let want = Seq::new(names.len(), |i: int| kind_named(trim(names[i])).unwrap());
            assert(Seq::new(kinds@.len(), |i: int| kinds@[i]@) =~= want);
        }
        Ok(out)
    } else {
        let (x, y) = trim_bounds(text);
        let name = to_string(slice_subrange(text, x, y));
        match SingleValueDiscriminants::from_str(name.as_str()) {
            Ok(kind) => Ok(TreeValue::Scalar(Value::Single(kind))),
            Err(e) => Err(ParseError::from(e)),
        }
    }
}

/// Compiles the table `input` to its schema.
fn compile_table(input: &StructuredInput) -> (r: PRslt<TreeMap<Value<SingleValueDiscriminants>>>)
    requires
        input.wf(),
    ensures
        match compile_entries(input@, input@.len()) {
            Some(out) => r matches Ok(table) && table@ == out && table.wf(),
            None => r matches Err(e) && e@ == unknown_kind_failure(),
        },
    decreases input@,
{
    let mut out: TreeMap<Value<SingleValueDiscriminants>> = TreeMap::new();
    let n = input.len();
    let mut i: usize = 0;
    while i < n
        invariant
            i <= n == input@.len(),
            input.wf(),
            out.wf(),
            compile_entries(input@, i as nat) == Some(out@),
        decreases n - i,
    {
        let key = input.key_at(i);
        let ghost from = input@[i as int].1;
        assert(well_formed(from));
        let node = match input.value_at(i) {
            TreeValue::Scalar((text, _)) => {
                assert(from matches Node::Leaf(payload) && payload.0 == text@);
                parse_schema_value(text.as_str())
            },
            TreeValue::Nested(below) => {
                assert(from == Node::Branch(below@));
                match compile_table(below) {
                    Ok(table) => Ok(TreeValue::Nested(table)),
                    Err(e) => Err(e),
                }
            },
        };
        assert(match compile(from) {
            Some(model) => node matches Ok(v) && v@ == model && v.wf(),
            None => node matches Err(e) && e@ == unknown_kind_failure(),
        });
        match node {
            Err(e) => {
                proof {
                    lemma_compile_fails(input@, (i + 1) as nat);
                }
                return Err(e);
            },
            Ok(node) => {
                proof {
                    lemma_compile_entries_keys(input@, i as nat);
                    if i > 0 {
                        assert(key_lt(input@[i - 1].0, input@[i as int].0));
                    }
                }
                out.push_last(key.clone(), node);
            },
        }
        i += 1;
    }
    Ok(out)
}

/// Where the first entries of a table do not compile, the table does not.
pub proof fn lemma_compile_fails(es: Entries<(Seq<char>, usize)>, count: nat)
    requires
        count <= es.len(),
        compile_entries(es, count) is None,
    ensures
        compile_entries(es, es.len()) is None,
    decreases es.len() - count,
{
    if count < es.len() {
        lemma_compile_fails(es, count + 1);
    }
}

/// What can be compiled to a schema.
pub trait BuildSchema: Sized {
    /// What `into_schema` asks of the value.
    spec fn compilable(&self) -> bool;

    /// The schema that the value compiles to, where it compiles.
    spec fn schema(&self) -> Option<Entries<TypeModel>>;

    /// Compiles the value to a schema. A leaf that declares no type ends the
    /// work with the error for an unknown kind.
    fn into_schema(self) -> (r: PRslt<SchemaMap>)
        requires
            self.compilable(),
        ensures
            match self.schema() {
                Some(out) => r matches Ok(schema) && schema@ == out && schema.wf(),
                None => r matches Err(e) && e@ == unknown_kind_failure(),
            },
    ;
}

impl BuildSchema for StructuredInput {
    open spec fn compilable(&self) -> bool {
        self.wf()
    }

    open spec fn schema(&self) -> Option<Entries<TypeModel>> {
        compile_entries(self@, self@.len())
    }

    fn into_schema(self) -> (r: PRslt<SchemaMap>) {
        match compile_table(&self) {
            Ok(table) => Ok(SchemaMap::from_inner(table)),
            Err(e) => Err(e),
        }
    }
}

/// Parses a schema text: lines of `key -> type`.
pub fn parse_str(input: &str) -> (r: PRslt<SchemaMap>)
    ensures
        match crate::parser::mir::assemble(
            crate::text::split_lines(input@),
            seq!['-', '>'],
        ) {
            Err(failure) => r matches Err(e) && e@ == failure,
            Ok(tree) => match compile_entries(tree, tree.len()) {
                Some(out) => r matches Ok(schema) && schema@ == out && schema.wf() && plain_keys(
                    schema@,
                ),
                None => r matches Err(e) && e@ == unknown_kind_failure(),
            },
        },
{
    match str_to_mir::<SingleValueDiscriminants>(input) {
        Ok(mir) => {
            proof {
                lemma_compile_entries_keys(mir@, mir@.len());
            }
            mir.into_schema()
        },
        Err(e) => Err(e),
    }
}

} // verus!
