//! Typed configuration: the values that a schema admits, and the tree of
//! them that a configuration text yields under a schema.

use crate::error::{Failure, PRslt, ParseError};
use crate::number::{parse_i32, read_i32};
use crate::order::{compare_keys, key_lt, KeyOrder};
use crate::parser::mir::{assemble, leaf_lines, str_to_mir, StructuredInput, Valuable};
use crate::parser::schema::{SchemaMap, TypeModel};
use crate::parser::tree::{
    descend, dotted, lemma_rank_bounds, lemma_rank_same_keys, lookup, plain_keys, rank, resolve,
    well_formed, Entries, Node, TreeMap, TreeValue,
};
use crate::text::{lemma_join_first, split_lines, to_chars};
use strum::ParseError as NameError;
use vstd::prelude::*;
use vstd::std_specs::convert::FromSpecImpl;
use vstd::string::StringExecFns;

verus! {

/// What a leaf holds: one scalar, or a fixed number of them.
#[derive(Debug)]
pub enum Value<T: Valuable> {
    Single(T),
    Collection(Vec<T>),
}

/// The two shapes of a leaf.
#[derive(Clone, Copy, Debug, PartialEq, Eq, Structural)]
pub enum ValueDiscriminants {
    Single,
    Collection,
}

/// A typed scalar.
#[derive(Debug, PartialEq, Eq)]
pub enum SingleValue {
    String(String),
    Bool(bool),
    Integer(i32),
}

/// The kinds of scalar that a schema can declare.
#[derive(Clone, Copy, Debug, PartialEq, Eq, Structural)]
pub enum SingleValueDiscriminants {
    String,
    Bool,
    Integer,
}

/// The mathematical value of a leaf.
pub ghost enum ValueModel<V> {
    Single(V),
    Collection(Seq<V>),
}

/// The mathematical value of a typed scalar.
pub ghost enum SingleModel {
    String(Seq<char>),
    Bool(bool),
    Integer(i32),
}

impl Clone for SingleValue {
    fn clone(&self) -> (r: Self)
        ensures
            r@ == self@,
    {
        match self {
            SingleValue::String(text) => SingleValue::String(text.clone()),
            SingleValue::Bool(flag) => SingleValue::Bool(*flag),
            SingleValue::Integer(number) => SingleValue::Integer(*number),
        }
    }
}

impl<T: Valuable + Clone> Clone for Value<T> {
    fn clone(&self) -> (r: Self)
        ensures
            match (*self, r) {
                (Value::Single(item), Value::Single(copy)) => cloned(item, copy),
                (Value::Collection(items), Value::Collection(copies)) => copies@.len()
                    == items@.len() && forall|i: int|
                    0 <= i < items@.len() ==> cloned(#[trigger] items@[i], copies@[i]),
                _ => false,
            },
    {
        match self {
            Value::Single(item) => Value::Single(item.clone()),
            Value::Collection(items) => Value::Collection(items.clone()),
        }
    }
}

impl View for SingleValue {
    type V = SingleModel;

    open spec fn view(&self) -> SingleModel {
        match self {
            SingleValue::String(text) => SingleModel::String(text@),
            SingleValue::Bool(flag) => SingleModel::Bool(*flag),
            SingleValue::Integer(number) => SingleModel::Integer(*number),
        }
    }
}

impl View for SingleValueDiscriminants {
    type V = SingleValueDiscriminants;

    open spec fn view(&self) -> SingleValueDiscriminants {
        *self
    }
}

impl<T: Valuable + View> View for Value<T> {
    type V = ValueModel<T::V>;

    open spec fn view(&self) -> ValueModel<T::V> {
        match self {
            Value::Single(item) => ValueModel::Single(item@),
            Value::Collection(items) => ValueModel::Collection(
                Seq::new(items@.len(), |i: int| items@[i]@),
            ),
        }
    }
}

/// `strum::ParseError`, the error of reading a name that is none of an
/// enum's variants.
#[verifier::external_type_specification]
#[verifier::external_body]
pub struct ExNameError(NameError);

/// The error that no variant was found.
#[verifier::external_body]
fn variant_not_found() -> NameError {
    NameError::VariantNotFound
}

/// The kind of a typed scalar.
pub open spec fn kind_of(value: SingleModel) -> SingleValueDiscriminants {
    match value {
        SingleModel::String(_) => SingleValueDiscriminants::String,
        SingleModel::Bool(_) => SingleValueDiscriminants::Bool,
        SingleModel::Integer(_) => SingleValueDiscriminants::Integer,
    }
}

/// The shape of a leaf.
pub open spec fn shape_of<T: Valuable>(value: Value<T>) -> ValueDiscriminants {
    match value {
        Value::Single(_) => ValueDiscriminants::Single,
        Value::Collection(_) => ValueDiscriminants::Collection,
    }
}

impl From<SingleValue> for SingleValueDiscriminants {
    fn from(value: SingleValue) -> (r: SingleValueDiscriminants)
        ensures
            r == kind_of(value@),
    {
        match value {
            SingleValue::String(_) => SingleValueDiscriminants::String,
            SingleValue::Bool(_) => SingleValueDiscriminants::Bool,
            SingleValue::Integer(_) => SingleValueDiscriminants::Integer,
        }
    }
}

impl FromSpecImpl<SingleValue> for SingleValueDiscriminants {
    open spec fn obeys_from_spec() -> bool {
        true
    }

    open spec fn from_spec(value: SingleValue) -> SingleValueDiscriminants {
        kind_of(value@)
    }
}

impl<'a> From<&'a SingleValue> for SingleValueDiscriminants {
    fn from(value: &'a SingleValue) -> (r: SingleValueDiscriminants)
        ensures
            r == kind_of(value@),
    {
        match value {
            SingleValue::String(_) => SingleValueDiscriminants::String,
            SingleValue::Bool(_) => SingleValueDiscriminants::Bool,
            SingleValue::Integer(_) => SingleValueDiscriminants::Integer,
        }
    }
}

impl<'a> FromSpecImpl<&'a SingleValue> for SingleValueDiscriminants {
    open spec fn obeys_from_spec() -> bool {
        true
    }

    open spec fn from_spec(value: &'a SingleValue) -> SingleValueDiscriminants {
        kind_of(value@)
    }
}

impl<T: Valuable> From<Value<T>> for ValueDiscriminants {
    fn from(value: Value<T>) -> (r: ValueDiscriminants)
        ensures
            r == shape_of(value),
    {
        match value {
            Value::Single(_) => ValueDiscriminants::Single,
            Value::Collection(_) => ValueDiscriminants::Collection,
        }
    }
}

impl<T: Valuable> FromSpecImpl<Value<T>> for ValueDiscriminants {
    open spec fn obeys_from_spec() -> bool {
        true
    }

    open spec fn from_spec(value: Value<T>) -> ValueDiscriminants {
        shape_of(value)
    }
}

impl<'a, T: Valuable> From<&'a Value<T>> for ValueDiscriminants {
    fn from(value: &'a Value<T>) -> (r: ValueDiscriminants)
        ensures
            r == shape_of(*value),
    {
        match value {
            Value::Single(_) => ValueDiscriminants::Single,
            Value::Collection(_) => ValueDiscriminants::Collection,
        }
    }
}

impl<'a, T: Valuable> FromSpecImpl<&'a Value<T>> for ValueDiscriminants {
    open spec fn obeys_from_spec() -> bool {
        true
    }

    open spec fn from_spec(value: &'a Value<T>) -> ValueDiscriminants {
        shape_of(*value)
    }
}

impl std::str::FromStr for SingleValueDiscriminants {
    type Err = NameError;

    fn from_str(s: &str) -> (r: Result<SingleValueDiscriminants, NameError>)
        ensures
            match kind_named(s@) {
                Some(kind) => r == Ok::<SingleValueDiscriminants, NameError>(kind),
                None => r is Err,
            },
    {
        SingleValueDiscriminants::from_str(s)
    }
}

/// The name of a kind.
pub open spec fn kind_name(kind: SingleValueDiscriminants) -> Seq<char> {
    match kind {
        SingleValueDiscriminants::String => seq!['S', 't', 'r', 'i', 'n', 'g'],
        SingleValueDiscriminants::Bool => seq!['B', 'o', 'o', 'l'],
        SingleValueDiscriminants::Integer => seq!['I', 'n', 't', 'e', 'g', 'e', 'r'],
    }
}

/// The kind that a name stands for.
pub open spec fn kind_named(name: Seq<char>) -> Option<SingleValueDiscriminants> {
    if name == kind_name(SingleValueDiscriminants::String) {
        Some(SingleValueDiscriminants::String)
    } else if name == kind_name(SingleValueDiscriminants::Bool) {
        Some(SingleValueDiscriminants::Bool)
    } else if name == kind_name(SingleValueDiscriminants::Integer) {
        Some(SingleValueDiscriminants::Integer)
    } else {
        None
    }
}

/// The name of a shape.
pub open spec fn shape_name(shape: ValueDiscriminants) -> Seq<char> {
    match shape {
        ValueDiscriminants::Single => seq!['S', 'i', 'n', 'g', 'l', 'e'],
        ValueDiscriminants::Collection => seq!['C', 'o', 'l', 'l', 'e', 'c', 't', 'i', 'o', 'n'],
    }
}

impl SingleValueDiscriminants {
    /// The kind that `s` names. The names are those of the kinds, letter for
    /// letter.
    pub fn from_str(s: &str) -> (r: Result<SingleValueDiscriminants, NameError>)
        ensures
            match kind_named(s@) {
                Some(kind) => r == Ok::<SingleValueDiscriminants, NameError>(kind),
                None => r is Err,
            },
    {
        proof {
            reveal_strlit("String");
            reveal_strlit("Bool");
            reveal_strlit("Integer");
            assert("String"@ =~= kind_name(SingleValueDiscriminants::String));
            assert("Bool"@ =~= kind_name(SingleValueDiscriminants::Bool));
            assert("Integer"@ =~= kind_name(SingleValueDiscriminants::Integer));
        }
        if compare_keys(s, "String") == KeyOrder::Same {
            Ok(SingleValueDiscriminants::String)
        } else if compare_keys(s, "Bool") == KeyOrder::Same {
            Ok(SingleValueDiscriminants::Bool)
        } else if compare_keys(s, "Integer") == KeyOrder::Same {
            Ok(SingleValueDiscriminants::Integer)
        } else {
            Err(variant_not_found())
        }
    }

    /// The name of the kind.
    pub fn to_string(&self) -> (r: String)
        ensures
            r@ == kind_name(*self),
    {
        proof {
            reveal_strlit("String");
            reveal_strlit("Bool");
            reveal_strlit("Integer");
            assert("String"@ =~= kind_name(SingleValueDiscriminants::String));
            assert("Bool"@ =~= kind_name(SingleValueDiscriminants::Bool));
            assert("Integer"@ =~= kind_name(SingleValueDiscriminants::Integer));
        }
        match self {
            SingleValueDiscriminants::String => String::from_str("String"),
            SingleValueDiscriminants::Bool => String::from_str("Bool"),
            SingleValueDiscriminants::Integer => String::from_str("Integer"),
        }
    }
}

impl ValueDiscriminants {
    /// The name of the shape.
    pub fn to_string(&self) -> (r: String)
        ensures
            r@ == shape_name(*self),
    {
        proof {
            reveal_strlit("Single");
            reveal_strlit("Collection");
            assert("Single"@ =~= shape_name(ValueDiscriminants::Single));
            assert("Collection"@ =~= shape_name(ValueDiscriminants::Collection));
        }
        match self {
            ValueDiscriminants::Single => String::from_str("Single"),
            ValueDiscriminants::Collection => String::from_str("Collection"),
        }
    }
}

impl Valuable for SingleValue {
    open spec fn delimiter() -> Seq<char> {
        seq!['=']
    }

    fn sep() -> (s: &'static str) {
        proof {
            reveal_strlit("=");
        }
        assert("="@ =~= seq!['=']);
        "="
    }
}

impl Valuable for SingleValueDiscriminants {
    open spec fn delimiter() -> Seq<char> {
        seq!['-', '>']
    }

    fn sep() -> (s: &'static str) {
        proof {
            reveal_strlit("->");
        }
        assert("->"@ =~= seq!['-', '>']);
        "->"
    }
}

/// A node of a configuration: a typed leaf, or a nested table.
pub type ConfValue = TreeValue<Value<SingleValue>>;

/// The typed value of a leaf, as a mathematical value.
pub type TypedModel = ValueModel<SingleModel>;

/// A configuration: the typed value of every key.
#[derive(Debug)]
pub struct ConfMap(pub TreeMap<Value<SingleValue>>);

impl View for ConfMap {
    type V = Entries<TypedModel>;

    open spec fn view(&self) -> Entries<TypedModel> {
        self.0@
    }
}

impl ConfMap {
    /// Every table of the configuration has its keys in order.
    pub open spec fn wf(&self) -> bool {
        self.0.wf()
    }

    /// The configuration that holds nothing.
    pub fn new() -> (r: Self)
        ensures
            r@ == Seq::<(Seq<char>, Node<TypedModel>)>::empty(),
            r.wf(),
    {
        ConfMap(TreeMap::new())
    }

    pub fn into_inner(self) -> (r: TreeMap<Value<SingleValue>>)
        ensures
            r == self.0,
    {
        self.0
    }

    /// The node that the configuration holds for a dotted key. See
    /// [`resolve`].
    pub fn get(&self, key: &str) -> (r: Option<&ConfValue>)
        requires
            self.wf(),
        ensures
            match r {
                Some(v) => resolve(self@, key@) == Some(v@) && v.wf(),
                None => resolve(self@, key@) is None,
            },
    {
        self.0.get_path(key)
    }
}

impl Default for ConfMap {
    fn default() -> (r: Self)
        ensures
            r@ == Seq::<(Seq<char>, Node<TypedModel>)>::empty(),
            r.wf(),
    {
        ConfMap::new()
    }
}

/// The typed scalar that a raw text is under a kind. Any text is a `String`;
/// a `Bool` is true for the text `true` and false for every other; an
/// `Integer` is the 32-bit signed integer that the text is a numeral of, and
/// there is none where it is no such numeral.
pub open spec fn convert(kind: SingleValueDiscriminants, raw: Seq<char>) -> Option<SingleModel> {
    match kind {
        SingleValueDiscriminants::String => Some(SingleModel::String(raw)),
        SingleValueDiscriminants::Bool => Some(SingleModel::Bool(raw == seq!['t', 'r', 'u', 'e'])),
        SingleValueDiscriminants::Integer => match parse_i32(raw) {
            Some(number) => Some(SingleModel::Integer(number)),
            None => None,
        },
    }
}

/// The typed scalars that one raw text is under each of the first `count`
/// kinds, or the first kind under which it is none.
pub open spec fn convert_all(kinds: Seq<SingleValueDiscriminants>, raw: Seq<char>, count: nat)
    -> Result<Seq<SingleModel>, SingleValueDiscriminants>
    decreases count,
{
    if count == 0 || count > kinds.len() {
        Ok(Seq::empty())
    } else {
        match convert_all(kinds, raw, (count - 1) as nat) {
            Err(kind) => Err(kind),
            Ok(items) => match convert(kinds[count - 1], raw) {
                Some(item) => Ok(items.push(item)),
                None => Err(kinds[count - 1]),
            },
        }
    }
}

/// The typed value of a leaf: the raw text under the declared kind or, for a
/// collection, the same raw text under each declared kind in turn. A kind
/// that takes no such text fails the leaf with that kind.
pub open spec fn inject(key: Seq<char>, ty: TypeModel, raw: Seq<char>, line: usize) -> Result<
    TypedModel,
    Failure,
> {
    match ty {
        ValueModel::Single(kind) => match convert(kind, raw) {
            Some(item) => Ok(ValueModel::Single(item)),
            None => Err(Failure::InvalidValue { key, value: raw, ty: kind, line }),
        },
        ValueModel::Collection(kinds) => match convert_all(kinds, raw, kinds.len()) {
            Ok(items) => Ok(ValueModel::Collection(items)),
            Err(kind) => Err(Failure::InvalidValue { key, value: raw, ty: kind, line }),
        },
    }
}

/// The path that an unknown key is reported under: from `root` on, the first
/// key of each nested table, down to a leaf or an empty table.
pub open spec fn unknown_path(root: Seq<char>, node: Node<(Seq<char>, usize)>) -> Seq<char>
    decreases node,
{
    match node {
        Node::Leaf(_) => root,
        Node::Branch(es) => if es.len() == 0 {
            root
        } else if root.len() == 0 {
            unknown_path(es[0].0, es[0].1)
        } else {
            unknown_path(root + seq!['.'] + es[0].0, es[0].1)
        },
    }
}

/// What an unmatched part of the input is reported as: the path it is
/// reported under, and the lines of all its leaves.
pub open spec fn unknown(root: Seq<char>, node: Node<(Seq<char>, usize)>) -> Failure {
    Failure::UnknownKey { key: unknown_path(root, node), lines: leaf_lines(node) }
}

/// The dotted path of a key below a prefix.
pub open spec fn below(prefix: Option<Seq<char>>, key: Seq<char>) -> Seq<char> {
    match prefix {
        Some(base) => base + seq!['.'] + key,
        None => key,
    }
}

/// The typed entries of the first `count` entries of the table `input` under
/// the schema table `schema`, or the first failure. `prefix` is the dotted
/// path of the table, and `None` at the root.
///
/// A key that the schema lacks is unknown: at the root of a schema that is
/// not empty it is reported by itself, elsewhere under its path. Under a
/// declared leaf the input must be a leaf, and is typed; a table there holds
/// only keys that the schema lacks. Under a declared table the input must be
/// a table; a leaf there conflicts with the schema.
pub open spec fn reconcile(
    input: Entries<(Seq<char>, usize)>,
    schema: Entries<TypeModel>,
    prefix: Option<Seq<char>>,
    count: nat,
) -> Result<Entries<TypedModel>, Failure>
    decreases input, count,
{
    if count == 0 || count > input.len() {
        Ok(Seq::empty())
    } else {
        match reconcile(input, schema, prefix, (count - 1) as nat) {
            Err(failure) => Err(failure),
            Ok(out) => {
                let key = input[count - 1].0;
                let node = input[count - 1].1;
                let path = below(prefix, key);
                match lookup(schema, key) {
                    None => if prefix is None && schema.len() > 0 {
                        Err(Failure::UnknownKey { key, lines: leaf_lines(node) })
                    } else {
                        Err(unknown(path, node))
                    },
                    Some(Node::Leaf(ty)) => match node {
                        Node::Leaf(payload) => match inject(path, ty, payload.0, payload.1) {
                            Ok(value) => Ok(out.push((key, Node::Leaf(value)))),
                            Err(failure) => Err(failure),
                        },
                        Node::Branch(_) => Err(unknown(path, node)),
                    },
                    Some(Node::Branch(declared)) => match node {
                        Node::Branch(given) => match reconcile(
                            given,
                            declared,
                            Some(path),
                            given.len(),
                        ) {
                            Ok(table) => Ok(out.push((key, Node::Branch(table)))),
                            Err(failure) => Err(failure),
                        },
                        Node::Leaf(payload) => Err(
                            Failure::ConflictingTypes { key: path, line: payload.1 },
                        ),
                    },
                }
            },
        }
    }
}

/// The typed entries keep the keys of the entries they come from.
pub proof fn lemma_reconcile_keys(
    input: Entries<(Seq<char>, usize)>,
    schema: Entries<TypeModel>,
    prefix: Option<Seq<char>>,
    count: nat,
)
    requires
        count <= input.len(),
    ensures
        reconcile(input, schema, prefix, count) matches Ok(out) ==> out.len() == count
            && forall|i: int| 0 <= i < count ==> (#[trigger] out[i]).0 == input[i].0,
    decreases count,
{
    if count > 0 {
        lemma_reconcile_keys(input, schema, prefix, (count - 1) as nat);
    }
}

/// What a typed entry is: it keeps its key, and its tree is the typed leaf
/// or the typed table that the input and the schema give for the key.
pub proof fn lemma_reconcile_entry(
    input: Entries<(Seq<char>, usize)>,
    schema: Entries<TypeModel>,
    prefix: Option<Seq<char>>,
    count: nat,
    i: int,
)
    requires
        count <= input.len(),
        0 <= i < count,
        reconcile(input, schema, prefix, count) is Ok,
    ensures
        ({
            let out = reconcile(input, schema, prefix, count)->Ok_0;
            let path = below(prefix, input[i].0);
            &&& out.len() == count
            &&& out[i].0 == input[i].0
            &&& match (lookup(schema, input[i].0), input[i].1) {
                (Some(Node::Leaf(ty)), Node::Leaf(payload)) => out[i].1 == Node::Leaf(
                    inject(path, ty, payload.0, payload.1)->Ok_0,
                ) && inject(path, ty, payload.0, payload.1) is Ok,
                (Some(Node::Branch(declared)), Node::Branch(given)) => out[i].1 == Node::Branch(
                    reconcile(given, declared, Some(path), given.len())->Ok_0,
                ) && reconcile(given, declared, Some(path), given.len()) is Ok,
                _ => false,
            }
        }),
    decreases count,
{
    lemma_reconcile_keys(input, schema, prefix, count);
    if i < count - 1 {
        lemma_reconcile_keys(input, schema, prefix, (count - 1) as nat);
        lemma_reconcile_entry(input, schema, prefix, (count - 1) as nat, i);
        let before = reconcile(input, schema, prefix, (count - 1) as nat)->Ok_0;
        let out = reconcile(input, schema, prefix, count)->Ok_0;
        assert(out[i] == before[i]);
    }
}

/// Typing law: a value that the input holds at a path is held by the
/// configuration at the same path, typed as the schema declares it there,
/// under the dotted key of the path.
pub proof fn lemma_reconcile_descend(
    input: Entries<(Seq<char>, usize)>,
    schema: Entries<TypeModel>,
    prefix: Option<Seq<char>>,
    path: Seq<Seq<char>>,
    depth: int,
    raw: Seq<char>,
    line: usize,
)
    requires
        well_formed(Node::Branch(input)),
        reconcile(input, schema, prefix, input.len()) is Ok,
        0 <= depth < path.len(),
        descend(input, path, depth) == Some(Node::Leaf((raw, line))),
    ensures
        ({
            let out = reconcile(input, schema, prefix, input.len())->Ok_0;
            let key = below(prefix, dotted(path.skip(depth)));
            &&& descend(schema, path, depth) matches Some(Node::Leaf(ty))
            &&& inject(key, ty, raw, line) is Ok
            &&& descend(out, path, depth) == Some(Node::Leaf(inject(key, ty, raw, line)->Ok_0))
        }),
    decreases path.len() - depth,
{
    let out = reconcile(input, schema, prefix, input.len())->Ok_0;
    let segment = path[depth];
    let r = rank(input, segment);
    lemma_rank_bounds(input, segment);
    lemma_reconcile_keys(input, schema, prefix, input.len());
    lemma_reconcile_entry(input, schema, prefix, input.len(), r);
    lemma_rank_same_keys(out, input, segment);
    assert(lookup(out, segment) == Some(out[r].1));
    assert(well_formed(input[r].1));
    let rest = path.skip(depth);
    assert(rest[0] == segment);
    if depth == path.len() - 1 {
        assert(rest =~= seq![segment]);
        assert(dotted(rest) == segment);
    } else {
        let here = below(prefix, segment);
        let given = input[r].1->Branch_0;
        let declared = lookup(schema, segment)->Some_0->Branch_0;
        lemma_reconcile_descend(given, declared, Some(here), path, depth + 1, raw, line);
        assert(rest.drop_first() =~= path.skip(depth + 1));
        lemma_join_first(rest, seq!['.']);
        let tail = dotted(path.skip(depth + 1));
        assert(below(Some(here), tail) =~= below(prefix, dotted(rest))) by {
            match prefix {
                Some(base) => {
                    assert(base + seq!['.'] + segment + seq!['.'] + tail =~= base + seq!['.'] + (
                    segment + seq!['.'] + tail));
                },
                None => {},
            }
        }
    }
}

/// Once an entry has failed, the entries after it change nothing.
pub proof fn lemma_reconcile_fails(
    input: Entries<(Seq<char>, usize)>,
    schema: Entries<TypeModel>,
    prefix: Option<Seq<char>>,
    count: nat,
)
    requires
        count <= input.len(),
        reconcile(input, schema, prefix, count) is Err,
    ensures
        reconcile(input, schema, prefix, input.len()) == reconcile(input, schema, prefix, count),
    decreases input.len() - count,
{
    if count < input.len() {
        lemma_reconcile_fails(input, schema, prefix, count + 1);
    }
}

/// Reads a 32-bit signed integer from the text of a value.
pub fn parse_str_as_i32(key: &str, value: &str, line: usize) -> (r: PRslt<i32>)
    ensures
        match parse_i32(value@) {
            Some(number) => r matches Ok(v) && v == number,
            None => r matches Err(e) && e@ == (Failure::InvalidValue {
                key: key@,
                value: value@,
                ty: SingleValueDiscriminants::Integer,
                line,
            }),
        },
{
    let chars = to_chars(value);
    match read_i32(chars.as_slice()) {
        Some(number) => Ok(number),
        None => Err(
            ParseError::InvalidValue {
                key: String::from_str(key),
                value: String::from_str(value),
                ty: SingleValueDiscriminants::Integer,
                line,
            },
        ),
    }
}

impl SingleValueDiscriminants {
    /// The typed scalar that the text of a value is under this kind. See
    /// [`convert`].
    pub fn into_payload(self, key: &str, value: &str, line: usize) -> (r: PRslt<SingleValue>)
        ensures
            match convert(self, value@) {
                Some(item) => r matches Ok(v) && v@ == item && kind_of(v@) == self,
                None => r matches Err(e) && e@ == (Failure::InvalidValue {
                    key: key@,
                    value: value@,
                    ty: self,
                    line,
                }),
            },
    {
        match self {
            SingleValueDiscriminants::String => Ok(SingleValue::String(String::from_str(value))),
            SingleValueDiscriminants::Bool => {
                proof {
                    reveal_strlit("true");
                    assert("true"@ =~= seq!['t', 'r', 'u', 'e']);
                }
                Ok(SingleValue::Bool(compare_keys(value, "true") == KeyOrder::Same))
            },
            SingleValueDiscriminants::Integer => match parse_str_as_i32(key, value, line) {
                Ok(number) => Ok(SingleValue::Integer(number)),
                Err(e) => Err(e),
            },
        }
    }
}

/// The typed value of a leaf with the text `raw` under the declared type.
/// See [`inject`].
pub fn typed_value(key: &str, ty: &Value<SingleValueDiscriminants>, raw: &str, line: usize) -> (r:
    PRslt<Value<SingleValue>>)
    ensures
        match inject(key@, ty@, raw@, line) {
            Ok(value) => r matches Ok(v) && v@ == value,
            Err(failure) => r matches Err(e) && e@ == failure,
        },
{
    match ty {
        Value::Single(kind) => match kind.into_payload(key, raw, line) {
            Ok(item) => Ok(Value::Single(item)),
            Err(e) => Err(e),
        },
        Value::Collection(kinds) => {
            let ghost model = Seq::new(kinds@.len(), |i: int| kinds@[i]@);
            assert(ty@ == ValueModel::Collection(model));
            let mut items: Vec<SingleValue> = Vec::new();
            let mut i: usize = 0;
            assert(Seq::new(items@.len(), |j: int| items@[j]@) =~= Seq::<SingleModel>::empty());
            while i < kinds.len()
                invariant
                    i <= kinds@.len() == model.len(),
                    ty@ == ValueModel::<SingleValueDiscriminants>::Collection(model),
                    forall|j: int| 0 <= j < kinds@.len() ==> #[trigger] model[j] == kinds@[j],
                    convert_all(model, raw@, i as nat) == Ok::<
                        Seq<SingleModel>,
                        SingleValueDiscriminants,
                    >(Seq::new(items@.len(), |j: int| items@[j]@)),
                    items@.len() == i,
                decreases kinds@.len() - i,
            {
                let ghost before = Seq::new(items@.len(), |j: int| items@[j]@);
                match kinds[i].into_payload(key, raw, line) {
                    Ok(item) => {
                        items.push(item);
                        assert(Seq::new(items@.len(), |j: int| items@[j]@) =~= before.push(item@));
                    },
                    Err(e) => {
                        proof {
                            lemma_convert_all_fails(model, raw@, (i + 1) as nat);
                        }
                        return Err(e);
                    },
                }
                i += 1;
            }
            Ok(Value::Collection(items))
        },
    }
}

/// Boolean law: under `Bool` every text is taken, and only the text `true`
/// is true.
pub proof fn lemma_bool_only_true(raw: Seq<char>)
    ensures
        convert(SingleValueDiscriminants::Bool, raw) == Some(
            SingleModel::Bool(raw == seq!['t', 'r', 'u', 'e']),
        ),
{
}

/// Collection law: a collection leaf holds one entry for every declared
/// kind, and each entry is the one raw text under the kind in its place.
pub proof fn lemma_collection_entries(
    kinds: Seq<SingleValueDiscriminants>,
    raw: Seq<char>,
    count: nat,
)
    requires
        count <= kinds.len(),
    ensures
        convert_all(kinds, raw, count) matches Ok(items) ==> items.len() == count && forall|i: int|
            0 <= i < count ==> convert(kinds[i], raw) == Some(#[trigger] items[i]),
    decreases count,
{
    if count > 0 {
        lemma_collection_entries(kinds, raw, (count - 1) as nat);
    }
}

/// Once a kind has failed, the kinds after it change nothing.
pub proof fn lemma_convert_all_fails(
    kinds: Seq<SingleValueDiscriminants>,
    raw: Seq<char>,
    count: nat,
)
    requires
        count <= kinds.len(),
        convert_all(kinds, raw, count) is Err,
    ensures
        convert_all(kinds, raw, kinds.len()) == convert_all(kinds, raw, count),
    decreases kinds.len() - count,
{
    if count < kinds.len() {
        lemma_convert_all_fails(kinds, raw, count + 1);
    }
}

/// The path that an unknown key is reported under. See [`unknown_path`].
pub fn format_unknown_key_path(root: &str, value: &TreeValue<(String, usize)>) -> (r: String)
    ensures
        r@ == unknown_path(root@, value@),
{
    let mut path = String::from_str(root);
    let mut current = value;
    loop
        invariant
            unknown_path(root@, value@) == unknown_path(path@, current@),
        decreases current@,
    {
        match current {
            TreeValue::Scalar(_) => {
                return path;
            },
            TreeValue::Nested(children) => {
                if children.is_empty() {
                    return path;
                }
                let ghost before = path@;
                if !path.as_str().is_empty() {
                    path.push('.');
                }
                path.append(children.key_at(0).as_str());
                assert(path@ =~= if before.len() == 0 {
                    children@[0].0
                } else {
                    before + seq!['.'] + children@[0].0
                });
                current = children.value_at(0);
            },
        }
    }
}

/// What an unmatched part of the input is reported as. See [`unknown`].
fn unknown_key(root: &str, value: &TreeValue<(String, usize)>) -> (r: ParseError)
    ensures
        r@ == unknown(root@, value@),
{
    ParseError::UnknownKey {
        key: format_unknown_key_path(root, value),
        lines: value.get_lines_of_key(),
    }
}

/// The typed leaf for a leaf of the input under the declared type `ty`. See
/// [`inject`]. A table in the place of the leaf holds only keys that the
/// schema lacks, and is reported as [`unknown`].
pub fn inject_payload(
    key: &str,
    schema_value: &Value<SingleValueDiscriminants>,
    mir_value: TreeValue<(String, usize)>,
) -> (r: PRslt<ConfValue>)
    ensures
        match mir_value@ {
            Node::Leaf(payload) => match inject(key@, schema_value@, payload.0, payload.1) {
                Ok(value) => r matches Ok(v) && v@ == Node::Leaf(value),
                Err(failure) => r matches Err(e) && e@ == failure,
            },
            Node::Branch(_) => r matches Err(e) && e@ == unknown(key@, mir_value@),
        },
{
    match &mir_value {
        TreeValue::Scalar((raw, line)) => {
            match typed_value(key, schema_value, raw.as_str(), *line) {
                Ok(value) => Ok(TreeValue::Scalar(value)),
                Err(e) => Err(e),
            }
        },
        TreeValue::Nested(_) => Err(unknown_key(key, &mir_value)),
    }
}

/// The view of an optional prefix.
pub open spec fn prefix_view(prefix: Option<&str>) -> Option<Seq<char>> {
    match prefix {
        Some(base) => Some(base@),
        None => None,
    }
}

/// Types the table `input` under the schema table `schema`.
fn reconcile_table(
    input: &StructuredInput,
    schema: &TreeMap<Value<SingleValueDiscriminants>>,
    prefix: Option<&str>,
) -> (r: PRslt<TreeMap<Value<SingleValue>>>)
    requires
        input.wf(),
        schema.wf(),
    ensures
        match reconcile(input@, schema@, prefix_view(prefix), input@.len()) {
            Ok(out) => r matches Ok(table) && table@ == out && table.wf(),
            Err(failure) => r matches Err(e) && e@ == failure,
        },
    decreases input@,
{
    let mut out: TreeMap<Value<SingleValue>> = TreeMap::new();
    let n = input.len();
    let bare = prefix.is_none() && !schema.is_empty();
    let mut i: usize = 0;
    while i < n
        invariant
            i <= n == input@.len(),
            input.wf(),
            schema.wf(),
            out.wf(),
            bare == (prefix is None && schema@.len() > 0),
            reconcile(input@, schema@, prefix_view(prefix), i as nat) == Ok::<
                Entries<TypedModel>,
                Failure,
            >(out@),
        decreases n - i,
    {
        let key = input.key_at(i);
        let given = input.value_at(i);
        let ghost node = input@[i as int].1;
        assert(well_formed(node));
        let mut path = String::new();
        match prefix {
            Some(base) => {
                path.append(base);
                path.push('.');
                path.append(key.as_str());
            },
            None => {
                path.append(key.as_str());
            },
        }
        assert(path@ =~= below(prefix_view(prefix), key@));
        let typed: PRslt<ConfValue> = match schema.get(key.as_str()) {
            None => {
                if bare {
                    Err(
                        ParseError::UnknownKey {
                            key: key.clone(),
                            lines: given.get_lines_of_key(),
                        },
                    )
                } else {
                    Err(unknown_key(path.as_str(), given))
                }
            },
            Some(TreeValue::Scalar(ty)) => match given {
                TreeValue::Scalar((raw, line)) => {
                    assert(node matches Node::Leaf(payload) && payload == (raw@, *line));
                    match typed_value(path.as_str(), ty, raw.as_str(), *line) {
                        Ok(value) => Ok(TreeValue::Scalar(value)),
                        Err(e) => Err(e),
                    }
                },
                TreeValue::Nested(_) => Err(unknown_key(path.as_str(), given)),
            },
            Some(TreeValue::Nested(declared)) => match given {
                TreeValue::Nested(table) => {
                    assert(node == Node::Branch(table@));
                    match reconcile_table(table, declared, Some(path.as_str())) {
                        Ok(table) => Ok(TreeValue::Nested(table)),
                        Err(e) => Err(e),
                    }
                },
                TreeValue::Scalar((_, line)) => {
                    assert(node matches Node::Leaf(payload) && payload.1 == *line);
                    Err(ParseError::ConflictingTypes { key: path, line: *line })
                },
            },
        };
        match typed {
            Err(e) => {
                proof {
                    lemma_reconcile_fails(input@, schema@, prefix_view(prefix), (i + 1) as nat);
                }
                return Err(e);
            },
            Ok(value) => {
                proof {
                    lemma_reconcile_keys(input@, schema@, prefix_view(prefix), i as nat);
                    if i > 0 {
                        assert(key_lt(input@[i - 1].0, input@[i as int].0));
                    }
                }
                out.push_last(key.clone(), value);
            },
        }
        i += 1;
    }
    Ok(out)
}

/// Types the tree `input` under the schema table `schema`. See
/// [`reconcile`].
pub fn build_conf_map(
    input: StructuredInput,
    schema: &TreeMap<Value<SingleValueDiscriminants>>,
    prefix: Option<&str>,
) -> (r: PRslt<TreeMap<Value<SingleValue>>>)
    requires
        input.wf(),
        schema.wf(),
    ensures
        match reconcile(input@, schema@, prefix_view(prefix), input@.len()) {
            Ok(out) => r matches Ok(table) && table@ == out && table.wf(),
            Err(failure) => r matches Err(e) && e@ == failure,
        },
{
    reconcile_table(&input, schema, prefix)
}

/// What can be typed under a schema.
pub trait BuildConf: Sized {
    /// What `into_conf` asks of the value.
    spec fn reconcilable(&self) -> bool;

    /// The configuration that the value is under a schema, or the failure.
    spec fn conf(&self, schema: Entries<TypeModel>) -> Result<Entries<TypedModel>, Failure>;

    /// Types the value under a schema.
    fn into_conf(self, schema: &SchemaMap) -> (r: PRslt<ConfMap>)
        requires
            self.reconcilable(),
            schema.wf(),
        ensures
            match self.conf(schema@) {
                Ok(out) => r matches Ok(conf) && conf@ == out && conf.wf(),
                Err(failure) => r matches Err(e) && e@ == failure,
            },
    ;
}

impl BuildConf for StructuredInput {
    open spec fn reconcilable(&self) -> bool {
        self.wf()
    }

    open spec fn conf(&self, schema: Entries<TypeModel>) -> Result<Entries<TypedModel>, Failure> {
        reconcile(self@, schema, None, self@.len())
    }

    fn into_conf(self, schema: &SchemaMap) -> (r: PRslt<ConfMap>) {
        match build_conf_map(self, &schema.0, None) {
            Ok(table) => Ok(ConfMap(table)),
            Err(e) => Err(e),
        }
    }
}

/// Parses a configuration text, lines of `key = value`, under a schema.
pub fn parse_str(input: &str, schema: SchemaMap) -> (r: PRslt<ConfMap>)
    requires
        schema.wf(),
    ensures
        match assemble(split_lines(input@), seq!['=']) {
            Err(failure) => r matches Err(e) && e@ == failure,
            Ok(tree) => match reconcile(tree, schema@, None, tree.len()) {
                Ok(out) => r matches Ok(conf) && conf@ == out && conf.wf() && plain_keys(conf@),
                Err(failure) => r matches Err(e) && e@ == failure,
            },
        },
{
    match str_to_mir::<SingleValue>(input) {
        Ok(mir) => {
            proof {
                lemma_reconcile_keys(mir@, schema@, None, mir@.len());
            }
            mir.into_conf(&schema)
        },
        Err(e) => Err(e),
    }
}

} // verus!
