//! The tree that texts are assembled into: nested tables with their keys in
//! order, and leaves.

use crate::order::{
    compare_keys, key_lt, lemma_key_lt_asymmetric, lemma_key_lt_irreflexive, lemma_key_lt_total,
    lemma_key_lt_transitive, KeyOrder,
};
use crate::text::{
    join, lemma_split_len, lemma_split_plain, piece_bounds, split, to_chars, to_string, views,
};
use vstd::prelude::*;
use vstd::slice::slice_subrange;
use vstd::string::StringExecFns;

verus! {

/// The mathematical tree: a leaf with its payload, or the entries of a table,
/// each a key with the tree below it.
pub ghost enum Node<P> {
    Leaf(P),
    Branch(Seq<(Seq<char>, Node<P>)>),
}

/// The entries of one table.
pub type Entries<P> = Seq<(Seq<char>, Node<P>)>;

/// The keys of the entries grow strictly, so no key occurs twice.
pub open spec fn sorted<P>(es: Entries<P>) -> bool {
    forall|i: int, j: int| 0 <= i < j < es.len() ==> key_lt(es[i].0, es[j].0)
}

/// Every table of the tree has its keys in order.
pub open spec fn well_formed<P>(n: Node<P>) -> bool
    decreases n,
{
    match n {
        Node::Leaf(_) => true,
        Node::Branch(es) => sorted(es) && forall|i: int|
            0 <= i < es.len() ==> well_formed(#[trigger] es[i].1),
    }
}

/// The number of entries whose key comes before `key`. In a sorted table this
/// is the place where `key` stands, or where it would have to be put.
pub open spec fn rank<P>(es: Entries<P>, key: Seq<char>) -> int
    decreases es.len(),
{
    if es.len() == 0 {
        0
    } else {
        rank(es.drop_last(), key) + if key_lt(es.last().0, key) {
            1int
        } else {
            0int
        }
    }
}

/// The tree that a sorted table holds under `key`.
pub open spec fn lookup<P>(es: Entries<P>, key: Seq<char>) -> Option<Node<P>> {
    let r = rank(es, key);
    if r < es.len() && es[r].0 == key {
        Some(es[r].1)
    } else {
        None
    }
}

/// The sorted table with `node` under `key`, in place of what was there.
pub open spec fn put<P>(es: Entries<P>, key: Seq<char>, node: Node<P>) -> Entries<P> {
    let r = rank(es, key);
    if r < es.len() && es[r].0 == key {
        es.update(r, (key, node))
    } else {
        es.insert(r, (key, node))
    }
}

/// The segments joined by dots.
pub open spec fn dotted(path: Seq<Seq<char>>) -> Seq<char> {
    join(path, seq!['.'])
}

/// Assigns `leaf` at `path`, from the segment at `depth` on, below the table
/// `es`. Tables on the way are made where there are none. A leaf that is
/// already there is replaced. Where the path runs through a leaf, or ends on
/// a table, nothing is assigned and the result is the dotted path up to that
/// place.
pub open spec fn assign<P>(es: Entries<P>, path: Seq<Seq<char>>, depth: int, leaf: P) -> Result<
    Entries<P>,
    Seq<char>,
>
    decreases path.len() - depth,
{
    if depth < 0 || depth >= path.len() {
        Ok(es)
    } else if depth == path.len() - 1 {
        match lookup(es, path[depth]) {
            Some(Node::Branch(_)) => Err(dotted(path.take(depth + 1))),
            _ => Ok(put(es, path[depth], Node::Leaf(leaf))),
        }
    } else {
        match lookup(es, path[depth]) {
            Some(Node::Leaf(_)) => Err(dotted(path.take(depth + 1))),
            Some(Node::Branch(below)) => match assign(below, path, depth + 1, leaf) {
                Ok(tree) => Ok(put(es, path[depth], Node::Branch(tree))),
                Err(key) => Err(key),
            },
            None => match assign(Seq::empty(), path, depth + 1, leaf) {
                Ok(tree) => Ok(put(es, path[depth], Node::Branch(tree))),
                Err(key) => Err(key),
            },
        }
    }
}

/// What stands at the end of `path`, from the segment at `depth` on, below
/// the table `es`.
pub open spec fn descend<P>(es: Entries<P>, path: Seq<Seq<char>>, depth: int) -> Option<Node<P>>
    decreases path.len() - depth,
{
    if depth < 0 || depth >= path.len() {
        None
    } else {
        match lookup(es, path[depth]) {
            None => None,
            Some(node) => if depth == path.len() - 1 {
                Some(node)
            } else {
                match node {
                    Node::Branch(below) => descend(below, path, depth + 1),
                    Node::Leaf(_) => None,
                }
            },
        }
    }
}

/// What a table holds for a key given as one string: what stands under the
/// whole string as a key of the table or, where nothing does, what stands at
/// the end of the path that its pieces between dots spell.
pub open spec fn resolve<P>(es: Entries<P>, key: Seq<char>) -> Option<Node<P>> {
    match lookup(es, key) {
        Some(node) => Some(node),
        None => descend(es, split(key, '.'), 0),
    }
}

/// No key of the table holds a dot.
pub open spec fn plain_keys<P>(es: Entries<P>) -> bool {
    forall|i: int| 0 <= i < es.len() ==> !(#[trigger] es[i]).0.contains('.')
}

/// A value of the tree: a scalar leaf, or a nested table.
#[derive(Debug, PartialEq, Eq)]
pub enum TreeValue<T> {
    Scalar(T),
    Nested(TreeMap<T>),
}

/// A table of the tree: keys with the value under each, kept in the order of
/// the keys, every key once.
#[derive(Debug, PartialEq, Eq)]
pub struct TreeMap<T> {
    entries: Vec<(String, TreeValue<T>)>,
}

impl<T: View> TreeValue<T> {
    /// The mathematical tree that the value stands for.
    pub open spec fn model(&self) -> Node<T::V>
        decreases self,
    {
        match self {
            TreeValue::Scalar(payload) => Node::Leaf(payload@),
            TreeValue::Nested(table) => Node::Branch(table.model()),
        }
    }
}

impl<T: View> TreeMap<T> {
    /// The entries that the table stands for, in the order of their keys.
    pub closed spec fn model(&self) -> Entries<T::V>
        decreases self,
    {
        Seq::new(
            self.entries@.len(),
            |i: int|
                if 0 <= i < self.entries@.len() {
                    (self.entries@[i].0@, self.entries@[i].1.model())
                } else {
                    arbitrary()
                },
        )
    }
}

impl<T: View> View for TreeValue<T> {
    type V = Node<T::V>;

    open spec fn view(&self) -> Node<T::V> {
        self.model()
    }
}

impl<T: View> View for TreeMap<T> {
    type V = Entries<T::V>;

    open spec fn view(&self) -> Entries<T::V> {
        self.model()
    }
}

impl<T: View> TreeValue<T> {
    /// Every table in the value has its keys in order.
    pub open spec fn wf(&self) -> bool {
        well_formed(self@)
    }
}

impl<T: View> TreeMap<T> {
    /// The table and every table below it have their keys in order.
    pub open spec fn wf(&self) -> bool {
        well_formed(Node::Branch(self@))
    }

    /// What the view of a table is made of.
    proof fn unfold(&self)
        ensures
            self@.len() == self.entries@.len(),
            forall|i: int|
                0 <= i < self.entries@.len() ==> #[trigger] self@[i] == (
                    self.entries@[i].0@,
                    self.entries@[i].1@,
                ),
    {
    }

    /// The empty table.
    pub fn new() -> (r: Self)
        ensures
            r@ == Seq::<(Seq<char>, Node<T::V>)>::empty(),
            r.wf(),
    {
        let r = TreeMap { entries: Vec::new() };
        assert(r@ =~= Seq::empty());
        r
    }

    /// The number of entries.
    pub fn len(&self) -> (r: usize)
        ensures
            r == self@.len(),
    {
        self.entries.len()
    }

    pub fn is_empty(&self) -> (r: bool)
        ensures
            r == (self@.len() == 0),
    {
        self.entries.len() == 0
    }

    /// The key of the entry at place `i` in the order of the keys.
    pub fn key_at(&self, i: usize) -> (r: &String)
        requires
            i < self@.len(),
        ensures
            r@ == self@[i as int].0,
    {
        &self.entries[i].0
    }

    /// The value of the entry at place `i` in the order of the keys.
    pub fn value_at(&self, i: usize) -> (r: &TreeValue<T>)
        requires
            i < self@.len(),
        ensures
            r@ == self@[i as int].1,
    {
        &self.entries[i].1
    }

    /// Finds the rank of `key`, and whether the key stands there.
    fn search(&self, key: &str) -> (r: (bool, usize))
        requires
            sorted(self@),
        ensures
            r.1 == rank(self@, key@),
            r.1 <= self@.len(),
            r.0 == (r.1 < self@.len() && self@[r.1 as int].0 == key@),
    {
        let mut lo: usize = 0;
        let mut hi: usize = self.entries.len();
        while lo < hi
            invariant
                lo <= hi <= self@.len(),
                self@.len() == self.entries@.len(),
                sorted(self@),
                forall|j: int| 0 <= j < lo ==> key_lt(#[trigger] self@[j].0, key@),
                forall|j: int| hi <= j < self@.len() ==> key_lt(key@, #[trigger] self@[j].0),
            decreases hi - lo,
        {
            let mid = lo + (hi - lo) / 2;
            let ghost probe = self@[mid as int].0;
            match compare_keys(self.entries[mid].0.as_str(), key) {
                KeyOrder::Before => {
                    assert forall|j: int| 0 <= j < mid + 1 implies key_lt(
                        #[trigger] self@[j].0,
                        key@,
                    ) by {
                        if j < mid {
                            lemma_key_lt_transitive(self@[j].0, probe, key@);
                        }
                    }
                    lo = mid + 1;
                },
                KeyOrder::Same => {
                    proof {
                        lemma_key_lt_irreflexive(key@);
                        assert forall|j: int| mid <= j < self@.len() implies !key_lt(
                            #[trigger] self@[j].0,
                            key@,
                        ) by {
                            if j > mid {
                                lemma_key_lt_asymmetric(self@[j].0, key@);
                            }
                        }
                        lemma_rank_is(self@, key@, mid as int);
                    }
                    return (true, mid);
                },
                KeyOrder::After => {
                    proof {
                        lemma_key_lt_total(probe, key@);
                    }
                    assert forall|j: int| mid <= j < self@.len() implies key_lt(
                        key@,
                        #[trigger] self@[j].0,
                    ) by {
                        if j > mid {
                            lemma_key_lt_transitive(key@, probe, self@[j].0);
                        }
                    }
                    hi = mid;
                },
            }
        }
        proof {
            assert forall|j: int| lo <= j < self@.len() implies !key_lt(
                #[trigger] self@[j].0,
                key@,
            ) by {
                lemma_key_lt_asymmetric(self@[j].0, key@);
            }
            lemma_rank_is(self@, key@, lo as int);
            if lo < self@.len() {
                lemma_key_lt_irreflexive(key@);
            }
        }
        (false, lo)
    }

    /// The value under `key`.
    pub fn get(&self, key: &str) -> (r: Option<&TreeValue<T>>)
        requires
            self.wf(),
        ensures
            match r {
                Some(v) => lookup(self@, key@) == Some(v@) && v.wf(),
                None => lookup(self@, key@) is None,
            },
    {
        let (found, at) = self.search(key);
        if found {
            assert(well_formed(self@[at as int].1));
            Some(&self.entries[at].1)
        } else {
            None
        }
    }

    pub fn contains_key(&self, key: &str) -> (r: bool)
        requires
            self.wf(),
        ensures
            r == lookup(self@, key@).is_some(),
    {
        let (found, _) = self.search(key);
        found
    }

    /// Puts `value` under `key` and hands back what stood there before.
    pub fn insert(&mut self, key: String, value: TreeValue<T>) -> (r: Option<TreeValue<T>>)
        requires
            old(self).wf(),
            value.wf(),
        ensures
            final(self).wf(),
            final(self)@ == put(old(self)@, key@, value@),
            match r {
                Some(v) => lookup(old(self)@, key@) == Some(v@),
                None => lookup(old(self)@, key@) is None,
            },
    {
        let (found, at) = self.search(key.as_str());
        proof {
            lemma_put_sorted(self@, key@, value@);
        }
        if found {
            let mut held = value;
            std::mem::swap(&mut self.entries[at].1, &mut held);
            assert(self@ =~= put(old(self)@, key@, value@));
            assert(final(self).wf()) by {
                lemma_put_wf(old(self)@, key@, value@);
            }
            Some(held)
        } else {
            self.entries.insert(at, (key, value));
            assert(self@ =~= put(old(self)@, key@, value@));
            assert(final(self).wf()) by {
                lemma_put_wf(old(self)@, key@, value@);
            }
            None
        }
    }

    /// Adds an entry whose key comes after every key of the table.
    pub fn push_last(&mut self, key: String, value: TreeValue<T>)
        requires
            old(self).wf(),
            value.wf(),
            old(self)@.len() > 0 ==> key_lt(old(self)@.last().0, key@),
        ensures
            final(self).wf(),
            final(self)@ == old(self)@.push((key@, value@)),
    {
        self.entries.push((key, value));
        assert(self@ =~= old(self)@.push((key@, value@)));
        proof {
            lemma_push_wf(old(self)@, key@, value@);
        }
    }

    /// The value that the table holds for a dotted key. See [`resolve`].
    pub fn get_path(&self, key: &str) -> (r: Option<&TreeValue<T>>)
        requires
            self.wf(),
        ensures
            match r {
                Some(v) => resolve(self@, key@) == Some(v@) && v.wf(),
                None => resolve(self@, key@) is None,
            },
    {
        if let Some(v) = self.get(key) {
            return Some(v);
        }
        let chars = to_chars(key);
        let pieces = piece_bounds(chars.as_slice(), '.');
        let ghost path = split(key@, '.');
        proof {
            lemma_split_len(key@, '.');
        }
        let mut table: &TreeMap<T> = self;
        let mut depth: usize = 0;
        loop
            invariant
                depth < pieces@.len() == path.len(),
                chars@ == key@,
                path == split(key@, '.'),
                forall|j: int|
                    0 <= j < pieces@.len() ==> (#[trigger] pieces@[j]).0 <= pieces@[j].1
                        <= chars@.len() && chars@.subrange(
                        pieces@[j].0 as int,
                        pieces@[j].1 as int,
                    ) == path[j],
                table.wf(),
                lookup(self@, key@) is None,
                descend(self@, path, 0) == descend(table@, path, depth as int),
            decreases pieces@.len() - depth,
        {
            let (lo, hi) = pieces[depth];
            let segment = to_string(slice_subrange(chars.as_slice(), lo, hi));
            match table.get(segment.as_str()) {
                None => {
                    return None;
                },
                Some(value) => {
                    if depth == pieces.len() - 1 {
                        return Some(value);
                    }
                    match value {
                        TreeValue::Nested(below) => {
                            table = below;
                            depth += 1;
                        },
                        TreeValue::Scalar(_) => {
                            return None;
                        },
                    }
                },
            }
        }
    }

    /// The entries, in the order of their keys.
    pub fn into_entries(self) -> (r: Vec<(String, TreeValue<T>)>)
        ensures
            r@.len() == self@.len(),
            forall|i: int|
                0 <= i < r@.len() ==> (#[trigger] r@[i]).0@ == self@[i].0 && r@[i].1@ == self@[i].1,
    {
        self.entries
    }
}

impl<T: View> TreeMap<T> {
    /// Assigns `leaf` at `path`, and names the place of a conflict. See
    /// [`assign`].
    pub fn assign(&mut self, path: &[String], leaf: T) -> (r: Result<(), String>)
        requires
            old(self).wf(),
        ensures
            final(self).wf(),
            match assign(old(self)@, views(path@), 0, leaf@) {
                Ok(tree) => r is Ok && final(self)@ == tree,
                Err(key) => r matches Err(k) && k@ == key && final(self)@ == old(self)@,
            },
    {
        assign_below(self, path, 0, leaf)
    }
}

/// The first `count` segments joined by dots.
fn dotted_prefix(segments: &[String], count: usize) -> (r: String)
    requires
        count <= segments@.len(),
    ensures
        r@ == dotted(views(segments@).take(count as int)),
{
    let mut out = String::new();
    let mut i: usize = 0;
    let ghost path = views(segments@);
    assert(path.take(0) =~= Seq::<Seq<char>>::empty());
    while i < count
        invariant
            i <= count <= segments@.len(),
            path == views(segments@),
            out@ == dotted(path.take(i as int)),
        decreases count - i,
    {
        assert(path.take(i + 1).drop_last() =~= path.take(i as int));
        if i > 0 {
            out.push('.');
        }
        out.append(segments[i].as_str());
        assert(out@ =~= dotted(path.take(i + 1)));
        i += 1;
    }
    out
}

fn assign_below<T: View>(table: &mut TreeMap<T>, segments: &[String], depth: usize, leaf: T) -> (r:
    Result<(), String>)
    requires
        old(table).wf(),
    ensures
        final(table).wf(),
        match assign(old(table)@, views(segments@), depth as int, leaf@) {
            Ok(tree) => r is Ok && final(table)@ == tree,
            Err(key) => r matches Err(k) && k@ == key && final(table)@ == old(table)@,
        },
    decreases segments@.len() - depth,
{
    if depth >= segments.len() {
        return Ok(());
    }
    let ghost path = views(segments@);
    let ghost payload = leaf@;
    let key = &segments[depth];
    assert(key@ == path[depth as int]);
    let last = depth == segments.len() - 1;
    let (found, at) = table.search(key.as_str());
    proof {
        table.unfold();
    }
    if !found {
        if last {
            table.entries.insert(at, (key.clone(), TreeValue::Scalar(leaf)));
            proof {
                table.unfold();
                assert(table@ =~= put(old(table)@, key@, Node::Leaf(payload)));
                lemma_put_wf(old(table)@, key@, Node::Leaf(payload));
            }
            Ok(())
        } else {
            let mut below = TreeMap::new();
            match assign_below(&mut below, segments, depth + 1, leaf) {
                Ok(()) => {
                    let ghost node = Node::Branch(below@);
                    table.entries.insert(at, (key.clone(), TreeValue::Nested(below)));
                    proof {
                        table.unfold();
                        assert(table@ =~= put(old(table)@, key@, node));
                        lemma_put_wf(old(table)@, key@, node);
                    }
                    Ok(())
                },
                Err(e) => Err(e),
            }
        }
    } else {
        assert(well_formed(old(table)@[at as int].1));
        let r = match &mut table.entries[at].1 {
            TreeValue::Scalar(held) => {
                if last {
                    *held = leaf;
                    Ok(())
                } else {
                    Err(dotted_prefix(segments, depth + 1))
                }
            },
            TreeValue::Nested(below) => {
                if last {
                    Err(dotted_prefix(segments, depth + 1))
                } else {
                    assign_below(below, segments, depth + 1, leaf)
                }
            },
        };
        proof {
            table.unfold();
            old(table).unfold();
            let want = assign(old(table)@, path, depth as int, payload);
            match want {
                Ok(tree) => {
                    assert(table@ =~= tree);
                    lemma_put_wf(old(table)@, key@, table@[at as int].1);
                },
                Err(_) => {
                    assert(table@ =~= old(table)@);
                },
            }
        }
        r
    }
}

pub proof fn lemma_rank_bounds<P>(es: Entries<P>, key: Seq<char>)
    ensures
        0 <= rank(es, key) <= es.len(),
    decreases es.len(),
{
    if es.len() > 0 {
        lemma_rank_bounds(es.drop_last(), key);
    }
}

/// Where the first `i` keys come before `key` and the others do not, `i` is
/// its rank.
pub proof fn lemma_rank_is<P>(es: Entries<P>, key: Seq<char>, i: int)
    requires
        0 <= i <= es.len(),
        forall|j: int| 0 <= j < i ==> key_lt(#[trigger] es[j].0, key),
        forall|j: int| i <= j < es.len() ==> !key_lt(#[trigger] es[j].0, key),
    ensures
        rank(es, key) == i,
    decreases es.len(),
{
    if es.len() > 0 {
        let rest = es.drop_last();
        if i == es.len() {
            lemma_rank_is(rest, key, i - 1);
        } else {
            lemma_rank_is(rest, key, i);
        }
    }
}

/// Tables with the same keys give every key the same rank.
pub proof fn lemma_rank_same_keys<P, Q>(a: Entries<P>, b: Entries<Q>, key: Seq<char>)
    requires
        a.len() == b.len(),
        forall|i: int| 0 <= i < a.len() ==> (#[trigger] a[i]).0 == b[i].0,
    ensures
        rank(a, key) == rank(b, key),
    decreases a.len(),
{
    if a.len() > 0 {
        assert(a.last().0 == a[a.len() - 1].0 && b.last().0 == b[b.len() - 1].0);
        assert forall|i: int| 0 <= i < a.drop_last().len() implies (#[trigger] a.drop_last()[i]).0
            == b.drop_last()[i].0 by {
            assert(a.drop_last()[i] == a[i] && b.drop_last()[i] == b[i]);
        }
        lemma_rank_same_keys(a.drop_last(), b.drop_last(), key);
    }
}

/// In a sorted table the keys before the rank of `key` come before it, and
/// those from the rank on do not.
pub proof fn lemma_rank_splits<P>(es: Entries<P>, key: Seq<char>)
    requires
        sorted(es),
    ensures
        0 <= rank(es, key) <= es.len(),
        forall|j: int| 0 <= j < rank(es, key) ==> key_lt(#[trigger] es[j].0, key),
        forall|j: int| rank(es, key) <= j < es.len() ==> !key_lt(#[trigger] es[j].0, key),
        forall|j: int| rank(es, key) < j < es.len() ==> key_lt(key, #[trigger] es[j].0),
    decreases es.len(),
{
    if es.len() > 0 {
        let rest = es.drop_last();
        let last = es.last().0;
        assert(sorted(rest)) by {
            assert forall|i: int, j: int| 0 <= i < j < rest.len() implies key_lt(
                rest[i].0,
                rest[j].0,
            ) by {
                assert(rest[i] == es[i] && rest[j] == es[j]);
            }
        }
        lemma_rank_splits(rest, key);
        let r0 = rank(rest, key);
        let r = rank(es, key);
        if key_lt(last, key) {
            assert forall|j: int| 0 <= j < es.len() implies key_lt(#[trigger] es[j].0, key) by {
                if j < es.len() - 1 {
                    lemma_key_lt_transitive(es[j].0, last, key);
                }
            }
            if r0 < rest.len() {
                assert(rest[r0] == es[r0]);
                assert(!key_lt(rest[r0].0, key));
            }
            assert(r == es.len());
        } else {
            assert(r == r0);
            assert forall|j: int| 0 <= j < r implies key_lt(#[trigger] es[j].0, key) by {
                assert(rest[j] == es[j]);
            }
            assert forall|j: int| r <= j < es.len() implies !key_lt(#[trigger] es[j].0, key) by {
                if j < es.len() - 1 {
                    assert(rest[j] == es[j]);
                }
            }
        }
        assert forall|j: int| r < j < es.len() implies key_lt(key, #[trigger] es[j].0) by {
            lemma_key_lt_total(es[r].0, key);
            assert(!key_lt(es[r].0, key));
            assert(key_lt(es[r].0, es[j].0));
            if es[r].0 != key {
                lemma_key_lt_transitive(key, es[r].0, es[j].0);
            }
        }
    }
}

/// In a sorted table, what is found under a key is the tree of the entry
/// with that key, and nothing is found where no entry has the key.
pub proof fn lemma_lookup_is_entry<P>(es: Entries<P>, key: Seq<char>)
    requires
        sorted(es),
    ensures
        forall|i: int| 0 <= i < es.len() && (#[trigger] es[i]).0 == key ==> lookup(es, key) == Some(
            es[i].1,
        ),
        lookup(es, key) is None ==> forall|i: int|
            0 <= i < es.len() ==> (#[trigger] es[i]).0 != key,
{
    lemma_rank_splits(es, key);
    lemma_key_lt_irreflexive(key);
    let r = rank(es, key);
    assert forall|i: int| 0 <= i < es.len() && (#[trigger] es[i]).0 == key implies i == r by {
        if i < r {
            assert(key_lt(es[i].0, key));
        } else if i > r {
            assert(key_lt(key, es[i].0));
        }
    }
}

/// Putting an entry into a sorted table leaves it sorted.
pub proof fn lemma_put_sorted<P>(es: Entries<P>, key: Seq<char>, node: Node<P>)
    requires
        sorted(es),
    ensures
        sorted(put(es, key, node)),
{
    lemma_rank_splits(es, key);
    let r = rank(es, key);
    let out = put(es, key, node);
    if r < es.len() && es[r].0 == key {
        assert forall|i: int, j: int| 0 <= i < j < out.len() implies key_lt(out[i].0, out[j].0) by {
            assert(out[i].0 == es[i].0 && out[j].0 == es[j].0);
        }
    } else {
        if r < es.len() {
            lemma_key_lt_total(es[r].0, key);
        }
        assert forall|i: int, j: int| 0 <= i < j < out.len() implies key_lt(out[i].0, out[j].0) by {
            let a = if i < r {
                es[i].0
            } else if i == r {
                key
            } else {
                es[i - 1].0
            };
            assert(out[i].0 == a);
            if j > r && i != r {
                assert(out[j].0 == es[j - 1].0);
                if i > r {
                    assert(key_lt(es[i - 1].0, es[j - 1].0));
                } else {
                    assert(key_lt(es[i].0, es[j - 1].0));
                }
            } else if j > r && i == r {
                assert(out[j].0 == es[j - 1].0);
                if j - 1 > r {
                    assert(key_lt(key, es[j - 1].0));
                }
            }
        }
    }
}

/// What was put under a key is found there.
pub proof fn lemma_lookup_put_same<P>(es: Entries<P>, key: Seq<char>, node: Node<P>)
    requires
        sorted(es),
    ensures
        lookup(put(es, key, node), key) == Some(node),
{
    lemma_rank_splits(es, key);
    lemma_key_lt_irreflexive(key);
    let r = rank(es, key);
    let out = put(es, key, node);
    if !(r < es.len() && es[r].0 == key) && r < es.len() {
        lemma_key_lt_total(es[r].0, key);
    }
    assert forall|j: int| r <= j < out.len() implies !key_lt(#[trigger] out[j].0, key) by {
        if j > r {
            if r < es.len() && es[r].0 == key {
                assert(out[j].0 == es[j].0);
            } else {
                assert(out[j].0 == es[j - 1].0);
            }
        }
    }
    assert forall|j: int| 0 <= j < r implies key_lt(#[trigger] out[j].0, key) by {
        assert(out[j].0 == es[j].0);
    }
    lemma_rank_is(out, key, r);
}

/// Putting under one key leaves what stands under every other key.
pub proof fn lemma_lookup_put_other<P>(
    es: Entries<P>,
    key: Seq<char>,
    node: Node<P>,
    other: Seq<char>,
)
    requires
        sorted(es),
        other != key,
    ensures
        lookup(put(es, key, node), other) == lookup(es, other),
{
    lemma_rank_splits(es, key);
    let r = rank(es, key);
    if r < es.len() && es[r].0 == key {
        lemma_replace_keeps_others(es, r, node, other);
    } else {
        lemma_key_lt_total(key, other);
        if r < es.len() {
            lemma_key_lt_total(es[r].0, key);
        }
        if key_lt(key, other) {
            lemma_insert_before_keeps(es, key, node, other);
        } else {
            lemma_insert_after_keeps(es, key, node, other);
        }
    }
}

/// Replacing the tree of an entry changes no key, so no rank and no other
/// entry.
proof fn lemma_replace_keeps_others<P>(es: Entries<P>, r: int, node: Node<P>, other: Seq<char>)
    requires
        sorted(es),
        0 <= r < es.len(),
        other != es[r].0,
    ensures
        lookup(es.update(r, (es[r].0, node)), other) == lookup(es, other),
{
    let out = es.update(r, (es[r].0, node));
    lemma_rank_splits(es, other);
    let q = rank(es, other);
    assert forall|j: int| 0 <= j < q implies key_lt(#[trigger] out[j].0, other) by {
        assert(out[j].0 == es[j].0);
    }
    assert forall|j: int| q <= j < out.len() implies !key_lt(#[trigger] out[j].0, other) by {
        assert(out[j].0 == es[j].0);
    }
    lemma_rank_is(out, other, q);
    if q < es.len() && q != r {
        assert(out[q] == es[q]);
    }
}

/// A new entry whose key comes before `other` moves `other` one place up.
proof fn lemma_insert_before_keeps<P>(
    es: Entries<P>,
    key: Seq<char>,
    node: Node<P>,
    other: Seq<char>,
)
    requires
        sorted(es),
        key_lt(key, other),
        forall|j: int| 0 <= j < rank(es, key) ==> key_lt(#[trigger] es[j].0, key),
        forall|j: int| rank(es, key) <= j < es.len() ==> key_lt(key, #[trigger] es[j].0),
        0 <= rank(es, key) <= es.len(),
    ensures
        lookup(es.insert(rank(es, key), (key, node)), other) == lookup(es, other),
{
    let r = rank(es, key);
    let out = es.insert(r, (key, node));
    lemma_rank_splits(es, other);
    let q = rank(es, other);
    assert(r <= q) by {
        if q < r {
            assert(key_lt(es[q].0, key));
            lemma_key_lt_transitive(es[q].0, key, other);
        }
    }
    assert forall|j: int| 0 <= j < q + 1 implies key_lt(#[trigger] out[j].0, other) by {
        if j < r {
            assert(out[j] == es[j]);
        } else if j > r {
            assert(out[j] == es[j - 1]);
        }
    }
    assert forall|j: int| q + 1 <= j < out.len() implies !key_lt(#[trigger] out[j].0, other) by {
        assert(out[j] == es[j - 1]);
    }
    lemma_rank_is(out, other, q + 1);
    if q < es.len() {
        assert(out[q + 1] == es[q]);
    }
}

/// A new entry whose key comes after `other` leaves `other` in its place.
proof fn lemma_insert_after_keeps<P>(
    es: Entries<P>,
    key: Seq<char>,
    node: Node<P>,
    other: Seq<char>,
)
    requires
        sorted(es),
        key_lt(other, key),
        forall|j: int| 0 <= j < rank(es, key) ==> key_lt(#[trigger] es[j].0, key),
        forall|j: int| rank(es, key) <= j < es.len() ==> key_lt(key, #[trigger] es[j].0),
        0 <= rank(es, key) <= es.len(),
    ensures
        lookup(es.insert(rank(es, key), (key, node)), other) == lookup(es, other),
{
    let r = rank(es, key);
    let out = es.insert(r, (key, node));
    lemma_rank_splits(es, other);
    lemma_key_lt_asymmetric(key, other);
    let q = rank(es, other);
    assert(q <= r) by {
        if r < q {
            assert(key_lt(es[r].0, other));
            lemma_key_lt_transitive(key, es[r].0, other);
        }
    }
    assert forall|j: int| 0 <= j < q implies key_lt(#[trigger] out[j].0, other) by {
        assert(out[j] == es[j]);
    }
    assert forall|j: int| q <= j < out.len() implies !key_lt(#[trigger] out[j].0, other) by {
        if j < r {
            assert(out[j] == es[j]);
        } else if j > r {
            assert(out[j] == es[j - 1]);
        }
    }
    lemma_rank_is(out, other, q);
    if q < r {
        assert(out[q] == es[q]);
    } else if q < es.len() {
        assert(key_lt(key, es[q].0));
        lemma_key_lt_asymmetric(key, other);
    }
}

/// A well-formed tree added under a key that comes after every key of a
/// well-formed table leaves it well formed.
pub proof fn lemma_push_wf<P>(es: Entries<P>, key: Seq<char>, node: Node<P>)
    requires
        well_formed(Node::Branch(es)),
        well_formed(node),
        es.len() > 0 ==> key_lt(es.last().0, key),
    ensures
        well_formed(Node::Branch(es.push((key, node)))),
{
    let out = es.push((key, node));
    assert forall|i: int, j: int| 0 <= i < j < out.len() implies key_lt(out[i].0, out[j].0) by {
        assert(out[i] == es[i]);
        if j < es.len() {
            assert(out[j] == es[j]);
            assert(key_lt(es[i].0, es[j].0));
        } else {
            assert(out[j].0 == key);
            if i < es.len() - 1 {
                assert(key_lt(es[i].0, es[es.len() - 1].0));
                lemma_key_lt_transitive(es[i].0, es.last().0, key);
            }
        }
    }
    assert forall|i: int| 0 <= i < out.len() implies well_formed(#[trigger] out[i].1) by {
        if i < es.len() {
            assert(out[i] == es[i]);
            assert(well_formed(es[i].1));
        }
    }
}

/// Putting a well-formed tree into a well-formed table leaves it well formed.
pub proof fn lemma_put_wf<P>(es: Entries<P>, key: Seq<char>, node: Node<P>)
    requires
        well_formed(Node::Branch(es)),
        well_formed(node),
    ensures
        well_formed(Node::Branch(put(es, key, node))),
{
    lemma_put_sorted(es, key, node);
    lemma_rank_bounds(es, key);
    let r = rank(es, key);
    let out = put(es, key, node);
    assert forall|i: int| 0 <= i < out.len() implies well_formed(#[trigger] out[i].1) by {
        if r < es.len() && es[r].0 == key {
            if i != r {
                assert(out[i] == es[i]);
            }
        } else {
            if i < r {
                assert(out[i] == es[i]);
            } else if i > r {
                assert(out[i] == es[i - 1]);
            }
        }
    }
}

/// Putting twice under one key leaves what the second put alone leaves.
pub proof fn lemma_put_twice<P>(es: Entries<P>, key: Seq<char>, first: Node<P>, second: Node<P>)
    requires
        sorted(es),
    ensures
        put(put(es, key, first), key, second) == put(es, key, second),
{
    lemma_rank_splits(es, key);
    lemma_key_lt_irreflexive(key);
    let r = rank(es, key);
    let mid = put(es, key, first);
    if r < es.len() {
        lemma_key_lt_total(es[r].0, key);
    }
    assert forall|j: int| 0 <= j < r implies key_lt(#[trigger] mid[j].0, key) by {
        assert(mid[j].0 == es[j].0);
    }
    assert forall|j: int| r <= j < mid.len() implies !key_lt(#[trigger] mid[j].0, key) by {
        if j > r {
            if r < es.len() && es[r].0 == key {
                assert(mid[j].0 == es[j].0);
            } else {
                assert(mid[j].0 == es[j - 1].0);
            }
        }
    }
    lemma_rank_is(mid, key, r);
    assert(put(mid, key, second) =~= put(es, key, second));
}

/// Overwrite law: a second assignment at the same path leaves nothing of
/// the first, neither its value nor its line.
pub proof fn lemma_assign_overwrites<P>(
    es: Entries<P>,
    path: Seq<Seq<char>>,
    depth: int,
    first: P,
    second: P,
)
    requires
        well_formed(Node::Branch(es)),
        assign(es, path, depth, first) is Ok,
    ensures
        assign(es, path, depth, second) is Ok,
        assign(assign(es, path, depth, first)->Ok_0, path, depth, second) == assign(
            es,
            path,
            depth,
            second,
        ),
    decreases path.len() - depth,
{
    if 0 <= depth < path.len() {
        let key = path[depth];
        if depth == path.len() - 1 {
            lemma_lookup_put_same(es, key, Node::Leaf(first));
            lemma_put_twice(es, key, Node::Leaf(first), Node::Leaf(second));
        } else {
            let under: Entries<P> = match lookup(es, key) {
                Some(Node::Branch(found)) => found,
                _ => Seq::empty(),
            };
            assert(well_formed(Node::Branch(under))) by {
                lemma_rank_bounds(es, key);
                if lookup(es, key) is Some {
                    assert(well_formed(es[rank(es, key)].1));
                }
            }
            lemma_assign_overwrites(under, path, depth + 1, first, second);
            let once = assign(under, path, depth + 1, first)->Ok_0;
            let twice = assign(under, path, depth + 1, second)->Ok_0;
            lemma_lookup_put_same(es, key, Node::Branch(once));
            lemma_put_twice(es, key, Node::Branch(once), Node::Branch(twice));
        }
    }
}

/// What was assigned at a path is found at the end of that path.
pub proof fn lemma_assign_then_descend<P>(
    es: Entries<P>,
    path: Seq<Seq<char>>,
    depth: int,
    leaf: P,
)
    requires
        well_formed(Node::Branch(es)),
        0 <= depth < path.len(),
        assign(es, path, depth, leaf) is Ok,
    ensures
        descend(assign(es, path, depth, leaf)->Ok_0, path, depth) == Some(Node::Leaf(leaf)),
    decreases path.len() - depth,
{
    let key = path[depth];
    if depth == path.len() - 1 {
        lemma_lookup_put_same(es, key, Node::Leaf(leaf));
    } else {
        let under: Entries<P> = match lookup(es, key) {
            Some(Node::Branch(found)) => found,
            _ => Seq::empty(),
        };
        assert(well_formed(Node::Branch(under))) by {
            lemma_rank_bounds(es, key);
            if lookup(es, key) is Some {
                assert(well_formed(es[rank(es, key)].1));
            }
        }
        lemma_assign_then_descend(under, path, depth + 1, leaf);
        lemma_lookup_put_same(es, key, Node::Branch(assign(under, path, depth + 1, leaf)->Ok_0));
    }
}

/// An assignment keeps a well-formed table well formed.
pub proof fn lemma_assign_wf<P>(es: Entries<P>, path: Seq<Seq<char>>, depth: int, leaf: P)
    requires
        well_formed(Node::Branch(es)),
    ensures
        assign(es, path, depth, leaf) matches Ok(tree) ==> well_formed(Node::Branch(tree)),
    decreases path.len() - depth,
{
    if 0 <= depth < path.len() {
        let key = path[depth];
        if depth == path.len() - 1 {
            lemma_put_wf(es, key, Node::Leaf(leaf));
        } else {
            let under: Entries<P> = match lookup(es, key) {
                Some(Node::Branch(found)) => found,
                _ => Seq::empty(),
            };
            assert(well_formed(Node::Branch(under))) by {
                lemma_rank_bounds(es, key);
                if lookup(es, key) is Some {
                    assert(well_formed(es[rank(es, key)].1));
                }
            }
            lemma_assign_wf(under, path, depth + 1, leaf);
            match assign(under, path, depth + 1, leaf) {
                Ok(tree) => {
                    lemma_put_wf(es, key, Node::Branch(tree));
                },
                Err(_) => {},
            }
        }
    }
}

/// Conflict law, a leaf after a table: once a value is assigned at a path,
/// assigning a value at a proper prefix of the path fails, and names the
/// prefix.
pub proof fn lemma_leaf_after_table_conflicts<P>(
    es: Entries<P>,
    path: Seq<Seq<char>>,
    cut: int,
    depth: int,
    first: P,
    second: P,
)
    requires
        well_formed(Node::Branch(es)),
        0 <= depth < cut < path.len(),
        assign(es, path, depth, first) is Ok,
    ensures
        assign(assign(es, path, depth, first)->Ok_0, path.take(cut), depth, second) == Err::<
            Entries<P>,
            Seq<char>,
        >(dotted(path.take(cut))),
    decreases cut - depth,
{
    let key = path[depth];
    let short = path.take(cut);
    assert(short[depth] == key);
    let under: Entries<P> = match lookup(es, key) {
        Some(Node::Branch(found)) => found,
        _ => Seq::empty(),
    };
    assert(well_formed(Node::Branch(under))) by {
        lemma_rank_bounds(es, key);
        if lookup(es, key) is Some {
            assert(well_formed(es[rank(es, key)].1));
        }
    }
    let below = assign(under, path, depth + 1, first)->Ok_0;
    lemma_lookup_put_same(es, key, Node::Branch(below));
    if depth == cut - 1 {
        assert(short.take(depth + 1) =~= short);
    } else {
        lemma_leaf_after_table_conflicts(under, path, cut, depth + 1, first, second);
    }
}

/// Conflict law, a table after a leaf: once a value is assigned at a path,
/// assigning a value at a longer path that begins with it fails, and names
/// the shorter path.
pub proof fn lemma_table_after_leaf_conflicts<P>(
    es: Entries<P>,
    path: Seq<Seq<char>>,
    cut: int,
    depth: int,
    first: P,
    second: P,
)
    requires
        well_formed(Node::Branch(es)),
        0 <= depth < cut < path.len(),
        assign(es, path.take(cut), depth, first) is Ok,
    ensures
        assign(assign(es, path.take(cut), depth, first)->Ok_0, path, depth, second) == Err::<
            Entries<P>,
            Seq<char>,
        >(dotted(path.take(cut))),
    decreases cut - depth,
{
    let key = path[depth];
    let short = path.take(cut);
    assert(short[depth] == key);
    if depth == cut - 1 {
        lemma_lookup_put_same(es, key, Node::Leaf(first));
        assert(path.take(depth + 1) =~= short);
    } else {
        let under: Entries<P> = match lookup(es, key) {
            Some(Node::Branch(found)) => found,
            _ => Seq::empty(),
        };
        assert(well_formed(Node::Branch(under))) by {
            lemma_rank_bounds(es, key);
            if lookup(es, key) is Some {
                assert(well_formed(es[rank(es, key)].1));
            }
        }
        let below = assign(under, short, depth + 1, first)->Ok_0;
        lemma_lookup_put_same(es, key, Node::Branch(below));
        lemma_table_after_leaf_conflicts(under, path, cut, depth + 1, first, second);
    }
}

/// Lookup law: in a table whose keys hold no dot, what is found for a
/// dotted key is what stands at the end of the path that the key spells.
pub proof fn lemma_resolve_descends<P>(es: Entries<P>, key: Seq<char>)
    requires
        sorted(es),
        plain_keys(es),
    ensures
        resolve(es, key) == descend(es, split(key, '.'), 0),
{
    lemma_rank_bounds(es, key);
    if lookup(es, key) is Some {
        assert(es[rank(es, key)].0 == key);
        lemma_split_plain(key, '.');
    }
}

/// Putting under a key without a dot keeps the keys free of dots.
pub proof fn lemma_put_plain<P>(es: Entries<P>, key: Seq<char>, node: Node<P>)
    requires
        plain_keys(es),
        !key.contains('.'),
    ensures
        plain_keys(put(es, key, node)),
{
    lemma_rank_bounds(es, key);
    let r = rank(es, key);
    let out = put(es, key, node);
    assert forall|i: int| 0 <= i < out.len() implies !(#[trigger] out[i]).0.contains('.') by {
        if r < es.len() && es[r].0 == key {
            if i != r {
                assert(out[i] == es[i]);
            }
        } else {
            if i < r {
                assert(out[i] == es[i]);
            } else if i > r {
                assert(out[i] == es[i - 1]);
            }
        }
    }
}

/// Frame law: an assignment at one path leaves the leaf at every other path
/// as it was.
pub proof fn lemma_assign_keeps_leaf<P>(
    es: Entries<P>,
    path: Seq<Seq<char>>,
    other: Seq<Seq<char>>,
    depth: int,
    leaf: P,
    held: P,
)
    requires
        well_formed(Node::Branch(es)),
        0 <= depth < path.len(),
        depth < other.len(),
        path.skip(depth) != other.skip(depth),
        assign(es, path, depth, leaf) is Ok,
        descend(es, other, depth) == Some(Node::Leaf(held)),
    ensures
        descend(assign(es, path, depth, leaf)->Ok_0, other, depth) == Some(Node::Leaf(held)),
    decreases path.len() - depth,
{
    let key = path[depth];
    let tree = assign(es, path, depth, leaf)->Ok_0;
    if other[depth] != key {
        let node = if depth == path.len() - 1 {
            Node::Leaf(leaf)
        } else {
            let under: Entries<P> = match lookup(es, key) {
                Some(Node::Branch(found)) => found,
                _ => Seq::empty(),
            };
            Node::Branch(assign(under, path, depth + 1, leaf)->Ok_0)
        };
        assert(tree == put(es, key, node));
        lemma_lookup_put_other(es, key, node, other[depth]);
    } else if depth == other.len() - 1 {
        // `other` ends on a leaf here, so `path` would have to run through it
        assert(depth == path.len() - 1);
        assert(path.skip(depth) =~= other.skip(depth));
    } else {
        // `other` goes on, through a table that `path` goes through as well
        let under = lookup(es, key)->Some_0->Branch_0;
        assert(well_formed(Node::Branch(under))) by {
            lemma_rank_bounds(es, key);
            assert(well_formed(es[rank(es, key)].1));
        }
        assert(path.skip(depth + 1) != other.skip(depth + 1)) by {
            if path.skip(depth + 1) == other.skip(depth + 1) {
                assert(path.skip(depth) =~= seq![key] + path.skip(depth + 1));
                assert(other.skip(depth) =~= seq![key] + other.skip(depth + 1));
            }
        }
        lemma_assign_keeps_leaf(under, path, other, depth + 1, leaf, held);
        lemma_lookup_put_same(es, key, Node::Branch(assign(under, path, depth + 1, leaf)->Ok_0));
    }
}

} // verus!
