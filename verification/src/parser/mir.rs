//! The line format: lines of a key, a delimiter and a value, assembled
//! into a tree whose leaves hold the text of a value and the number of the
//! line that assigned it.

use crate::error::{Failure, PRslt, ParseError};
use crate::parser::tree::{
    assign, descend, lemma_assign_keeps_leaf, lemma_assign_then_descend, lemma_assign_wf,
    lemma_put_plain, lemma_rank_bounds, lookup, plain_keys, rank, well_formed,
};
use crate::text::{
    collapse, collapse_whitespace, comment_start, find, find_in, is_comment_mark, lemma_split_len,
    lemma_split_pieces_plain, lemma_trim_plain, line_bounds, piece_bounds, split, split_lines,
    strip_comment, to_chars, to_string, trim, trim_bounds, views,
};
use vstd::prelude::*;
use vstd::slice::slice_subrange;
use vstd::string::StrSliceExecFns;

pub use crate::parser::tree::{Entries, Node, TreeMap, TreeValue};

verus! {

/// A kind of leaf text, which fixes the delimiter between a key and its value.
pub trait Valuable {
    /// The delimiter, as characters.
    spec fn delimiter() -> Seq<char>;

    /// The delimiter.
    fn sep() -> (s: &'static str)
        ensures
            s@ == Self::delimiter(),
    ;

    /// Cuts a line at the first occurrence of the delimiter: what stands
    /// before it, trimmed, is the key part; what follows it, as it is, the
    /// value part.
    fn extract_key_value(s: &str, line_no: usize) -> (r: PRslt<(&str, &str)>)
        ensures
            match find(s@, Self::delimiter()) {
                Some(i) => r matches Ok(parts) && parts.0@ == trim(s@.take(i)) && parts.1@
                    == s@.skip(i + Self::delimiter().len()),
                None => r matches Err(e) && e@ == (Failure::MissingDelimiter { line: line_no }),
            },
    {
        let chars = to_chars(s);
        let pat = to_chars(Self::sep());
        let n = chars.len();
        let m = pat.len();
        match find_in(chars.as_slice(), pat.as_slice()) {
            Some(i) => {
                let (a, b) = trim_bounds(slice_subrange(chars.as_slice(), 0, i));
                assert(s@.take(i as int).subrange(a as int, b as int) == s@.subrange(
                    a as int,
                    b as int,
                ));
                let key = s.substring_char(a, b);
                let value = s.substring_char(i + m, n);
                Ok((key, value))
            },
            None => Err(ParseError::MissingDelimiter { line: line_no }),
        }
    }
}

/// The tree that parsed text is assembled into: each leaf holds the text of
/// its value and the number of the line that assigned it last.
pub type StructuredInput = TreeMap<(String, usize)>;

/// The segments of a key: the pieces between the dots of the trimmed key,
/// each trimmed.
pub open spec fn key_segments(key: Seq<char>) -> Seq<Seq<char>> {
    let pieces = split(trim(key), '.');
    Seq::new(pieces.len(), |i: int| trim(pieces[i]))
}

/// The path that a key part names, or why it names none: the key is empty,
/// or one of its segments is.
pub open spec fn key_path(key: Seq<char>, line: usize) -> Result<Seq<Seq<char>>, Failure> {
    if trim(key).len() == 0 {
        Err(Failure::EmptyKey { line })
    } else if exists|i: int| 0 <= i < key_segments(key).len() && key_segments(key)[i].len() == 0 {
        Err(Failure::InvalidKeySegment { segment: Seq::empty(), line })
    } else {
        Ok(key_segments(key))
    }
}

/// The value that a value part holds: what stands before the first comment
/// mark, trimmed, with its runs of whitespace collapsed; nothing is an error.
pub open spec fn value_text(value: Seq<char>, line: usize) -> Result<Seq<char>, Failure> {
    let text = trim(strip_comment(value));
    if text.len() == 0 {
        Err(Failure::EmptyValue { line })
    } else {
        Ok(collapse(text))
    }
}

/// The line numbers of the leaves of a tree, depth first, the entries of each
/// table in the order of their keys.
pub open spec fn leaf_lines(node: Node<(Seq<char>, usize)>) -> Seq<usize>
    decreases node, 0nat,
{
    match node {
        Node::Leaf(payload) => seq![payload.1],
        Node::Branch(es) => entries_lines(es, es.len()),
    }
}

/// The line numbers of the leaves below the first `count` entries.
pub open spec fn entries_lines(es: Entries<(Seq<char>, usize)>, count: nat) -> Seq<usize>
    decreases es, count,
{
    if count == 0 || count > es.len() {
        Seq::empty()
    } else {
        entries_lines(es, (count - 1) as nat) + leaf_lines(es[count - 1].1)
    }
}

/// A line that holds nothing, or only a comment.
pub open spec fn is_skipped(line: Seq<char>) -> bool {
    trim(line).len() == 0 || is_comment_mark(trim(line)[0])
}

/// The path and the value that a line assigns.
pub open spec fn entry(line: Seq<char>, sep: Seq<char>, line_no: usize) -> Result<
    (Seq<Seq<char>>, Seq<char>),
    Failure,
> {
    let text = trim(line);
    match find(text, sep) {
        None => Err(Failure::MissingDelimiter { line: line_no }),
        Some(i) => match key_path(trim(text.take(i)), line_no) {
            Err(failure) => Err(failure),
            Ok(path) => match value_text(text.skip(i + sep.len()), line_no) {
                Err(failure) => Err(failure),
                Ok(value) => Ok((path, value)),
            },
        },
    }
}

/// The tree after one more line.
pub open spec fn step(
    tree: Entries<(Seq<char>, usize)>,
    line: Seq<char>,
    sep: Seq<char>,
    line_no: usize,
) -> Result<Entries<(Seq<char>, usize)>, Failure> {
    if is_skipped(line) {
        Ok(tree)
    } else {
        match entry(line, sep, line_no) {
            Err(failure) => Err(failure),
            Ok((path, value)) => match assign(tree, path, 0, (value, line_no)) {
                Ok(next) => Ok(next),
                Err(key) => Err(Failure::ConflictingTypes { key, line: line_no }),
            },
        }
    }
}

/// The tree that the lines assemble, taken in order and numbered from one, or
/// the failure of the first line that fails.
pub open spec fn assemble(lines: Seq<Seq<char>>, sep: Seq<char>) -> Result<
    Entries<(Seq<char>, usize)>,
    Failure,
>
    decreases lines.len(),
{
    if lines.len() == 0 {
        Ok(Seq::empty())
    } else {
        match assemble(lines.drop_last(), sep) {
            Err(failure) => Err(failure),
            Ok(tree) => step(tree, lines.last(), sep, lines.len() as usize),
        }
    }
}

/// Splits a key part into its segments.
pub fn parse_key(key_part: &str, line_no: usize) -> (r: PRslt<Vec<String>>)
    ensures
        match key_path(key_part@, line_no) {
            Ok(path) => r matches Ok(segments) && views(segments@) == path,
            Err(failure) => r matches Err(e) && e@ == failure,
        },
{
    let chars = to_chars(key_part);
    let (a, b) = trim_bounds(chars.as_slice());
    if a == b {
        return Err(ParseError::EmptyKey { line: line_no });
    }
    let key = slice_subrange(chars.as_slice(), a, b);
    let pieces = piece_bounds(key, '.');
    let mut segments: Vec<String> = Vec::new();
    let mut k: usize = 0;
    while k < pieces.len()
        invariant
            k <= pieces@.len(),
            key@ == trim(key_part@),
            key@.len() > 0,
            pieces@.len() == split(key@, '.').len(),
            forall|j: int|
                0 <= j < pieces@.len() ==> (#[trigger] pieces@[j]).0 <= pieces@[j].1 <= key@.len()
                    && key@.subrange(pieces@[j].0 as int, pieces@[j].1 as int) == split(
                    key@,
                    '.',
                )[j],
            segments@.len() == k,
            forall|j: int|
                0 <= j < k ==> (#[trigger] segments@[j])@ == key_segments(key_part@)[j]
                    && segments@[j]@.len() > 0,
        decreases pieces@.len() - k,
    {
        let (lo, hi) = pieces[k];
        let piece = slice_subrange(key, lo, hi);
        let (x, y) = trim_bounds(piece);
        if x == y {
            assert(key_segments(key_part@)[k as int].len() == 0);
            assert(exists|i: int|
                0 <= i < key_segments(key_part@).len() && key_segments(key_part@)[i].len() == 0);
            return Err(ParseError::InvalidKeySegment { segment: String::new(), line: line_no });
        }
        segments.push(to_string(slice_subrange(piece, x, y)));
        k += 1;
    }
    assert(views(segments@) =~= key_segments(key_part@));
    Ok(segments)
}

/// The text of a value part up to its first comment mark.
pub fn strip_inline_comment(input: &str) -> (r: String)
    ensures
        r@ == strip_comment(input@),
{
    let chars = to_chars(input);
    let end = comment_start(chars.as_slice());
    to_string(slice_subrange(chars.as_slice(), 0, end))
}

/// Reads the value of a value part.
pub fn parse_value(value_part: &str, line_no: usize) -> (r: PRslt<String>)
    ensures
        match value_text(value_part@, line_no) {
            Ok(text) => r matches Ok(value) && value@ == text,
            Err(failure) => r matches Err(e) && e@ == failure,
        },
{
    let chars = to_chars(value_part);
    let end = comment_start(chars.as_slice());
    let kept = slice_subrange(chars.as_slice(), 0, end);
    let (a, b) = trim_bounds(kept);
    if a == b {
        return Err(ParseError::EmptyValue { line: line_no });
    }
    Ok(collapse_whitespace(slice_subrange(kept, a, b)))
}

/// Assigns a value with its line at a path of the tree. See [`assign`].
pub fn insert_value(
    root: &mut StructuredInput,
    segments: &[String],
    value: String,
    line_no: usize,
) -> (r: PRslt<()>)
    requires
        old(root).wf(),
    ensures
        final(root).wf(),
        match assign(old(root)@, views(segments@), 0, (value@, line_no)) {
            Ok(tree) => r is Ok && final(root)@ == tree,
            Err(key) => r matches Err(e) && e@ == (Failure::ConflictingTypes { key, line: line_no })
                && final(root)@ == old(root)@,
        },
{
    match root.assign(segments, (value, line_no)) {
        Ok(()) => Ok(()),
        Err(key) => Err(ParseError::ConflictingTypes { key, line: line_no }),
    }
}

impl TreeValue<(String, usize)> {
    /// The numbers of the lines that assigned the leaves of the value.
    pub fn get_lines_of_key(&self) -> (r: Vec<usize>)
        ensures
            r@ == leaf_lines(self@),
        decreases self@,
    {
        match self {
            TreeValue::Scalar((_, line)) => {
                let mut out: Vec<usize> = Vec::new();
                out.push(*line);
                assert(out@ =~= seq![*line]);
                out
            },
            TreeValue::Nested(table) => {
                let mut out: Vec<usize> = Vec::new();
                let n = table.len();
                let mut i: usize = 0;
                assert(self@->Branch_0 == table@);
                while i < n
                    invariant
                        i <= n == table@.len(),
                        self@ == Node::Branch(table@),
                        out@ == entries_lines(table@, i as nat),
                    decreases n - i,
                {
                    assert(self@->Branch_0 == table@);
                    assert(decreases_to!(table@ => table@[i as int]));
                    let mut below = table.value_at(i).get_lines_of_key();
                    out.append(&mut below);
                    i += 1;
                }
                out
            },
        }
    }
}

/// Assembles the tree of a text: every line that is neither blank nor a
/// comment assigns a value at a path. The first line that fails ends the
/// work with its error.
pub fn str_to_mir<V: Valuable>(input: &str) -> (r: PRslt<StructuredInput>)
    ensures
        match assemble(split_lines(input@), V::delimiter()) {
            Ok(tree) => r matches Ok(root) && root@ == tree && root.wf() && plain_keys(root@),
            Err(failure) => r matches Err(e) && e@ == failure,
        },
{
    let chars = to_chars(input);
    let bounds = line_bounds(chars.as_slice());
    let ghost lines = split_lines(input@);
    let ghost sep = V::delimiter();
    let mut root: StructuredInput = TreeMap::new();
    let mut k: usize = 0;
    assert(lines.take(0) =~= Seq::<Seq<char>>::empty());
    while k < bounds.len()
        invariant
            k <= bounds@.len() == lines.len(),
            chars@ == input@,
            lines == split_lines(input@),
            sep == V::delimiter(),
            forall|j: int|
                0 <= j < bounds@.len() ==> (#[trigger] bounds@[j]).0 <= bounds@[j].1 <= chars@.len()
                    && chars@.subrange(bounds@[j].0 as int, bounds@[j].1 as int) == lines[j],
            root.wf(),
            assemble(lines.take(k as int), sep) == Ok::<Entries<(Seq<char>, usize)>, Failure>(
                root@,
            ),
        decreases bounds@.len() - k,
    {
        let (lo, hi) = bounds[k];
        let line_no = k + 1;
        let line = slice_subrange(chars.as_slice(), lo, hi);
        let (a, b) = trim_bounds(line);
        let ghost upto = lines.take(k + 1);
        assert(upto.drop_last() =~= lines.take(k as int));
        assert(upto.last() == line@);
        if a < b && !(line[a] == '#' || line[a] == ';') {
            let text = to_string(slice_subrange(line, a, b));
            assert(text@ == trim(line@));
            let ghost before = root@;
            let done = match V::extract_key_value(text.as_str(), line_no) {
                Err(e) => Err(e),
                Ok((key_part, value_part)) => match parse_key(key_part, line_no) {
                    Err(e) => Err(e),
                    Ok(segments) => match parse_value(value_part, line_no) {
                        Err(e) => Err(e),
                        Ok(value) => insert_value(&mut root, segments.as_slice(), value, line_no),
                    },
                },
            };
            match done {
                Err(e) => {
                    proof {
                        assert(assemble(upto, sep) == step(before, line@, sep, line_no));
                        lemma_assemble_fails(lines, sep, k + 1);
                    }
                    return Err(e);
                },
                Ok(()) => {},
            }
        } else {
            assert(is_skipped(line@));
        }
        k += 1;
    }
    assert(lines.take(k as int) =~= lines);
    proof {
        lemma_assemble_plain(lines, sep);
    }
    Ok(root)
}

/// Once a line has failed, the lines after it change nothing.
pub proof fn lemma_assemble_fails(lines: Seq<Seq<char>>, sep: Seq<char>, count: int)
    requires
        0 <= count <= lines.len(),
        assemble(lines.take(count), sep) is Err,
    ensures
        assemble(lines, sep) == assemble(lines.take(count), sep),
    decreases lines.len() - count,
{
    if count < lines.len() {
        assert(lines.take(count + 1).drop_last() =~= lines.take(count));
        lemma_assemble_fails(lines, sep, count + 1);
    } else {
        assert(lines.take(count) =~= lines);
    }
}

/// The failure of the first line that fails is the failure of the text, with
/// the number of that line.
pub proof fn lemma_first_failure(lines: Seq<Seq<char>>, sep: Seq<char>, at: int)
    requires
        0 <= at < lines.len(),
        assemble(lines.take(at), sep) is Ok,
        step(assemble(lines.take(at), sep)->Ok_0, lines[at], sep, (at + 1) as usize) is Err,
    ensures
        assemble(lines, sep) == step(
            assemble(lines.take(at), sep)->Ok_0,
            lines[at],
            sep,
            (at + 1) as usize,
        ),
{
    assert(lines.take(at + 1).drop_last() =~= lines.take(at));
    lemma_assemble_fails(lines, sep, at + 1);
}

/// The value that the last line of a text assigns is found at the end of the
/// path that the line names, with the number of that line.
pub proof fn lemma_last_line_is_found(lines: Seq<Seq<char>>, sep: Seq<char>)
    requires
        lines.len() > 0,
        lines.len() <= usize::MAX,
        !is_skipped(lines.last()),
        assemble(lines, sep) is Ok,
    ensures
        entry(lines.last(), sep, lines.len() as usize) matches Ok(assigned) && descend(
            assemble(lines, sep)->Ok_0,
            assigned.0,
            0,
        ) == Some(Node::Leaf((assigned.1, lines.len() as usize))),
{
    let before = assemble(lines.drop_last(), sep)->Ok_0;
    let line_no = lines.len() as usize;
    lemma_assemble_wf(lines.drop_last(), sep);
    let assigned = entry(lines.last(), sep, line_no)->Ok_0;
    let text = trim(lines.last());
    lemma_key_path_len(trim(text.take(find(text, sep)->Some_0)), line_no);
    lemma_assign_then_descend(before, assigned.0, 0, (assigned.1, line_no));
}

/// Line attribution law: a leaf holds the value and the number of the last
/// line that assigned its path. Where a text is assembled and no line after
/// a given line assigns the path of that line, the value of that line is
/// found at the end of its path, with its number.
pub proof fn lemma_line_is_found(lines: Seq<Seq<char>>, sep: Seq<char>, at: int)
    requires
        0 <= at < lines.len() <= usize::MAX,
        assemble(lines, sep) is Ok,
        !is_skipped(lines[at]),
        forall|j: int|
            at < j < lines.len() && !is_skipped(lines[j]) ==> (#[trigger] entry(
                lines[j],
                sep,
                (j + 1) as usize,
            ))->Ok_0.0 != entry(lines[at], sep, (at + 1) as usize)->Ok_0.0,
    ensures
        entry(lines[at], sep, (at + 1) as usize) matches Ok(assigned) && descend(
            assemble(lines, sep)->Ok_0,
            assigned.0,
            0,
        ) == Some(Node::Leaf((assigned.1, (at + 1) as usize))),
    decreases lines.len() - at,
{
    if at == lines.len() - 1 {
        lemma_last_line_is_found(lines, sep);
    } else {
        let rest = lines.drop_last();
        let line_no = lines.len() as usize;
        assert(rest[at] == lines[at]);
        assert forall|j: int| at < j < rest.len() && !is_skipped(rest[j]) implies (#[trigger] entry(
            rest[j],
            sep,
            (j + 1) as usize,
        ))->Ok_0.0 != entry(rest[at], sep, (at + 1) as usize)->Ok_0.0 by {
            assert(rest[j] == lines[j]);
        }
        lemma_line_is_found(rest, sep, at);
        lemma_assemble_wf(rest, sep);
        let before = assemble(rest, sep)->Ok_0;
        let here = entry(lines[at], sep, (at + 1) as usize)->Ok_0;
        if !is_skipped(lines.last()) {
            let last = entry(lines.last(), sep, line_no)->Ok_0;
            let j = lines.len() - 1;
            assert(entry(lines[j], sep, (j + 1) as usize) == entry(lines.last(), sep, line_no));
            assert(last.0 != here.0);
            let text = trim(lines.last());
            lemma_key_path_len(trim(text.take(find(text, sep)->Some_0)), line_no);
            let mine = trim(lines[at]);
            lemma_key_path_len(trim(mine.take(find(mine, sep)->Some_0)), (at + 1) as usize);
            assert(last.0.skip(0) =~= last.0);
            assert(here.0.skip(0) =~= here.0);
            lemma_assign_keeps_leaf(
                before,
                last.0,
                here.0,
                0,
                (last.1, line_no),
                (here.1, (at + 1) as usize),
            );
        }
    }
}

/// The lines gathered below the first entries of a table hold the lines
/// gathered below each of them.
pub proof fn lemma_entries_lines_hold(
    es: Entries<(Seq<char>, usize)>,
    count: nat,
    i: int,
    line: usize,
)
    requires
        count <= es.len(),
        0 <= i < count,
        leaf_lines(es[i].1).contains(line),
    ensures
        entries_lines(es, count).contains(line),
    decreases count,
{
    let before = entries_lines(es, (count - 1) as nat);
    let last = leaf_lines(es[count - 1].1);
    if i == count - 1 {
        let k = choose|k: int| 0 <= k < last.len() && last[k] == line;
        assert((before + last)[before.len() + k] == line);
    } else {
        lemma_entries_lines_hold(es, (count - 1) as nat, i, line);
        let k = choose|k: int| 0 <= k < before.len() && before[k] == line;
        assert((before + last)[k] == line);
    }
}

/// Aggregation law: the lines gathered for a table hold the line of every
/// leaf that is found in it.
pub proof fn lemma_leaf_lines_complete(
    es: Entries<(Seq<char>, usize)>,
    path: Seq<Seq<char>>,
    depth: int,
    value: Seq<char>,
    line: usize,
)
    requires
        0 <= depth < path.len(),
        descend(es, path, depth) == Some(Node::Leaf((value, line))),
    ensures
        entries_lines(es, es.len()).contains(line),
    decreases path.len() - depth,
{
    let r = rank(es, path[depth]);
    lemma_rank_bounds(es, path[depth]);
    if depth == path.len() - 1 {
        assert(leaf_lines(es[r].1) =~= seq![line]);
        assert(seq![line][0] == line);
    } else {
        lemma_leaf_lines_complete(es[r].1->Branch_0, path, depth + 1, value, line);
    }
    lemma_entries_lines_hold(es, es.len(), r, line);
}

/// A path has at least one segment.
pub proof fn lemma_key_path_len(key: Seq<char>, line: usize)
    ensures
        key_path(key, line) matches Ok(path) ==> path.len() >= 1,
{
    lemma_split_len(trim(key), '.');
}

/// The tree that lines assemble is well formed.
pub proof fn lemma_assemble_wf(lines: Seq<Seq<char>>, sep: Seq<char>)
    ensures
        assemble(lines, sep) matches Ok(tree) ==> well_formed(Node::Branch(tree)),
    decreases lines.len(),
{
    if lines.len() > 0 {
        lemma_assemble_wf(lines.drop_last(), sep);
        let line_no = lines.len() as usize;
        match (assemble(lines.drop_last(), sep), entry(lines.last(), sep, line_no)) {
            (Ok(before), Ok(assigned)) => {
                lemma_assign_wf(before, assigned.0, 0, (assigned.1, line_no));
            },
            _ => {},
        }
    }
}

/// The segments of a path hold no dot.
pub proof fn lemma_key_path_plain(key: Seq<char>, line: usize)
    ensures
        key_path(key, line) matches Ok(path) ==> forall|i: int|
            0 <= i < path.len() ==> !(#[trigger] path[i]).contains('.'),
{
    let pieces = split(trim(key), '.');
    lemma_split_pieces_plain(trim(key), '.');
    assert forall|i: int| 0 <= i < pieces.len() implies !(#[trigger] key_segments(key)[i]).contains(
        '.',
    ) by {
        assert(!pieces[i].contains('.'));
        lemma_trim_plain(pieces[i], '.');
    }
}

/// The keys at the root of an assembled tree hold no dot.
pub proof fn lemma_assemble_plain(lines: Seq<Seq<char>>, sep: Seq<char>)
    ensures
        assemble(lines, sep) matches Ok(tree) ==> plain_keys(tree),
    decreases lines.len(),
{
    if lines.len() > 0 {
        lemma_assemble_plain(lines.drop_last(), sep);
        let line_no = lines.len() as usize;
        let text = trim(lines.last());
        match (assemble(lines.drop_last(), sep), entry(lines.last(), sep, line_no)) {
            (Ok(before), Ok(assigned)) => {
                let key = trim(text.take(find(text, sep)->Some_0));
                lemma_key_path_plain(key, line_no);
                lemma_key_path_len(key, line_no);
                let path = assigned.0;
                let leaf = (assigned.1, line_no);
                if path.len() == 1 {
                    lemma_put_plain(before, path[0], Node::Leaf(leaf));
                } else {
                    let under: Entries<(Seq<char>, usize)> = match lookup(before, path[0]) {
                        Some(Node::Branch(found)) => found,
                        _ => Seq::empty(),
                    };
                    match assign(under, path, 1, leaf) {
                        Ok(below) => {
                            lemma_put_plain(before, path[0], Node::Branch(below));
                        },
                        Err(_) => {},
                    }
                }
            },
            _ => {},
        }
    }
}

} // verus!
