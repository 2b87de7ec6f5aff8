//! Character-level building blocks of the line format: whitespace,
//! trimming, splitting, searching and joining, each as a function on
//! sequences of characters together with the executable code that computes it.

use vstd::prelude::*;

verus! {

/// `String::push` appends one character to the end of the string.
pub assume_specification[ std::string::String::push ](s: &mut std::string::String, ch: char)
    ensures
        final(s)@ == old(s)@.push(ch),
;

/// The characters that carry the Unicode `White_Space` property.
pub open spec fn is_whitespace(c: char) -> bool {
    let u = c as u32;
    ||| 0x09 <= u <= 0x0D
    ||| u == 0x20
    ||| u == 0x85
    ||| u == 0xA0
    ||| u == 0x1680
    ||| 0x2000 <= u <= 0x200A
    ||| u == 0x2028
    ||| u == 0x2029
    ||| u == 0x202F
    ||| u == 0x205F
    ||| u == 0x3000
}

/// `s` without its leading whitespace.
pub open spec fn trim_start(s: Seq<char>) -> Seq<char>
    decreases s.len(),
{
    if s.len() > 0 && is_whitespace(s.first()) {
        trim_start(s.drop_first())
    } else {
        s
    }
}

/// `s` without its trailing whitespace.
pub open spec fn trim_end(s: Seq<char>) -> Seq<char>
    decreases s.len(),
{
    if s.len() > 0 && is_whitespace(s.last()) {
        trim_end(s.drop_last())
    } else {
        s
    }
}

/// `s` without the whitespace around it.
pub open spec fn trim(s: Seq<char>) -> Seq<char> {
    trim_end(trim_start(s))
}

/// The pieces of `s` between occurrences of `sep`. There is always at least
/// one piece; a separator at either end leaves an empty piece there.
pub open spec fn split(s: Seq<char>, sep: char) -> Seq<Seq<char>>
    decreases s.len(),
{
    if s.len() == 0 {
        seq![Seq::empty()]
    } else {
        let before = split(s.drop_last(), sep);
        if s.last() == sep {
            before.push(Seq::empty())
        } else {
            before.update(before.len() - 1, before.last().push(s.last()))
        }
    }
}

/// The lines of `s`: its pieces between line feeds, without the empty piece
/// that follows a final line feed (or that an empty text consists of).
pub open spec fn split_lines(s: Seq<char>) -> Seq<Seq<char>> {
    let pieces = split(s, '\n');
    if pieces.last().len() == 0 {
        pieces.drop_last()
    } else {
        pieces
    }
}

/// `pat` occurs in `s` at position `i`.
pub open spec fn occurs_at(s: Seq<char>, pat: Seq<char>, i: int) -> bool {
    0 <= i && i + pat.len() <= s.len() && s.subrange(i, i + pat.len()) == pat
}

/// The position of the first occurrence of `pat` in `s`.
pub open spec fn find(s: Seq<char>, pat: Seq<char>) -> Option<int>
    decreases s.len(),
{
    if occurs_at(s, pat, 0) {
        Some(0)
    } else if s.len() == 0 {
        None
    } else {
        match find(s.drop_first(), pat) {
            Some(i) => Some(i + 1),
            None => None,
        }
    }
}

/// `#` and `;` open a comment.
pub open spec fn is_comment_mark(c: char) -> bool {
    c == '#' || c == ';'
}

/// `s` up to its first comment mark.
pub open spec fn strip_comment(s: Seq<char>) -> Seq<char>
    decreases s.len(),
{
    if s.len() == 0 || is_comment_mark(s.first()) {
        Seq::empty()
    } else {
        seq![s.first()] + strip_comment(s.drop_first())
    }
}

/// `s` with every run of whitespace replaced by one space, and without any
/// whitespace at its start: a character that is no whitespace is kept, and a
/// whitespace character adds a space unless the result is still empty or
/// already ends in one.
pub open spec fn collapse(s: Seq<char>) -> Seq<char>
    decreases s.len(),
{
    if s.len() == 0 {
        Seq::empty()
    } else {
        let before = collapse(s.drop_last());
        if !is_whitespace(s.last()) {
            before.push(s.last())
        } else if before.len() > 0 && before.last() != ' ' {
            before.push(' ')
        } else {
            before
        }
    }
}

/// The parts with `sep` between every two neighbours.
pub open spec fn join(parts: Seq<Seq<char>>, sep: Seq<char>) -> Seq<char>
    decreases parts.len(),
{
    if parts.len() == 0 {
        Seq::empty()
    } else if parts.len() == 1 {
        parts[0]
    } else {
        join(parts.drop_last(), sep) + sep + parts.last()
    }
}

/// The views of a list of strings.
pub open spec fn views(items: Seq<String>) -> Seq<Seq<char>> {
    Seq::new(items.len(), |i: int| items[i]@)
}

/// There is always a piece.
pub proof fn lemma_split_len(s: Seq<char>, sep: char)
    ensures
        split(s, sep).len() >= 1,
    decreases s.len(),
{
    if s.len() > 0 {
        lemma_split_len(s.drop_last(), sep);
    }
}

/// There is more than one piece just where the separator occurs.
pub proof fn lemma_split_one(s: Seq<char>, sep: char)
    ensures
        split(s, sep).len() > 1 <==> s.contains(sep),
    decreases s.len(),
{
    lemma_split_len(s, sep);
    if s.len() > 0 {
        let rest = s.drop_last();
        lemma_split_one(rest, sep);
        lemma_split_len(rest, sep);
        if s.last() == sep {
            assert(s[s.len() - 1] == sep);
        } else if rest.contains(sep) {
            let i = choose|i: int| 0 <= i < rest.len() && rest[i] == sep;
            assert(s[i] == sep);
        } else if s.contains(sep) {
            let i = choose|i: int| 0 <= i < s.len() && s[i] == sep;
            assert(rest[i] == sep);
        }
    }
}

/// A text without the separator is its own single piece.
pub proof fn lemma_split_plain(s: Seq<char>, sep: char)
    requires
        !s.contains(sep),
    ensures
        split(s, sep) == seq![s],
    decreases s.len(),
{
    if s.len() == 0 {
        assert(s =~= Seq::<char>::empty());
    } else {
        let rest = s.drop_last();
        assert(!rest.contains(sep)) by {
            if rest.contains(sep) {
                let i = choose|i: int| 0 <= i < rest.len() && rest[i] == sep;
                assert(s[i] == sep);
            }
        }
        assert(s[s.len() - 1] != sep);
        lemma_split_plain(rest, sep);
        assert(rest.push(s.last()) =~= s);
        assert(split(s, sep) =~= seq![s]);
    }
}

/// No piece holds the separator.
pub proof fn lemma_split_pieces_plain(s: Seq<char>, sep: char)
    ensures
        forall|k: int|
            0 <= k < split(s, sep).len() ==> !(#[trigger] split(s, sep)[k]).contains(sep),
    decreases s.len(),
{
    if s.len() == 0 {
    } else {
        let before = split(s.drop_last(), sep);
        lemma_split_pieces_plain(s.drop_last(), sep);
        lemma_split_len(s.drop_last(), sep);
        let now = split(s, sep);
        assert forall|k: int| 0 <= k < now.len() implies !(#[trigger] now[k]).contains(sep) by {
            if s.last() == sep {
                if k < before.len() {
                    assert(now[k] == before[k]);
                }
            } else {
                if k < before.len() - 1 {
                    assert(now[k] == before[k]);
                } else {
                    let piece = before.last();
                    assert(!before[before.len() - 1].contains(sep));
                    if now[k].contains(sep) {
                        let i = choose|i: int| 0 <= i < now[k].len() && now[k][i] == sep;
                        assert(piece[i] == sep);
                    }
                }
            }
        }
    }
}

/// Trimming brings in no character.
pub proof fn lemma_trim_plain(s: Seq<char>, c: char)
    requires
        !s.contains(c),
    ensures
        !trim(s).contains(c),
{
    lemma_trim_start_plain(s, c);
    lemma_trim_end_plain(trim_start(s), c);
}

proof fn lemma_trim_start_plain(s: Seq<char>, c: char)
    requires
        !s.contains(c),
    ensures
        !trim_start(s).contains(c),
    decreases s.len(),
{
    if s.len() > 0 && is_whitespace(s.first()) {
        let rest = s.drop_first();
        if rest.contains(c) {
            let i = choose|i: int| 0 <= i < rest.len() && rest[i] == c;
            assert(s[i + 1] == c);
        }
        lemma_trim_start_plain(rest, c);
    }
}

proof fn lemma_trim_end_plain(s: Seq<char>, c: char)
    requires
        !s.contains(c),
    ensures
        !trim_end(s).contains(c),
    decreases s.len(),
{
    if s.len() > 0 && is_whitespace(s.last()) {
        let rest = s.drop_last();
        if rest.contains(c) {
            let i = choose|i: int| 0 <= i < rest.len() && rest[i] == c;
            assert(s[i] == c);
        }
        lemma_trim_end_plain(rest, c);
    }
}

/// Joining can be read from the front: the first part, the separator, and
/// the other parts joined.
pub proof fn lemma_join_first(parts: Seq<Seq<char>>, sep: Seq<char>)
    requires
        parts.len() >= 2,
    ensures
        join(parts, sep) == parts[0] + sep + join(parts.drop_first(), sep),
    decreases parts.len(),
{
    let rest = parts.drop_last();
    let tail = parts.drop_first();
    assert(tail.last() == parts.last());
    if parts.len() == 2 {
        assert(rest =~= seq![parts[0]]);
        assert(tail =~= seq![parts[1]]);
        assert(join(rest, sep) == parts[0]);
        assert(join(tail, sep) == parts[1]);
    } else {
        lemma_join_first(rest, sep);
        assert(rest.drop_first() =~= tail.drop_last());
        assert(rest[0] == parts[0]);
        assert(join(parts, sep) =~= parts[0] + sep + (join(tail.drop_last(), sep) + sep
            + tail.last()));
    }
}

/// A text shorter than the pattern holds no occurrence of it.
pub proof fn lemma_find_none_when_short(s: Seq<char>, pat: Seq<char>)
    requires
        s.len() < pat.len(),
    ensures
        find(s, pat) is None,
    decreases s.len(),
{
    if s.len() > 0 {
        lemma_find_none_when_short(s.drop_first(), pat);
    }
}

/// `find` gives the first occurrence: the pattern occurs at the position
/// found and at none before it, and nowhere where none is found.
pub proof fn lemma_find_first(s: Seq<char>, pat: Seq<char>)
    ensures
        match find(s, pat) {
            Some(i) => occurs_at(s, pat, i) && forall|j: int| 0 <= j < i ==> !occurs_at(s, pat, j),
            None => forall|j: int| !occurs_at(s, pat, j),
        },
    decreases s.len(),
{
    if !occurs_at(s, pat, 0) && s.len() > 0 {
        let rest = s.drop_first();
        lemma_find_first(rest, pat);
        assert forall|j: int| occurs_at(s, pat, j) && j > 0 implies occurs_at(rest, pat, j - 1) by {
            assert(rest.subrange(j - 1, j - 1 + pat.len()) =~= s.subrange(j, j + pat.len()));
        }
        match find(rest, pat) {
            Some(i) => {
                assert(s.subrange(i + 1, i + 1 + pat.len()) =~= rest.subrange(i, i + pat.len()));
                assert forall|j: int| 0 <= j < i + 1 implies !occurs_at(s, pat, j) by {
                    if j > 0 && occurs_at(s, pat, j) {
                        assert(occurs_at(rest, pat, j - 1));
                    }
                }
            },
            None => {
                assert forall|j: int| !occurs_at(s, pat, j) by {
                    if j > 0 && occurs_at(s, pat, j) {
                        assert(occurs_at(rest, pat, j - 1));
                    }
                }
            },
        }
    } else if !occurs_at(s, pat, 0) {
        assert forall|j: int| !occurs_at(s, pat, j) by {
            if occurs_at(s, pat, j) {
                assert(j == 0);
            }
        }
    }
}

pub fn char_is_whitespace(c: char) -> (r: bool)
    ensures
        r == is_whitespace(c),
{
    let u: u32 = c as u32;
    (0x09 <= u && u <= 0x0D) || u == 0x20 || u == 0x85 || u == 0xA0 || u == 0x1680 || (0x2000 <= u
        && u <= 0x200A) || u == 0x2028 || u == 0x2029 || u == 0x202F || u == 0x205F || u == 0x3000
}

/// The characters of a string, in order.
pub fn to_chars(s: &str) -> (v: Vec<char>)
    ensures
        v@ == s@,
{
    let mut v: Vec<char> = Vec::new();
    for c in it: s.chars()
        invariant
            v@ == s@.take(it.index() as int),
            it.seq() == s@,
    {
        v.push(c);
    }
    v
}

/// The string made of the given characters.
pub fn to_string(s: &[char]) -> (r: String)
    ensures
        r@ == s@,
{
    let mut r = String::new();
    let mut i: usize = 0;
    while i < s.len()
        invariant
            i <= s@.len(),
            r@ == s@.take(i as int),
        decreases s@.len() - i,
    {
        r.push(s[i]);
        i += 1;
    }
    r
}

/// Where the trimmed part of `s` begins and ends.
pub fn trim_bounds(s: &[char]) -> (r: (usize, usize))
    ensures
        r.0 <= r.1 <= s@.len(),
        s@.subrange(r.0 as int, r.1 as int) == trim(s@),
{
    let n = s.len();
    let mut a: usize = 0;
    assert(s@.skip(0) == s@);
    while a < n && char_is_whitespace(s[a])
        invariant
            a <= n == s@.len(),
            trim_start(s@) == trim_start(s@.skip(a as int)),
        decreases n - a,
    {
        assert(s@.skip(a as int).drop_first() == s@.skip(a + 1));
        a += 1;
    }
    assert(trim_start(s@) == s@.skip(a as int));
    let mut b: usize = n;
    while b > a && char_is_whitespace(s[b - 1])
        invariant
            a <= b <= n == s@.len(),
            trim(s@) == trim_end(s@.subrange(a as int, b as int)),
        decreases b,
    {
        assert(s@.subrange(a as int, b as int).drop_last() == s@.subrange(a as int, b - 1));
        b -= 1;
    }
    (a, b)
}

/// The position of the first occurrence of `pat` in `s`.
pub fn find_in(s: &[char], pat: &[char]) -> (r: Option<usize>)
    ensures
        match r {
            Some(i) => find(s@, pat@) == Some(i as int) && i + pat@.len() <= s@.len(),
            None => find(s@, pat@) is None,
        },
{
    let n = s.len();
    let m = pat.len();
    let mut i: usize = 0;
    assert(s@.skip(0) == s@);
    loop
        invariant
            i <= n == s@.len(),
            m == pat@.len(),
            match find(s@.skip(i as int), pat@) {
                Some(k) => find(s@, pat@) == Some(k + i),
                None => find(s@, pat@) is None,
            },
        decreases n - i,
    {
        if n - i < m {
            assert(find(s@.skip(i as int), pat@) is None) by {
                lemma_find_none_when_short(s@.skip(i as int), pat@);
            }
            return None;
        }
        let mut j: usize = 0;
        while j < m && s[i + j] == pat[j]
            invariant
                i + m <= n == s@.len(),
                m == pat@.len(),
                j <= m,
                s@.subrange(i as int, i + j) == pat@.take(j as int),
            decreases m - j,
        {
            assert(s@.subrange(i as int, i + j + 1) == s@.subrange(i as int, i + j).push(
                s@[i + j],
            ));
            assert(pat@.take(j + 1) == pat@.take(j as int).push(pat@[j as int]));
            j += 1;
        }
        let ghost rest = s@.skip(i as int);
        if j == m {
            assert(pat@.take(m as int) == pat@);
            assert(rest.subrange(0, m as int) == s@.subrange(i as int, i + m));
            assert(occurs_at(rest, pat@, 0));
            return Some(i);
        }
        assert(!occurs_at(rest, pat@, 0)) by {
            if occurs_at(rest, pat@, 0) {
                assert(rest.subrange(0, m as int)[j as int] == pat@[j as int]);
            }
        }
        assert(rest.drop_first() == s@.skip(i + 1));
        i += 1;
    }
}

/// Where each piece of `s` between occurrences of `sep` begins and ends.
pub fn piece_bounds(s: &[char], sep: char) -> (r: Vec<(usize, usize)>)
    ensures
        r@.len() == split(s@, sep).len(),
        forall|k: int|
            0 <= k < r@.len() ==> (#[trigger] r@[k]).0 <= r@[k].1 <= s@.len() && s@.subrange(
                r@[k].0 as int,
                r@[k].1 as int,
            ) == split(s@, sep)[k],
{
    let n = s.len();
    let mut out: Vec<(usize, usize)> = Vec::new();
    let mut start: usize = 0;
    let mut i: usize = 0;
    assert(s@.take(0) =~= Seq::<char>::empty());
    assert(s@.subrange(0, 0) =~= Seq::<char>::empty());
    while i < n
        invariant
            start <= i <= n == s@.len(),
            split(s@.take(i as int), sep).len() == out@.len() + 1,
            split(s@.take(i as int), sep).last() == s@.subrange(start as int, i as int),
            forall|k: int|
                0 <= k < out@.len() ==> (#[trigger] out@[k]).0 <= out@[k].1 <= s@.len()
                    && s@.subrange(out@[k].0 as int, out@[k].1 as int) == split(
                    s@.take(i as int),
                    sep,
                )[k],
        decreases n - i,
    {
        let ghost before = split(s@.take(i as int), sep);
        assert(s@.take(i + 1).drop_last() =~= s@.take(i as int));
        if s[i] == sep {
            out.push((start, i));
            start = i + 1;
            assert(s@.subrange(i + 1, i + 1) =~= Seq::<char>::empty());
        } else {
            assert(s@.subrange(start as int, i + 1) =~= s@.subrange(start as int, i as int).push(
                s@[i as int],
            ));
        }
        i += 1;
    }
    assert(s@.take(n as int) =~= s@);
    out.push((start, n));
    out
}

/// Where the lines of `s` begin and end.
pub fn line_bounds(s: &[char]) -> (r: Vec<(usize, usize)>)
    ensures
        r@.len() == split_lines(s@).len(),
        forall|k: int|
            0 <= k < r@.len() ==> (#[trigger] r@[k]).0 <= r@[k].1 <= s@.len() && s@.subrange(
                r@[k].0 as int,
                r@[k].1 as int,
            ) == split_lines(s@)[k],
{
    let mut pieces = piece_bounds(s, '\n');
    proof {
        lemma_split_len(s@, '\n');
    }
    let last = pieces[pieces.len() - 1];
    if last.0 == last.1 {
        pieces.pop();
    }
    pieces
}

/// The length of `s` up to its first comment mark.
pub fn comment_start(s: &[char]) -> (r: usize)
    ensures
        r <= s@.len(),
        s@.take(r as int) == strip_comment(s@),
{
    let n = s.len();
    let mut i: usize = 0;
    assert(s@.skip(0) =~= s@);
    assert(s@.take(0) + strip_comment(s@) =~= strip_comment(s@));
    while i < n && !(s[i] == '#' || s[i] == ';')
        invariant
            i <= n == s@.len(),
            strip_comment(s@) == s@.take(i as int) + strip_comment(s@.skip(i as int)),
        decreases n - i,
    {
        assert(s@.skip(i as int).drop_first() =~= s@.skip(i + 1));
        assert(s@.take(i as int) + (seq![s@[i as int]] + strip_comment(s@.skip(i + 1))) =~= s@.take(
            i + 1,
        ) + strip_comment(s@.skip(i + 1)));
        i += 1;
    }
    assert(s@.take(i as int) + Seq::<char>::empty() =~= s@.take(i as int));
    i
}

/// `s` with every run of whitespace replaced by one space.
pub fn collapse_whitespace(s: &[char]) -> (r: String)
    ensures
        r@ == collapse(s@),
{
    let n = s.len();
    let mut out = String::new();
    let mut open: bool = false;
    let mut i: usize = 0;
    assert(s@.take(0) =~= Seq::<char>::empty());
    while i < n
        invariant
            i <= n == s@.len(),
            out@ == collapse(s@.take(i as int)),
            open == (out@.len() > 0 && out@.last() != ' '),
        decreases n - i,
    {
        assert(s@.take(i + 1).drop_last() =~= s@.take(i as int));
        let c = s[i];
        if !char_is_whitespace(c) {
            out.push(c);
            open = true;
        } else if open {
            out.push(' ');
            open = false;
        }
        i += 1;
    }
    assert(s@.take(n as int) =~= s@);
    out
}

} // verus!
