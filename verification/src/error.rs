//! The errors of parsing, each with the line or lines it arose on.

use crate::number::{decimal, push_decimal};
use crate::parser::conf::{kind_name, SingleValueDiscriminants};
use crate::text::join;
use strum::ParseError as NameError;
use vstd::prelude::*;
use vstd::std_specs::convert::FromSpecImpl;
use vstd::string::StringExecFns;

verus! {

/// `std::io::Error`, carried through as it came.
#[verifier::external_type_specification]
#[verifier::external_body]
pub struct ExIoError(std::io::Error);

#[derive(Debug)]
pub enum ParseError {
    Io(std::io::Error),
    /// missing `=`  or `->`
    MissingDelimiter { line: usize },
    EmptyKey { line: usize },
    EmptyValue { line: usize },
    InvalidKeySegment { segment: String, line: usize },
    /// a key that is assigned both a scalar and a table
    ConflictingTypes { key: String, line: usize },
    InvalidValue { key: String, value: String, ty: SingleValueDiscriminants, line: usize },
    UnknownKey { key: String, lines: Vec<usize> },
}

/// What an error says, apart from the I/O error that it may carry.
pub ghost enum Failure {
    Io,
    MissingDelimiter { line: usize },
    EmptyKey { line: usize },
    EmptyValue { line: usize },
    InvalidKeySegment { segment: Seq<char>, line: usize },
    ConflictingTypes { key: Seq<char>, line: usize },
    InvalidValue { key: Seq<char>, value: Seq<char>, ty: SingleValueDiscriminants, line: usize },
    UnknownKey { key: Seq<char>, lines: Seq<usize> },
}

impl View for ParseError {
    type V = Failure;

    open spec fn view(&self) -> Failure {
        match self {
            ParseError::Io(_) => Failure::Io,
            ParseError::MissingDelimiter { line } => Failure::MissingDelimiter { line: *line },
            ParseError::EmptyKey { line } => Failure::EmptyKey { line: *line },
            ParseError::EmptyValue { line } => Failure::EmptyValue { line: *line },
            ParseError::InvalidKeySegment { segment, line } => Failure::InvalidKeySegment {
                segment: segment@,
                line: *line,
            },
            ParseError::ConflictingTypes { key, line } => Failure::ConflictingTypes {
                key: key@,
                line: *line,
            },
            ParseError::InvalidValue { key, value, ty, line } => Failure::InvalidValue {
                key: key@,
                value: value@,
                ty: *ty,
                line: *line,
            },
            ParseError::UnknownKey { key, lines } => Failure::UnknownKey {
                key: key@,
                lines: lines@,
            },
        }
    }
}

/// What the error for an unknown kind's name says: it names no key, no value
/// and no line, and expects a `Bool`.
pub open spec fn unknown_kind_failure() -> Failure {
    Failure::InvalidValue {
        key: Seq::empty(),
        value: Seq::empty(),
        ty: SingleValueDiscriminants::Bool,
        line: 0,
    }
}

impl From<std::io::Error> for ParseError {
    fn from(value: std::io::Error) -> (r: ParseError)
        ensures
            r == ParseError::Io(value),
    {
        ParseError::Io(value)
    }
}

impl FromSpecImpl<std::io::Error> for ParseError {
    open spec fn obeys_from_spec() -> bool {
        true
    }

    open spec fn from_spec(value: std::io::Error) -> ParseError {
        ParseError::Io(value)
    }
}

impl From<NameError> for ParseError {
    fn from(value: NameError) -> (r: ParseError)
        ensures
            r@ == unknown_kind_failure(),
    {
        ParseError::InvalidValue {
            key: String::new(),
            value: String::new(),
            ty: SingleValueDiscriminants::Bool,
            line: 0,
        }
    }
}

/// The error that `from` gives holds strings, and no `spec` function can
/// make a string, so `from_spec` cannot name it: what `from` returns is
/// stated in its `ensures`.
impl FromSpecImpl<NameError> for ParseError {
    open spec fn obeys_from_spec() -> bool {
        false
    }

    open spec fn from_spec(value: NameError) -> ParseError {
        arbitrary()
    }
}

pub type PRslt<T> = Result<T, ParseError>;

/// The numerals of the first `count` line numbers.
pub open spec fn numerals(lines: Seq<usize>, count: int) -> Seq<Seq<char>> {
    Seq::new(count as nat, |i: int| decimal(lines[i] as nat))
}

/// A list of line numbers as text: in square brackets, with a comma and a
/// space between every two.
pub open spec fn lines_text(lines: Seq<usize>) -> Seq<char> {
    seq!['['] + join(numerals(lines, lines.len() as int), seq![',', ' ']) + seq![']']
}

/// The message of an error. That of an I/O error begins as given here and
/// goes on with the text of the error which it carries.
pub open spec fn message(failure: Failure) -> Seq<char> {
    match failure {
        Failure::Io => "I/O error: "@,
        Failure::MissingDelimiter { line } => "missing delimiter on line "@ + decimal(line as nat),
        Failure::EmptyKey { line } => "empty key on line "@ + decimal(line as nat),
        Failure::EmptyValue { line } => "empty value on line "@ + decimal(line as nat),
        Failure::InvalidKeySegment { segment, line } => "invalid key segment '"@ + segment
            + "' on line "@ + decimal(line as nat),
        Failure::ConflictingTypes { key, line } => "conflicting definitions for '"@ + key
            + "' on line "@ + decimal(line as nat),
        Failure::InvalidValue { key, value, ty, line } => "invalid value '"@ + value
            + "' while expecting "@ + kind_name(ty) + " for '"@ + key + "' on line "@ + decimal(
            line as nat,
        ),
        Failure::UnknownKey { key, lines } => "unknown key '"@ + key + "' on line "@ + lines_text(
            lines,
        ),
    }
}

/// Appends a list of line numbers to `out`.
fn push_lines(out: &mut String, lines: &Vec<usize>)
    ensures
        final(out)@ == old(out)@ + lines_text(lines@),
{
    let ghost start = out@;
    let ghost sep = seq![',', ' '];
    out.push('[');
    let mut i: usize = 0;
    assert(numerals(lines@, 0) =~= Seq::<Seq<char>>::empty());
    assert(out@ =~= start + seq!['['] + join(numerals(lines@, 0), sep));
    while i < lines.len()
        invariant
            i <= lines@.len(),
            sep == seq![',', ' '],
            out@ == start + seq!['['] + join(numerals(lines@, i as int), sep),
        decreases lines@.len() - i,
    {
        let ghost before = out@;
        if i > 0 {
            out.push(',');
            out.push(' ');
        }
        push_decimal(out, lines[i] as u64);
        proof {
            let now = numerals(lines@, i + 1);
            assert(now.drop_last() =~= numerals(lines@, i as int));
            assert(now.last() == decimal(lines@[i as int] as nat));
            if i > 0 {
                assert(before + seq![','] + seq![' '] =~= before + sep);
                assert(out@ =~= start + seq!['['] + (join(now.drop_last(), sep) + sep
                    + now.last()));
            } else {
                assert(out@ =~= start + seq!['['] + now[0]);
            }
        }
        i += 1;
    }
    out.push(']');
    assert(out@ =~= start + lines_text(lines@));
}

impl ParseError {
    /// The message of the error. See [`message`].
    pub fn to_string(&self) -> (r: String)
        ensures
            self@ !is Io ==> r@ == message(self@),
            self@ is Io ==> r@.len() >= message(self@).len() && r@.take(
                message(self@).len() as int,
            ) == message(self@),
    {
        match self {
            ParseError::Io(err) => {
                let mut out = String::from_str("I/O error: ");
                let text = err.to_string();
                out.append(text.as_str());
                assert(out@.take("I/O error: "@.len() as int) =~= "I/O error: "@);
                out
            },
            ParseError::MissingDelimiter { line } => {
                let mut out = String::from_str("missing delimiter on line ");
                push_decimal(&mut out, *line as u64);
                out
            },
            ParseError::EmptyKey { line } => {
                let mut out = String::from_str("empty key on line ");
                push_decimal(&mut out, *line as u64);
                out
            },
            ParseError::EmptyValue { line } => {
                let mut out = String::from_str("empty value on line ");
                push_decimal(&mut out, *line as u64);
                out
            },
            ParseError::InvalidKeySegment { segment, line } => {
                let mut out = String::from_str("invalid key segment '");
                out.append(segment.as_str());
                out.append("' on line ");
                push_decimal(&mut out, *line as u64);
                out
            },
            ParseError::ConflictingTypes { key, line } => {
                let mut out = String::from_str("conflicting definitions for '");
                out.append(key.as_str());
                out.append("' on line ");
                push_decimal(&mut out, *line as u64);
                out
            },
            ParseError::InvalidValue { key, value, ty, line } => {
                let mut out = String::from_str("invalid value '");
                out.append(value.as_str());
                out.append("' while expecting ");
                out.append(ty.to_string().as_str());
                out.append(" for '");
                out.append(key.as_str());
                out.append("' on line ");
                push_decimal(&mut out, *line as u64);
                out
            },
            ParseError::UnknownKey { key, lines } => {
                let mut out = String::from_str("unknown key '");
                out.append(key.as_str());
                out.append("' on line ");
                push_lines(&mut out, lines);
                out
            },
        }
    }
}


} // verus!
