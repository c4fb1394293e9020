//! The calls into the regular-expression engine. Nothing here is proved:
//! each function states what the engine's own text says of the call it makes.

use regex::Regex;
use vstd::prelude::*;
use vstd::string::*;

use crate::text::{byte_len, byte_slice, is_range_of, strs};

verus! {

/// The engine's compiled expression, `regex::Regex`: nothing is known of
/// what is inside.
#[verifier::external_type_specification]
#[verifier::external_body]
pub struct ExRegex(regex::Regex);

/// The engine's error, `regex::Error`: nothing is known of what is inside.
#[verifier::external_type_specification]
#[verifier::external_body]
pub struct ExRegexError(regex::Error);

/// A pattern that the engine has compiled, with its text. Only `compile`
/// makes one, and nothing changes one, so the compiled form always is what
/// `Regex::new` made of the text.
#[derive(Debug)]
pub struct Pattern {
    text: String,
    compiled: Regex,
}

impl View for Pattern {
    type V = Seq<char>;

    /// The text of the pattern.
    closed spec fn view(&self) -> Seq<char> {
        self.text@
    }
}

/// Why a pattern could not be compiled.
#[derive(Debug)]
pub enum PatternFault {
    /// The pattern is not a regular expression; the text says why.
    Syntax(String),
    /// The compiled expression would exceed this many bytes.
    TooBig(usize),
    /// Another reason.
    Other,
}

/// Whether the engine compiles a pattern.
pub uninterp spec fn compiles(pattern: Seq<char>) -> bool;

/// Whether a pattern, compiled, matches anywhere in a text.
pub uninterp spec fn regex_is_match(pattern: Seq<char>, text: Seq<char>) -> bool;

/// The successive matches of a pattern, compiled, in a text, each as the
/// byte offsets of its start and of its end in the text's UTF-8 form.
pub uninterp spec fn regex_matches(pattern: Seq<char>, text: Seq<char>) -> Seq<(usize, usize)>;

/// Whether `ms` are ranges of the bytes of `text` that cut no character,
/// none starting before the one before it ends.
pub open spec fn are_successive_ranges(text: Seq<char>, ms: Seq<(usize, usize)>) -> bool {
    &&& forall|i: int|
        0 <= i < ms.len() ==> is_range_of(text, (#[trigger] ms[i]).0 as int, ms[i].1 as int)
    &&& forall|i: int, j: int|
        0 <= i < j < ms.len() ==> (#[trigger] ms[i]).1 <= (#[trigger] ms[j]).0
}

/// The parts of `text` that the ranges `ms` leave: what stands before the
/// first, between each two neighbours, and behind the last.
pub open spec fn pieces_between(text: Seq<char>, ms: Seq<(usize, usize)>) -> Seq<Seq<char>> {
    Seq::new(
        ms.len() + 1,
        |i: int|
            byte_slice(
                text,
                if i == 0 {
                    0
                } else {
                    ms[i - 1].1 as int
                },
                if i == ms.len() {
                    byte_len(text) as int
                } else {
                    ms[i].0 as int
                },
            ),
    )
}

/// Calls `Regex::new` and keeps the text beside what it hands back. Whether
/// the call succeeds depends on the pattern alone.
#[verifier::external_body]
pub(crate) fn compile(pattern: &str) -> (r: Result<Pattern, regex::Error>)
    ensures
        r is Ok <==> compiles(pattern@),
        r matches Ok(made) ==> made@ == pattern@,
{
    Regex::new(pattern).map(|compiled| Pattern { text: pattern.to_string(), compiled })
}

/// Calls `Regex::is_match` on the compiled form of the pattern.
#[verifier::external_body]
pub(crate) fn is_match(pattern: &Pattern, text: &str) -> (b: bool)
    ensures
        b == regex_is_match(pattern@, text@),
{
    pattern.compiled.is_match(text)
}

/// Calls `Regex::find_iter` on the compiled form of the pattern and takes
/// the two offsets of each match. The engine reports offsets that lie in the
/// text on character boundaries, with the start not behind the end, and
/// looks for the next match from the end of the last one on.
#[verifier::external_body]
pub(crate) fn find_all(pattern: &Pattern, text: &str) -> (r: Vec<(usize, usize)>)
    ensures
        r@ == regex_matches(pattern@, text@),
        are_successive_ranges(text@, r@),
{
    pattern.compiled.find_iter(text).map(|m| (m.start(), m.end())).collect()
}

/// Calls `Regex::split` on the compiled form of the pattern. It walks the
/// matches that `Regex::find_iter` yields and hands out the parts of the
/// text that they leave.
#[verifier::external_body]
pub(crate) fn split<'a>(pattern: &Pattern, text: &'a str) -> (r: Vec<&'a str>)
    ensures
        strs(r@) == pieces_between(text@, regex_matches(pattern@, text@)),
{
    pattern.compiled.split(text).collect()
}

/// Tells the variants of `regex::Error` apart.
#[verifier::external_body]
pub(crate) fn fault_of(error: regex::Error) -> PatternFault {
    match error {
        regex::Error::Syntax(text) => PatternFault::Syntax(text),
        regex::Error::CompiledTooBig(limit) => PatternFault::TooBig(limit),
        _ => PatternFault::Other,
    }
}

} // verus!
