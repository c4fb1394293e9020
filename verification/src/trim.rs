//! Trimming a chunk to what lies between its first and its last letter,
//! digit or apostrophe.

use vstd::prelude::*;
use vstd::string::*;

use crate::text::{byte_len, lemma_chars_le_bytes, lemma_part_bytes};

verus! {

/// Whether a character is a letter or a digit, as `char::is_alphanumeric`
/// tells it.
pub uninterp spec fn alphanumeric(c: char) -> bool;

/// Calls `char::is_alphanumeric`.
#[verifier::external_body]
fn is_alphanumeric(c: char) -> (r: bool)
    ensures
        r == alphanumeric(c),
{
    c.is_alphanumeric()
}

/// The characters that are kept at the edges of a chunk: letters, digits and
/// the apostrophe.
pub open spec fn is_kept(c: char) -> bool {
    alphanumeric(c) || c == '\''
}

/// `s` without the characters at its start that are not kept.
pub open spec fn trim_start(s: Seq<char>) -> Seq<char>
    decreases s.len(),
{
    if s.len() > 0 && !is_kept(s.first()) {
        trim_start(s.drop_first())
    } else {
        s
    }
}

/// `s` without the characters at its end that are not kept.
pub open spec fn trim_end(s: Seq<char>) -> Seq<char>
    decreases s.len(),
{
    if s.len() > 0 && !is_kept(s.last()) {
        trim_end(s.drop_last())
    } else {
        s
    }
}

/// `s` without the characters at either edge that are not kept.
pub open spec fn trimmed(s: Seq<char>) -> Seq<char> {
    trim_end(trim_start(s))
}

/// What is left of `s` starts at the first kept character.
pub proof fn lemma_trim_start(s: Seq<char>, from: int)
    requires
        0 <= from <= s.len(),
        forall|k: int| 0 <= k < from ==> !is_kept(#[trigger] s[k]),
        from == s.len() || is_kept(s[from]),
    ensures
        trim_start(s) == s.subrange(from, s.len() as int),
    decreases from,
{
    if from == 0 {
        assert(s.subrange(0, s.len() as int) =~= s);
    } else {
        let rest = s.drop_first();
        assert forall|k: int| 0 <= k < from - 1 implies !is_kept(#[trigger] rest[k]) by {
            assert(rest[k] == s[k + 1]);
        }
        lemma_trim_start(rest, from - 1);
        assert(rest.subrange(from - 1, rest.len() as int) =~= s.subrange(from, s.len() as int));
    }
}

/// What is left of `s` ends behind the last kept character.
pub proof fn lemma_trim_end(s: Seq<char>, to: int)
    requires
        0 <= to <= s.len(),
        forall|k: int| to <= k < s.len() ==> !is_kept(#[trigger] s[k]),
        to == 0 || is_kept(s[to - 1]),
    ensures
        trim_end(s) == s.subrange(0, to),
    decreases s.len() - to,
{
    if to == s.len() {
        assert(s.subrange(0, s.len() as int) =~= s);
    } else {
        let rest = s.drop_last();
        lemma_trim_end(rest, to);
        assert(rest.subrange(0, to) =~= s.subrange(0, to));
    }
}

/// What is left by trimming is empty, or starts and ends with a kept
/// character.
pub proof fn lemma_trimmed_edges(s: Seq<char>)
    ensures
        trimmed(s).len() > 0 ==> is_kept(trimmed(s).first()) && is_kept(trimmed(s).last()),
{
    lemma_trim_start_edge(s);
    lemma_trim_end_edge(trim_start(s));
}

proof fn lemma_trim_start_edge(s: Seq<char>)
    ensures
        trim_start(s).len() > 0 ==> is_kept(trim_start(s).first()),
    decreases s.len(),
{
    if s.len() > 0 && !is_kept(s.first()) {
        lemma_trim_start_edge(s.drop_first());
    }
}

proof fn lemma_trim_end_edge(s: Seq<char>)
    ensures
        trim_end(s).len() > 0 ==> is_kept(trim_end(s).last()),
        trim_end(s).len() > 0 ==> trim_end(s).first() == s.first(),
    decreases s.len(),
{
    if s.len() > 0 && !is_kept(s.last()) {
        lemma_trim_end_edge(s.drop_last());
    }
}

/// What is left of a text by trimming is a part of it.
pub proof fn lemma_trimmed_is_part(s: Seq<char>)
    ensures
        exists|from: int, to: int|
            0 <= from <= to <= s.len() && trimmed(s) == #[trigger] s.subrange(from, to),
        byte_len(trimmed(s)) <= byte_len(s),
{
    lemma_trim_start_is_part(s);
    let from = choose|from: int| 0 <= from <= s.len() && trim_start(s) == s.subrange(from, s.len() as int);
    let rest = s.subrange(from, s.len() as int);
    lemma_trim_end_is_part(rest);
    let len = choose|len: int| 0 <= len <= rest.len() && trim_end(rest) == rest.subrange(0, len);
    assert(rest.subrange(0, len) =~= s.subrange(from, from + len));
    lemma_part_bytes(s, from, from + len);
}

proof fn lemma_trim_start_is_part(s: Seq<char>)
    ensures
        exists|from: int| 0 <= from <= s.len() && trim_start(s) == #[trigger] s.subrange(from, s.len() as int),
    decreases s.len(),
{
    if s.len() > 0 && !is_kept(s.first()) {
        let rest = s.drop_first();
        lemma_trim_start_is_part(rest);
        let from = choose|from: int| 0 <= from <= rest.len() && trim_start(rest) == rest.subrange(from, rest.len() as int);
        assert(rest.subrange(from, rest.len() as int) =~= s.subrange(from + 1, s.len() as int));
    } else {
        assert(s.subrange(0, s.len() as int) =~= s);
    }
}

proof fn lemma_trim_end_is_part(s: Seq<char>)
    ensures
        exists|to: int| 0 <= to <= s.len() && trim_end(s) == #[trigger] s.subrange(0, to),
    decreases s.len(),
{
    if s.len() > 0 && !is_kept(s.last()) {
        let rest = s.drop_last();
        lemma_trim_end_is_part(rest);
        let to = choose|to: int| 0 <= to <= rest.len() && trim_end(rest) == rest.subrange(0, to);
        assert(rest.subrange(0, to) =~= s.subrange(0, to));
    } else {
        assert(s.subrange(0, s.len() as int) =~= s);
    }
}

/// Whether a character is kept at the edges of a chunk.
pub fn keeps(c: char) -> (r: bool)
    ensures
        r == is_kept(c),
{
    is_alphanumeric(c) || c == '\''
}

/// The chunk without the characters at its edges that are neither letters
/// nor digits nor apostrophes.
pub fn trim_edges(chunk: &str) -> (r: &str)
    ensures
        r@ == trimmed(chunk@),
{
    let n = chunk.as_bytes().len();
    proof {
        lemma_chars_le_bytes(chunk@);
    }
    let mut found = false;
    let mut from: usize = 0;
    let mut to: usize = 0;
    let mut i: usize = 0;
    for c in it: chunk.chars()
        invariant
            it.seq() == chunk@,
            i == it.index(),
            chunk@.len() <= n,
            from <= to <= i,
            !found ==> from == i && to == i,
            found ==> from < to && is_kept(chunk@[from as int]) && is_kept(chunk@[to - 1]),
            forall|k: int| 0 <= k < from ==> !is_kept(#[trigger] chunk@[k]),
            forall|k: int| to <= k < i && found ==> !is_kept(#[trigger] chunk@[k]),
    {
        if keeps(c) {
            found = true;
            to = i + 1;
        } else if !found {
            from = i + 1;
            to = i + 1;
        }
        i += 1;
    }
    proof {
        let s = chunk@;
        lemma_trim_start(s, from as int);
        let rest = s.subrange(from as int, s.len() as int);
        if found {
            lemma_trim_end(rest, to - from);
            assert(rest.subrange(0, to - from) =~= s.subrange(from as int, to as int));
        } else {
            assert(rest =~= s.subrange(from as int, to as int));
        }
    }
    chunk.substring_char(from, to)
}

} // verus!
