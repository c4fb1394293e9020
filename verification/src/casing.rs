//! Splitting a word where a run of upper-case letters begins.

use vstd::prelude::*;
use vstd::string::*;

use crate::text::{lemma_chars_le_bytes, texts};

verus! {

/// Whether a character is upper case, as `char::is_uppercase` tells it.
pub uninterp spec fn uppercase(c: char) -> bool;

/// Calls `char::is_uppercase`.
#[verifier::external_body]
fn is_uppercase(c: char) -> (r: bool)
    ensures
        r == uppercase(c),
{
    c.is_uppercase()
}

/// Whether a new segment begins at index `i`: an upper-case character that
/// follows one that is not.
pub open spec fn is_cut(w: Seq<char>, i: int) -> bool {
    0 < i < w.len() && uppercase(w[i]) && !uppercase(w[i - 1])
}

/// Where the segment begins that is open when the first `i` characters have
/// been read: at the last cut before `i`, or at 0.
pub open spec fn segment_start(w: Seq<char>, i: int) -> int
    decreases i,
{
    if i <= 0 {
        0
    } else if is_cut(w, i - 1) {
        i - 1
    } else {
        segment_start(w, i - 1)
    }
}

/// The segments that are closed when the first `i` characters have been read.
pub open spec fn closed_segments(w: Seq<char>, i: int) -> Seq<Seq<char>>
    decreases i,
{
    if i <= 0 {
        seq![]
    } else if is_cut(w, i - 1) {
        closed_segments(w, i - 1).push(w.subrange(segment_start(w, i - 1), i - 1))
    } else {
        closed_segments(w, i - 1)
    }
}

/// The segments of a word: it is cut before every upper-case character that
/// follows a character that is not upper case.
pub open spec fn split_cases(w: Seq<char>) -> Seq<Seq<char>> {
    closed_segments(w, w.len() as int).push(
        w.subrange(segment_start(w, w.len() as int), w.len() as int),
    )
}

/// Whether every character is upper case.
pub open spec fn all_uppercase(s: Seq<char>) -> bool {
    forall|k: int| 0 <= k < s.len() ==> uppercase(#[trigger] s[k])
}

/// The open segment begins at or before the place read, and only at 0 or at
/// a cut; no cut lies between its start and the place read.
pub proof fn lemma_segment_start(w: Seq<char>, i: int)
    requires
        0 <= i <= w.len(),
    ensures
        0 <= segment_start(w, i) <= i,
        i > 0 ==> segment_start(w, i) < i,
        segment_start(w, i) == 0 || is_cut(w, segment_start(w, i)),
        forall|k: int| segment_start(w, i) < k < i ==> !is_cut(w, k),
    decreases i,
{
    if i > 0 {
        lemma_segment_start(w, i - 1);
    }
}

/// Inside the open segment no upper-case character follows one that is not:
/// if the last character read is upper case, all of the segment is.
proof fn lemma_segment_uppercase(w: Seq<char>, i: int, k: int)
    requires
        0 < i <= w.len(),
        segment_start(w, i) <= k < i,
        uppercase(w[i - 1]),
    ensures
        uppercase(w[k]),
    decreases i - k,
{
    lemma_segment_start(w, i);
    if k < i - 1 {
        lemma_segment_uppercase(w, i, k + 1);
        assert(!is_cut(w, k + 1));
    }
}

/// The rule in the words of the scan: a new segment begins at `i` exactly
/// when `i` is not the first index, the character there is upper case, and
/// the segment gathered so far is not all upper case.
pub proof fn lemma_cut_rule(w: Seq<char>, i: int)
    requires
        0 <= i < w.len(),
    ensures
        is_cut(w, i) <==> i > 0 && uppercase(w[i]) && !all_uppercase(
            w.subrange(segment_start(w, i), i),
        ),
{
    if i > 0 {
        lemma_segment_start(w, i);
        let seg = w.subrange(segment_start(w, i), i);
        if uppercase(w[i - 1]) {
            assert forall|k: int| 0 <= k < seg.len() implies uppercase(#[trigger] seg[k]) by {
                lemma_segment_uppercase(w, i, segment_start(w, i) + k);
            }
        } else {
            assert(seg[seg.len() - 1] == w[i - 1]);
        }
    }
}

/// The closed segments, put together, are the word up to the start of the
/// open segment.
pub proof fn lemma_closed_segments_flatten(w: Seq<char>, i: int)
    requires
        0 <= i <= w.len(),
    ensures
        closed_segments(w, i).flatten() == w.subrange(0, segment_start(w, i)),
    decreases i,
{
    if i <= 0 {
        assert(w.subrange(0, 0) =~= Seq::<char>::empty());
    } else {
        lemma_closed_segments_flatten(w, i - 1);
        lemma_segment_start(w, i - 1);
        if is_cut(w, i - 1) {
            let before = closed_segments(w, i - 1);
            let seg = w.subrange(segment_start(w, i - 1), i - 1);
            before.lemma_flatten_push(seg);
            assert(w.subrange(0, segment_start(w, i - 1)) + seg =~= w.subrange(0, i - 1));
        }
    }
}

/// No character is lost: the segments of a word, put together in order,
/// are the word.
pub proof fn lemma_split_cases_flatten(w: Seq<char>)
    ensures
        split_cases(w).flatten() == w,
{
    let n = w.len() as int;
    lemma_closed_segments_flatten(w, n);
    lemma_segment_start(w, n);
    let last = w.subrange(segment_start(w, n), n);
    closed_segments(w, n).lemma_flatten_push(last);
    assert(w.subrange(0, segment_start(w, n)) + last =~= w);
}

/// A word without a cut is its own single segment.
pub proof fn lemma_split_cases_whole(w: Seq<char>)
    requires
        forall|i: int| 0 <= i < w.len() ==> !is_cut(w, i),
    ensures
        split_cases(w) == seq![w],
{
    lemma_no_cut(w, w.len() as int);
    assert(w.subrange(0, w.len() as int) =~= w);
    assert(Seq::<Seq<char>>::empty().push(w) =~= seq![w]);
}

proof fn lemma_no_cut(w: Seq<char>, i: int)
    requires
        0 <= i <= w.len(),
        forall|k: int| 0 <= k < w.len() ==> !is_cut(w, k),
    ensures
        segment_start(w, i) == 0,
        closed_segments(w, i) == Seq::<Seq<char>>::empty(),
    decreases i,
{
    if i > 0 {
        lemma_no_cut(w, i - 1);
    }
}

/// The segments of `word`, cut before every upper-case character that
/// follows a character that is not upper case.
pub fn split_word_cases(word: &str) -> (r: Vec<String>)
    ensures
        texts(r@) == split_cases(word@),
        texts(r@).flatten() == word@,
        r@.len() >= 1,
{
    let n = word.as_bytes().len();
    proof {
        lemma_chars_le_bytes(word@);
        lemma_split_cases_flatten(word@);
    }
    let mut r: Vec<String> = Vec::new();
    let mut start: usize = 0;
    let mut last_upper = false;
    let mut i: usize = 0;
    for c in it: word.chars()
        invariant
            it.seq() == word@,
            i == it.index(),
            word@.len() <= n,
            start == segment_start(word@, i as int),
            start <= i,
            i > 0 ==> last_upper == uppercase(word@[i - 1]),
            texts(r@) == closed_segments(word@, i as int),
    {
        let upper = is_uppercase(c);
        if i > 0 && upper && !last_upper {
            let segment = word.substring_char(start, i).to_owned();
            proof {
                assert(texts(r@.push(segment)) =~= texts(r@).push(segment@));
            }
            r.push(segment);
            start = i;
        }
        last_upper = upper;
        i += 1;
    }
    let segment = word.substring_char(start, i).to_owned();
    proof {
        assert(texts(r@.push(segment)) =~= texts(r@).push(segment@));
    }
    r.push(segment);
    r
}

} // verus!
