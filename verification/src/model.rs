//! What the tokens of a chunk, of a line and of a text are.

use vstd::prelude::*;

use crate::casing::split_cases;
use crate::chunks::chunks;
use crate::patterns::{candidates, ignores, pieces};
use crate::text::{byte_len, byte_slice, is_range_of};
use crate::trim::trimmed;

verus! {

/// What a token is: its text and the three numbers of its position.
pub struct TokenView {
    pub word: Seq<char>,
    pub start: int,
    pub end: int,
    pub line_no: int,
}

/// One token for each segment of a candidate, all with the position of the
/// candidate.
pub open spec fn segment_tokens(
    segments: Seq<Seq<char>>,
    start: int,
    end: int,
    line_no: int,
) -> Seq<TokenView> {
    Seq::new(segments.len(), |i: int| TokenView { word: segments[i], start, end, line_no })
}

/// Whether the range `m` of `piece` is a candidate that gives tokens: it
/// cuts no character and holds two bytes or more.
pub open spec fn is_candidate(piece: Seq<char>, m: (usize, usize)) -> bool {
    is_range_of(piece, m.0 as int, m.1 as int) && m.1 - m.0 >= 2
}

/// The tokens of the candidate at range `m` of `piece`: its segments, each
/// placed at the first and the last byte of the candidate, counted from
/// `offset`.
pub open spec fn candidate_tokens(
    piece: Seq<char>,
    m: (usize, usize),
    offset: int,
    line_no: int,
) -> Seq<TokenView> {
    if is_candidate(piece, m) {
        segment_tokens(
            split_cases(byte_slice(piece, m.0 as int, m.1 as int)),
            offset + m.0,
            offset + m.1 - 1,
            line_no,
        )
    } else {
        Seq::empty()
    }
}

/// The tokens of the first `k` of the candidates `ms` of `piece`.
pub open spec fn piece_tokens(
    piece: Seq<char>,
    ms: Seq<(usize, usize)>,
    k: int,
    offset: int,
    line_no: int,
) -> Seq<TokenView>
    decreases k,
{
    if k <= 0 {
        Seq::empty()
    } else {
        piece_tokens(piece, ms, k - 1, offset, line_no) + candidate_tokens(
            piece,
            ms[k - 1],
            offset,
            line_no,
        )
    }
}

/// The tokens of one part of the text `text` of a chunk: none if it is
/// empty or has more bytes than `text`, else those of the candidates that
/// the word shape finds in it.
pub open spec fn part_tokens(
    text: Seq<char>,
    piece: Seq<char>,
    offset: int,
    line_no: int,
) -> Seq<TokenView> {
    if piece.len() == 0 || byte_len(piece) > byte_len(text) {
        Seq::empty()
    } else {
        piece_tokens(piece, candidates(piece), candidates(piece).len() as int, offset, line_no)
    }
}

/// The tokens of the first `k` of the parts `pieces` of the text `text` of
/// a chunk.
pub open spec fn parts_tokens(
    text: Seq<char>,
    pieces: Seq<Seq<char>>,
    k: int,
    offset: int,
    line_no: int,
) -> Seq<TokenView>
    decreases k,
{
    if k <= 0 {
        Seq::empty()
    } else {
        parts_tokens(text, pieces, k - 1, offset, line_no) + part_tokens(
            text,
            pieces[k - 1],
            offset,
            line_no,
        )
    }
}

/// The tokens of a chunk that starts at `offset`: none if nothing is left
/// of it after trimming or if a disqualifying shape is found in what is
/// left, else those of the parts between its separators.
pub open spec fn chunk_tokens(chunk: Seq<char>, offset: int, line_no: int) -> Seq<TokenView> {
    let text = trimmed(chunk);
    if text.len() == 0 || ignores(text) {
        Seq::empty()
    } else {
        parts_tokens(text, pieces(text), pieces(text).len() as int, offset, line_no)
    }
}

/// The text of the chunk number `k` of a line.
pub open spec fn chunk_text(line: Seq<char>, k: int) -> Seq<char> {
    byte_slice(line, chunks(line)[k].0, chunks(line)[k].1)
}

/// The offset of the chunk number `k` of a line: each chunk before it
/// counts with its bytes and one separator.
pub open spec fn chunk_offset(ranges: Seq<(int, int)>, k: int) -> int
    decreases k,
{
    if k <= 0 {
        0
    } else {
        chunk_offset(ranges, k - 1) + (ranges[k - 1].1 - ranges[k - 1].0) + 1
    }
}

/// The tokens of the first `k` chunks of a line.
pub open spec fn chunks_tokens(line: Seq<char>, k: int, line_no: int) -> Seq<TokenView>
    decreases k,
{
    if k <= 0 {
        Seq::empty()
    } else {
        chunks_tokens(line, k - 1, line_no) + chunk_tokens(
            chunk_text(line, k - 1),
            chunk_offset(chunks(line), k - 1),
            line_no,
        )
    }
}

/// The tokens of a line.
pub open spec fn line_tokens(line: Seq<char>, line_no: int) -> Seq<TokenView> {
    chunks_tokens(line, chunks(line).len() as int, line_no)
}

/// The tokens of the first `k` of the lines of a text; the lines are
/// numbered from one.
pub open spec fn lines_tokens(lines: Seq<Seq<char>>, k: int) -> Seq<TokenView>
    decreases k,
{
    if k <= 0 {
        Seq::empty()
    } else {
        lines_tokens(lines, k - 1) + line_tokens(lines[k - 1], k)
    }
}

/// Every token starts at `lo` or later, ends before `hi`, starts before it
/// ends, and stands on line `line_no`.
pub open spec fn lie_within(tokens: Seq<TokenView>, lo: int, hi: int, line_no: int) -> bool {
    forall|i: int|
        0 <= i < tokens.len() ==> {
            &&& lo <= (#[trigger] tokens[i]).start < tokens[i].end < hi
            &&& tokens[i].line_no == line_no
        }
}

/// No token ends before it starts.
pub open spec fn well_formed(tokens: Seq<TokenView>) -> bool {
    forall|i: int| 0 <= i < tokens.len() ==> (#[trigger] tokens[i]).start <= tokens[i].end
}

/// No token starts before one that was found before it.
pub open spec fn ascending(tokens: Seq<TokenView>) -> bool {
    forall|i: int, j: int|
        0 <= i <= j < tokens.len() ==> (#[trigger] tokens[i]).start <= (#[trigger] tokens[j]).start
}

/// Whether the tokens of each chunk of a line, taken alone, ascend.
pub open spec fn chunks_ascend(line: Seq<char>, line_no: int) -> bool {
    forall|k: int|
        0 <= k < chunks(line).len() ==> ascending(
            #[trigger] chunk_tokens(
                    chunk_text(line, k),
                chunk_offset(chunks(line), k),
                line_no,
            ),
        )
}

} // verus!
