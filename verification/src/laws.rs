//! What holds of the tokens of every chunk, line and text.

use vstd::prelude::*;

use crate::chunks::{chunks, lemma_chunks_are_ranges, lemma_chunks_from};
use crate::engine::are_successive_ranges;
use crate::model::{
    ascending, candidate_tokens, chunk_offset, chunk_text, chunk_tokens, chunks_ascend,
    chunks_tokens, is_candidate, lie_within, line_tokens, lines_tokens, parts_tokens,
    piece_tokens, well_formed, TokenView,
};
use crate::patterns::{candidates, ignores, pieces};
use crate::text::{byte_len, lemma_slice_bytes};
use crate::tokenizer::Tokenizer;
use crate::trim::{lemma_trimmed_is_part, trimmed};

verus! {

/// A chunk starts no earlier in its line than its offset says.
pub proof fn lemma_chunk_offset(line: Seq<char>, k: int)
    requires
        0 <= k < chunks(line).len(),
    ensures
        0 <= chunk_offset(chunks(line), k) <= chunks(line)[k].0,
    decreases k,
{
    lemma_chunks_from(vstd::utf8::encode_utf8(line), 0);
    if k > 0 {
        lemma_chunk_offset(line, k - 1);
    }
}

/// The tokens of the candidates of a part lie in the part, counted from the
/// offset.
pub proof fn lemma_piece_tokens_within(
    piece: Seq<char>,
    ms: Seq<(usize, usize)>,
    k: int,
    offset: int,
    line_no: int,
)
    ensures
        lie_within(
            piece_tokens(piece, ms, k, offset, line_no),
            offset,
            offset + byte_len(piece),
            line_no,
        ),
    decreases k,
{
    if k > 0 {
        lemma_piece_tokens_within(piece, ms, k - 1, offset, line_no);
    }
}

/// A part with fewer than two bytes gives no token.
pub proof fn lemma_short_piece_gives_none(
    piece: Seq<char>,
    ms: Seq<(usize, usize)>,
    k: int,
    offset: int,
    line_no: int,
)
    requires
        byte_len(piece) <= 1,
    ensures
        piece_tokens(piece, ms, k, offset, line_no) == Seq::<TokenView>::empty(),
    decreases k,
{
    if k > 0 {
        lemma_short_piece_gives_none(piece, ms, k - 1, offset, line_no);
        assert(!is_candidate(piece, ms[k - 1]));
        assert(piece_tokens(piece, ms, k, offset, line_no) =~= Seq::<TokenView>::empty());
    }
}

/// Where the candidates of a part are successive ranges of it, its tokens
/// ascend.
pub proof fn lemma_piece_tokens_ascend(
    piece: Seq<char>,
    ms: Seq<(usize, usize)>,
    k: int,
    offset: int,
    line_no: int,
)
    requires
        are_successive_ranges(piece, ms),
        0 <= k <= ms.len(),
    ensures
        ascending(piece_tokens(piece, ms, k, offset, line_no)),
{
    lemma_piece_tokens_ordered(piece, ms, k, offset, line_no);
}

proof fn lemma_piece_tokens_ordered(
    piece: Seq<char>,
    ms: Seq<(usize, usize)>,
    k: int,
    offset: int,
    line_no: int,
)
    requires
        are_successive_ranges(piece, ms),
        0 <= k <= ms.len(),
    ensures
        ascending(piece_tokens(piece, ms, k, offset, line_no)),
        forall|i: int, j: int|
            0 <= i < piece_tokens(piece, ms, k, offset, line_no).len() && k <= j < ms.len() ==> (
            #[trigger] piece_tokens(piece, ms, k, offset, line_no)[i]).start <= offset + (
            #[trigger] ms[j]).0,
    decreases k,
{
    if k > 0 {
        lemma_piece_tokens_ordered(piece, ms, k - 1, offset, line_no);
        let before = piece_tokens(piece, ms, k - 1, offset, line_no);
        let added = candidate_tokens(piece, ms[k - 1], offset, line_no);
        let all = piece_tokens(piece, ms, k, offset, line_no);
        assert forall|i: int, j: int| 0 <= i <= j < all.len() implies (#[trigger] all[i]).start <= (
        #[trigger] all[j]).start by {
            if j >= before.len() {
                assert(all[j] == added[j - before.len()]);
                if i < before.len() {
                    assert(all[i] == before[i]);
                    assert(before[i].start <= offset + ms[k - 1].0);
                } else {
                    assert(all[i] == added[i - before.len()]);
                }
            } else {
                assert(all[i] == before[i] && all[j] == before[j]);
            }
        }
        assert forall|i: int, j: int| 0 <= i < all.len() && k <= j < ms.len() implies (
        #[trigger] all[i]).start <= offset + (#[trigger] ms[j]).0 by {
            if i < before.len() {
                assert(all[i] == before[i]);
            } else {
                assert(all[i] == added[i - before.len()]);
                assert(ms[k - 1].1 <= ms[j].0);
            }
        }
    }
}

/// The tokens of the parts of a chunk lie in what trimming left of it.
pub proof fn lemma_parts_tokens_within(
    text: Seq<char>,
    pieces: Seq<Seq<char>>,
    k: int,
    offset: int,
    line_no: int,
)
    ensures
        lie_within(
            parts_tokens(text, pieces, k, offset, line_no),
            offset,
            offset + byte_len(text),
            line_no,
        ),
    decreases k,
{
    if k > 0 {
        lemma_parts_tokens_within(text, pieces, k - 1, offset, line_no);
        let piece = pieces[k - 1];
        lemma_piece_tokens_within(
            piece,
            candidates(piece),
            candidates(piece).len() as int,
            offset,
            line_no,
        );
    }
}

/// Every token of a chunk lies in the chunk: it starts at the chunk's
/// offset or later, ends before the chunk does, and starts before it ends.
pub proof fn lemma_chunk_tokens_within(chunk: Seq<char>, offset: int, line_no: int)
    ensures
        lie_within(chunk_tokens(chunk, offset, line_no), offset, offset + byte_len(chunk), line_no),
{
    let text = trimmed(chunk);
    lemma_trimmed_is_part(chunk);
    lemma_parts_tokens_within(text, pieces(text), pieces(text).len() as int, offset, line_no);
}

/// A chunk of which trimming leaves one byte or none gives no token.
pub proof fn lemma_single_byte_gives_none(chunk: Seq<char>, offset: int, line_no: int)
    requires
        byte_len(trimmed(chunk)) <= 1,
    ensures
        chunk_tokens(chunk, offset, line_no) == Seq::<TokenView>::empty(),
{
    let text = trimmed(chunk);
    lemma_short_parts_give_none(text, pieces(text), pieces(text).len() as int, offset, line_no);
}

proof fn lemma_short_parts_give_none(
    text: Seq<char>,
    pieces: Seq<Seq<char>>,
    k: int,
    offset: int,
    line_no: int,
)
    requires
        byte_len(text) <= 1,
    ensures
        parts_tokens(text, pieces, k, offset, line_no) == Seq::<TokenView>::empty(),
    decreases k,
{
    if k > 0 {
        lemma_short_parts_give_none(text, pieces, k - 1, offset, line_no);
        let piece = pieces[k - 1];
        if byte_len(piece) <= byte_len(text) {
            lemma_short_piece_gives_none(
                piece,
                candidates(piece),
                candidates(piece).len() as int,
                offset,
                line_no,
            );
        }
        assert(parts_tokens(text, pieces, k, offset, line_no) =~= Seq::<TokenView>::empty());
    }
}

/// A chunk in which, after trimming, one of the disqualifying shapes is
/// found gives no token.
pub proof fn lemma_ignored_chunk_gives_none(chunk: Seq<char>, offset: int, line_no: int)
    requires
        ignores(trimmed(chunk)),
    ensures
        chunk_tokens(chunk, offset, line_no) == Seq::<TokenView>::empty(),
{
}

/// The tokens of the first `k` chunks of a line end before the offset of
/// the chunk that comes next, and in the line.
pub proof fn lemma_chunks_tokens_within(line: Seq<char>, k: int, line_no: int)
    requires
        0 <= k <= chunks(line).len(),
    ensures
        lie_within(chunks_tokens(line, k, line_no), 0, chunk_offset(chunks(line), k), line_no),
        lie_within(chunks_tokens(line, k, line_no), 0, byte_len(line) as int, line_no),
    decreases k,
{
    if k > 0 {
        lemma_chunks_tokens_within(line, k - 1, line_no);
        lemma_chunks_are_ranges(line);
        lemma_chunk_offset(line, k - 1);
        let range = chunks(line)[k - 1];
        lemma_slice_bytes(line, range.0, range.1);
        lemma_chunk_tokens_within(
            chunk_text(line, k - 1),
            chunk_offset(chunks(line), k - 1),
            line_no,
        );
    }
}

/// Every token of a line lies in the line, starts before it ends, and has
/// the line's number.
pub proof fn lemma_line_tokens_within(line: Seq<char>, line_no: int)
    ensures
        lie_within(line_tokens(line, line_no), 0, byte_len(line) as int, line_no),
{
    lemma_chunks_tokens_within(line, chunks(line).len() as int, line_no);
}

/// The tokens of a line ascend exactly where those of each of its chunks
/// do: a token of a later chunk starts behind every token of an earlier one,
/// while inside a chunk a later part is placed from the start of the chunk
/// again.
pub proof fn lemma_line_tokens_ascend(line: Seq<char>, line_no: int)
    ensures
        ascending(line_tokens(line, line_no)) <==> chunks_ascend(line, line_no),
{
    let n = chunks(line).len() as int;
    if chunks_ascend(line, line_no) {
        lemma_chunks_tokens_ascend(line, n, line_no);
    }
    if ascending(line_tokens(line, line_no)) {
        let all = line_tokens(line, line_no);
        assert forall|k: int| 0 <= k < n implies ascending(
            #[trigger] chunk_tokens(chunk_text(line, k), chunk_offset(chunks(line), k), line_no),
        ) by {
            let before = chunks_tokens(line, k, line_no);
            let added = chunk_tokens(chunk_text(line, k), chunk_offset(chunks(line), k), line_no);
            lemma_chunks_tokens_prefix(line, k + 1, n, line_no);
            assert forall|i: int, j: int| 0 <= i <= j < added.len() implies (
            #[trigger] added[i]).start <= (#[trigger] added[j]).start by {
                assert(chunks_tokens(line, k + 1, line_no)[before.len() + i] == added[i]);
                assert(chunks_tokens(line, k + 1, line_no)[before.len() + j] == added[j]);
                assert(all[before.len() + i] == added[i]);
                assert(all[before.len() + j] == added[j]);
            }
        }
    }
}

/// The tokens of the first chunks of a line stay in place when those of
/// further chunks are added.
proof fn lemma_chunks_tokens_prefix(line: Seq<char>, k: int, l: int, line_no: int)
    requires
        0 <= k <= l,
    ensures
        chunks_tokens(line, k, line_no).len() <= chunks_tokens(line, l, line_no).len(),
        forall|i: int|
            0 <= i < chunks_tokens(line, k, line_no).len() ==> chunks_tokens(
                    line,
                l,
                line_no,
            )[i] == #[trigger] chunks_tokens(line, k, line_no)[i],
    decreases l,
{
    if k < l {
        lemma_chunks_tokens_prefix(line, k, l - 1, line_no);
    }
}

proof fn lemma_chunks_tokens_ascend(line: Seq<char>, k: int, line_no: int)
    requires
        0 <= k <= chunks(line).len(),
        chunks_ascend(line, line_no),
    ensures
        ascending(chunks_tokens(line, k, line_no)),
    decreases k,
{
    if k > 0 {
        lemma_chunks_tokens_ascend(line, k - 1, line_no);
        lemma_chunks_tokens_within(line, k - 1, line_no);
        let offset = chunk_offset(chunks(line), k - 1);
        let before = chunks_tokens(line, k - 1, line_no);
        let added = chunk_tokens(chunk_text(line, k - 1), offset, line_no);
        let all = chunks_tokens(line, k, line_no);
        lemma_chunk_tokens_within(chunk_text(line, k - 1), offset, line_no);
        assert(ascending(added));
        assert forall|i: int, j: int| 0 <= i <= j < all.len() implies (#[trigger] all[i]).start <= (
        #[trigger] all[j]).start by {
            if j >= before.len() {
                assert(all[j] == added[j - before.len()]);
                if i < before.len() {
                    assert(all[i] == before[i]);
                } else {
                    assert(all[i] == added[i - before.len()]);
                }
            } else {
                assert(all[i] == before[i] && all[j] == before[j]);
            }
        }
    }
}

/// Tokens that lie within bounds, added to well-formed ones, leave them
/// well formed.
pub proof fn lemma_well_formed_grows(held: Seq<TokenView>, added: Seq<TokenView>)
    requires
        well_formed(held),
        exists|lo: int, hi: int, line_no: int| lie_within(added, lo, hi, line_no),
    ensures
        well_formed(held + added),
{
    let all = held + added;
    assert forall|i: int| 0 <= i < all.len() implies (#[trigger] all[i]).start <= all[i].end by {
        if i >= held.len() {
            assert(all[i] == added[i - held.len()]);
        } else {
            assert(all[i] == held[i]);
        }
    }
}

/// Every token of a text starts before it ends and has the number of a
/// line of the text.
pub proof fn lemma_lines_tokens_numbered(lines: Seq<Seq<char>>, k: int)
    requires
        0 <= k <= lines.len(),
    ensures
        forall|i: int|
            0 <= i < lines_tokens(lines, k).len() ==> {
                let token = #[trigger] lines_tokens(lines, k)[i];
                &&& 0 <= token.start < token.end
                &&& 1 <= token.line_no <= k
            },
    decreases k,
{
    if k > 0 {
        lemma_lines_tokens_numbered(lines, k - 1);
        lemma_line_tokens_within(lines[k - 1], k);
        let before = lines_tokens(lines, k - 1);
        let added = line_tokens(lines[k - 1], k);
        let all = lines_tokens(lines, k);
        assert forall|i: int| 0 <= i < all.len() implies {
            let token = #[trigger] all[i];
            &&& 0 <= token.start < token.end
            &&& 1 <= token.line_no <= k
        } by {
            if i < before.len() {
                assert(all[i] == before[i]);
            } else {
                assert(all[i] == added[i - before.len()]);
            }
        }
    }
}

/// Reading the same lines after clearing gives the same tokens, be it the
/// same tokenizer a second time or another one: what a cleared tokenizer
/// holds after reading depends on the lines alone.
pub proof fn lemma_reading_again_gives_the_same(
    one: Tokenizer,
    one_read: Tokenizer,
    other: Tokenizer,
    other_read: Tokenizer,
    lines: Seq<Seq<char>>,
)
    requires
        one.is_cleared(),
        one.reads_to(lines, one_read),
        other.is_cleared(),
        other.reads_to(lines, other_read),
    ensures
        one_read@ == other_read@,
        one_read@ == lines_tokens(lines, lines.len() as int),
{
    assert(Seq::<TokenView>::empty() + lines_tokens(lines, lines.len() as int)
        =~= lines_tokens(lines, lines.len() as int));
}

} // verus!
