//! Tokens and the places they were found at.

use vstd::prelude::*;
use vstd::string::*;

use crate::casing::split_word_cases;
use crate::chunks::{as_ranges, chunk_ranges, chunks, lemma_chunks_are_ranges};
use crate::laws::{lemma_chunk_offset, lemma_line_tokens_within, lemma_well_formed_grows};
use crate::model::{
    chunk_offset, chunk_tokens, chunks_tokens, line_tokens, lines_tokens, parts_tokens,
    piece_tokens, segment_tokens, well_formed, TokenView,
};
use crate::patterns::{is_first_refused, pieces, shapes_compile, PatternError, PatternSet};
use crate::text::{byte_len, is_range_of, lemma_slice_bytes, slice, strs, texts};
use crate::trim::{lemma_trimmed_is_part, trim_edges};

verus! {

/// Where a token was found: the first and the last byte of the candidate it
/// was cut from, and the line, counted from one.
#[derive(Debug)]
pub struct Position {
    start: usize,
    end: usize,
    line_no: usize,
}

impl Position {
    /// The offset of the first byte.
    pub closed spec fn spec_start(&self) -> usize {
        self.start
    }

    /// The offset of the last byte.
    pub closed spec fn spec_end(&self) -> usize {
        self.end
    }

    /// The number of the line.
    pub closed spec fn spec_line_no(&self) -> usize {
        self.line_no
    }

    /// The offset of the first byte.
    #[verifier::when_used_as_spec(spec_start)]
    pub fn start(&self) -> (r: usize)
        ensures
            r == self.spec_start(),
    {
        self.start
    }

    /// The offset of the last byte.
    #[verifier::when_used_as_spec(spec_end)]
    pub fn end(&self) -> (r: usize)
        ensures
            r == self.spec_end(),
    {
        self.end
    }

    /// The number of the line.
    #[verifier::when_used_as_spec(spec_line_no)]
    pub fn line_no(&self) -> (r: usize)
        ensures
            r == self.spec_line_no(),
    {
        self.line_no
    }
}

/// A word to be spell-checked, with the place it was found at.
#[derive(Debug)]
pub struct Token {
    word: String,
    position: Position,
}

impl View for Token {
    type V = TokenView;

    closed spec fn view(&self) -> TokenView {
        TokenView {
            word: self.word@,
            start: self.position.start as int,
            end: self.position.end as int,
            line_no: self.position.line_no as int,
        }
    }
}

impl Token {
    /// A token with the given text and position.
    pub fn new(word: &str, start: usize, end: usize, line_no: usize) -> (token: Self)
        ensures
            token@ == (TokenView {
                word: word@,
                start: start as int,
                end: end as int,
                line_no: line_no as int,
            }),
    {
        Self { word: word.to_owned(), position: Position { start, end, line_no } }
    }

    /// The text of the token.
    pub fn word(&self) -> (w: &str)
        ensures
            w@ == self@.word,
    {
        self.word.as_str()
    }

    /// The position of the token.
    pub fn position(&self) -> (p: &Position)
        ensures
            p.spec_start() == self@.start,
            p.spec_end() == self@.end,
            p.spec_line_no() == self@.line_no,
    {
        &self.position
    }
}

/// What each of a sequence of tokens is.
pub open spec fn views(tokens: Seq<Token>) -> Seq<TokenView> {
    tokens.map_values(|t: Token| t@)
}

/// Appends one token for each segment, all with the given position.
pub fn push_segments(
    tokens: &mut Vec<Token>,
    segments: Vec<String>,
    start: usize,
    end: usize,
    line_no: usize,
)
    ensures
        views(final(tokens)@) == views(old(tokens)@) + segment_tokens(
            texts(segments@),
            start as int,
            end as int,
            line_no as int,
        ),
{
    let ghost all = segment_tokens(texts(segments@), start as int, end as int, line_no as int);
    let ghost before = views(tokens@);
    for segment in it: segments
        invariant
            it.seq() == segments@,
            all == segment_tokens(texts(segments@), start as int, end as int, line_no as int),
            views(tokens@) == before + all.subrange(0, it.index() as int),
    {
        let token = Token { word: segment, position: Position { start, end, line_no } };
        proof {
            let i = it.index() as int;
            assert(token@ == all[i]);
            assert(views(tokens@.push(token)) =~= views(tokens@).push(token@));
            assert(all.subrange(0, i).push(all[i]) =~= all.subrange(0, i + 1));
        }
        tokens.push(token);
    }
    proof {
        assert(all.subrange(0, all.len() as int) =~= all);
    }
}

/// Appends the tokens of the candidates of `piece`. A range that is no
/// range of `piece`, or holds fewer than two bytes, gives none.
pub fn push_candidates(
    tokens: &mut Vec<Token>,
    piece: &str,
    candidates: &[(usize, usize)],
    offset: usize,
    line_no: usize,
)
    requires
        offset + byte_len(piece@) <= usize::MAX,
    ensures
        views(final(tokens)@) == views(old(tokens)@) + piece_tokens(
            piece@,
            candidates@,
            candidates@.len() as int,
            offset as int,
            line_no as int,
        ),
{
    let ghost before = views(tokens@);
    let mut k: usize = 0;
    while k < candidates.len()
        invariant
            k <= candidates@.len(),
            offset + byte_len(piece@) <= usize::MAX,
            views(tokens@) == before + piece_tokens(
                piece@,
                candidates@,
                k as int,
                offset as int,
                line_no as int,
            ),
        decreases candidates@.len() - k,
    {
        let (from, to) = candidates[k];
        if from <= to && to - from >= 2 {
            if let Some(word) = slice(piece, from, to) {
                let segments = split_word_cases(word);
                push_segments(tokens, segments, offset + from, offset + to - 1, line_no);
            }
        }
        k += 1;
    }
}

/// Appends the tokens of a chunk that starts at `offset`.
pub fn push_chunk(
    tokens: &mut Vec<Token>,
    patterns: &PatternSet,
    chunk: &str,
    offset: usize,
    line_no: usize,
)
    requires
        offset + byte_len(chunk@) <= usize::MAX,
    ensures
        views(final(tokens)@) == views(old(tokens)@) + chunk_tokens(
            chunk@,
            offset as int,
            line_no as int,
        ),
{
    let text = trim_edges(chunk);
    proof {
        lemma_trimmed_is_part(chunk@);
    }
    if text.is_empty() {
        return;
    }
    if patterns.is_ignored(text) {
        return;
    }
    let parts = patterns.split_chunk(text);
    let limit = text.as_bytes().len();
    let ghost before = views(tokens@);
    let mut k: usize = 0;
    while k < parts.len()
        invariant
            k <= parts@.len(),
            strs(parts@) == pieces(text@),
            limit == byte_len(text@),
            offset + limit <= usize::MAX,
            views(tokens@) == before + parts_tokens(
                text@,
                pieces(text@),
                k as int,
                offset as int,
                line_no as int,
            ),
        decreases parts@.len() - k,
    {
        let piece = parts[k];
        assert(piece@ == strs(parts@)[k as int]);
        if !piece.is_empty() && piece.as_bytes().len() <= limit {
            let candidates = patterns.find_candidates(piece);
            push_candidates(tokens, piece, &candidates, offset, line_no);
        }
        k += 1;
    }
}

/// Appends the tokens of a line.
pub fn push_line(tokens: &mut Vec<Token>, patterns: &PatternSet, line: &str, line_no: usize)
    ensures
        views(final(tokens)@) == views(old(tokens)@) + line_tokens(line@, line_no as int),
{
    let ranges = chunk_ranges(line);
    let ghost before = views(tokens@);
    let mut offset: usize = 0;
    let mut k: usize = 0;
    proof {
        lemma_chunks_are_ranges(line@);
    }
    while k < ranges.len()
        invariant
            k <= ranges@.len(),
            as_ranges(ranges@) == chunks(line@),
            forall|i: int|
                0 <= i < chunks(line@).len() ==> is_range_of(
                    line@,
                    (#[trigger] chunks(line@)[i]).0,
                    chunks(line@)[i].1,
                ),
            k < ranges@.len() ==> offset == chunk_offset(chunks(line@), k as int),
            views(tokens@) == before + chunks_tokens(line@, k as int, line_no as int),
        decreases ranges@.len() - k,
    {
        let (from, to) = ranges[k];
        proof {
            assert(chunks(line@)[k as int] == (from as int, to as int));
            lemma_chunk_offset(line@, k as int);
            lemma_slice_bytes(line@, from as int, to as int);
            if k + 1 < ranges@.len() {
                lemma_chunk_offset(line@, k + 1);
            }
        }
        if let Some(chunk) = slice(line, from, to) {
            push_chunk(tokens, patterns, chunk, offset, line_no);
        }
        k += 1;
        // The offset of a chunk is never behind its start, so it fits while
        // a chunk is left.
        if k < ranges.len() {
            offset = offset + (to - from) + 1;
        }
    }
}

/// Reads lines and gathers their tokens.
#[derive(Debug)]
pub struct Tokenizer {
    tokens: Vec<Token>,
    patterns: PatternSet,
}

impl View for Tokenizer {
    type V = Seq<TokenView>;

    /// The tokens gathered so far.
    closed spec fn view(&self) -> Seq<TokenView> {
        views(self.tokens@)
    }
}

impl Tokenizer {
    /// No token that the tokenizer holds ends before it starts.
    pub open spec fn wf(&self) -> bool {
        well_formed(self@)
    }

    /// Whether the tokenizer holds no token.
    pub open spec fn is_cleared(&self) -> bool {
        self@ =~= Seq::<TokenView>::empty()
    }

    /// Whether `after` is this tokenizer once it has read `lines`.
    pub open spec fn reads_to(&self, lines: Seq<Seq<char>>, after: Tokenizer) -> bool {
        after@ == self@ + lines_tokens(lines, lines.len() as int)
    }

    /// A tokenizer without tokens, with the seven shapes compiled; the error
    /// names the first shape that the engine refused.
    pub fn new() -> (r: Result<Self, PatternError>)
        ensures
            r is Ok <==> shapes_compile(7),
            match r {
                Ok(tokenizer) => tokenizer.is_cleared() && tokenizer.wf(),
                Err(error) => is_first_refused(error.spec_pattern()),
            },
    {
        match PatternSet::new() {
            Ok(patterns) => Ok(Self { tokens: Vec::new(), patterns }),
            Err(error) => Err(error),
        }
    }

    /// The tokens gathered so far, in the order in which they were found.
    pub fn tokens(&self) -> (r: &[Token])
        ensures
            views(r@) == self@,
    {
        self.tokens.as_slice()
    }

    /// Drops the tokens gathered so far.
    pub fn clear_tokens(&mut self)
        ensures
            final(self).is_cleared(),
            final(self).wf(),
    {
        self.tokens.clear();
        assert(self@ =~= Seq::<TokenView>::empty());
    }

    /// Appends the tokens of one line, which is given with its number.
    pub fn tokenize_line(&mut self, line: &str, line_no: usize)
        ensures
            final(self)@ == old(self)@ + line_tokens(line@, line_no as int),
            old(self).wf() ==> final(self).wf(),
    {
        proof {
            lemma_line_tokens_within(line@, line_no as int);
            if self.wf() {
                lemma_well_formed_grows(self@, line_tokens(line@, line_no as int));
            }
        }
        push_line(&mut self.tokens, &self.patterns, line, line_no);
    }

    /// Appends the tokens of the lines of a text, the first of which has the
    /// number one.
    pub fn tokenize(&mut self, lines: &[String])
        ensures
            old(self).reads_to(texts(lines@), *final(self)),
            old(self).wf() ==> final(self).wf(),
    {
        let mut k: usize = 0;
        while k < lines.len()
            invariant
                k <= lines@.len(),
                old(self).wf() ==> self.wf(),
                self@ == old(self)@ + lines_tokens(texts(lines@), k as int),
            decreases lines@.len() - k,
        {
            assert(texts(lines@)[k as int] == lines@[k as int]@);
            self.tokenize_line(lines[k].as_str(), k + 1);
            k += 1;
        }
    }
}

} // verus!
