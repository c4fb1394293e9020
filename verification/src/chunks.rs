//! The chunks of a line: the runs of bytes between white space.

use vstd::prelude::*;
use vstd::string::*;
use vstd::utf8::*;

use crate::text::{is_range_of, lemma_boundary_after_ascii};

verus! {

/// The bytes that separate chunks: space, tab, line feed, form feed and
/// carriage return.
pub open spec fn is_space(b: u8) -> bool {
    b == 0x20 || b == 0x09 || b == 0x0a || b == 0x0c || b == 0x0d
}

/// Where the run of bytes that are no white space, entered at `i`, ends.
pub open spec fn chunk_end(bytes: Seq<u8>, i: int) -> int
    decreases bytes.len() - i,
{
    if 0 <= i < bytes.len() && !is_space(bytes[i]) {
        chunk_end(bytes, i + 1)
    } else {
        i
    }
}

/// Whether a chunk starts at offset `i`: the byte there is no white space,
/// and it is the first byte or follows white space.
pub open spec fn is_chunk_start(bytes: Seq<u8>, i: int) -> bool {
    &&& 0 <= i < bytes.len()
    &&& !is_space(bytes[i])
    &&& (i == 0 || is_space(bytes[i - 1]))
}

/// The chunks of `bytes` that start at offset `i` or later, in order: each a
/// maximal run of bytes that are no white space, as the offsets of its start
/// and its end.
pub open spec fn chunks_from(bytes: Seq<u8>, i: int) -> Seq<(int, int)>
    decreases bytes.len() - i,
{
    if 0 <= i < bytes.len() {
        if is_chunk_start(bytes, i) {
            seq![(i, chunk_end(bytes, i))] + chunks_from(bytes, i + 1)
        } else {
            chunks_from(bytes, i + 1)
        }
    } else {
        seq![]
    }
}

/// The chunks of a line.
pub open spec fn chunks(line: Seq<char>) -> Seq<(int, int)> {
    chunks_from(encode_utf8(line), 0)
}

/// Ranges of machine integers as ranges of integers.
pub open spec fn as_ranges(v: Seq<(usize, usize)>) -> Seq<(int, int)> {
    v.map_values(|p: (usize, usize)| (p.0 as int, p.1 as int))
}

/// A run ends after it starts, inside the bytes, and holds no white space.
pub proof fn lemma_chunk_end(bytes: Seq<u8>, i: int)
    requires
        0 <= i <= bytes.len(),
    ensures
        i <= chunk_end(bytes, i) <= bytes.len(),
        forall|k: int| i <= k < chunk_end(bytes, i) ==> !is_space(#[trigger] bytes[k]),
        chunk_end(bytes, i) < bytes.len() ==> is_space(bytes[chunk_end(bytes, i)]),
    decreases bytes.len() - i,
{
    if i < bytes.len() && !is_space(bytes[i]) {
        lemma_chunk_end(bytes, i + 1);
    }
}

/// What holds of the chunks found from offset `i` on: each starts at or
/// after `i`, is not empty, ends where its run ends, and the next one starts
/// behind the white space that ends it.
pub proof fn lemma_chunks_from(bytes: Seq<u8>, i: int)
    requires
        0 <= i <= bytes.len(),
    ensures
        forall|k: int|
            0 <= k < chunks_from(bytes, i).len() ==> {
                let c = #[trigger] chunks_from(bytes, i)[k];
                &&& i <= c.0 < c.1 <= bytes.len()
                &&& is_chunk_start(bytes, c.0)
                &&& c.1 == chunk_end(bytes, c.0)
            },
        forall|k: int, l: int|
            0 <= k < l < chunks_from(bytes, i).len() ==> (#[trigger] chunks_from(bytes, i)[k]).1 < (
            #[trigger] chunks_from(bytes, i)[l]).0,
    decreases bytes.len() - i,
{
    if i < bytes.len() {
        lemma_chunks_from(bytes, i + 1);
        if is_chunk_start(bytes, i) {
            lemma_chunk_end(bytes, i);
            lemma_chunk_end(bytes, i + 1);
            let rest = chunks_from(bytes, i + 1);
            let all = chunks_from(bytes, i);
            assert forall|k: int, l: int| 0 <= k < l < all.len() implies (#[trigger] all[k]).1 < (
            #[trigger] all[l]).0 by {
                assert(all[l] == rest[l - 1]);
                if k == 0 {
                    let next = rest[l - 1].0;
                    assert(is_chunk_start(bytes, next));
                    assert(next > i);
                    if next <= chunk_end(bytes, i) {
                        assert(!is_space(bytes[next - 1]));
                    }
                } else {
                    assert(all[k] == rest[k - 1]);
                }
            }
            assert forall|k: int| 0 <= k < all.len() implies {
                let c = #[trigger] all[k];
                &&& i <= c.0 < c.1 <= bytes.len()
                &&& is_chunk_start(bytes, c.0)
                &&& c.1 == chunk_end(bytes, c.0)
            } by {
                if k > 0 {
                    assert(all[k] == rest[k - 1]);
                }
            }
        } else {
            assert(chunks_from(bytes, i) == chunks_from(bytes, i + 1));
        }
    }
}

/// Every chunk start at or after `i` is the start of one of the chunks
/// found from `i` on.
pub proof fn lemma_chunk_starts_are_found(bytes: Seq<u8>, i: int, start: int)
    requires
        0 <= i <= start,
        is_chunk_start(bytes, start),
    ensures
        exists|k: int|
            0 <= k < chunks_from(bytes, i).len() && (#[trigger] chunks_from(bytes, i)[k]).0
                == start,
    decreases bytes.len() - i,
{
    let all = chunks_from(bytes, i);
    if i == start {
        assert(all[0].0 == start);
    } else {
        lemma_chunk_starts_are_found(bytes, i + 1, start);
        let rest = chunks_from(bytes, i + 1);
        let k = choose|k: int| 0 <= k < rest.len() && (#[trigger] rest[k]).0 == start;
        if is_chunk_start(bytes, i) {
            assert(all[k + 1] == rest[k]);
        } else {
            assert(all[k] == rest[k]);
        }
    }
}

/// Every byte of a line that is no white space lies in one of its chunks.
pub proof fn lemma_chunks_cover(bytes: Seq<u8>, at: int)
    requires
        0 <= at < bytes.len(),
        !is_space(bytes[at]),
    ensures
        exists|k: int|
            0 <= k < chunks_from(bytes, 0).len() && (#[trigger] chunks_from(bytes, 0)[k]).0 <= at
                < chunks_from(bytes, 0)[k].1,
    decreases at,
{
    if is_chunk_start(bytes, at) {
        lemma_chunk_starts_are_found(bytes, 0, at);
        lemma_chunk_end(bytes, at);
        lemma_chunk_end(bytes, at + 1);
        lemma_chunks_from(bytes, 0);
    } else {
        lemma_chunks_cover(bytes, at - 1);
        lemma_chunks_from(bytes, 0);
        let all = chunks_from(bytes, 0);
        let k = choose|k: int| 0 <= k < all.len() && (#[trigger] all[k]).0 <= at - 1 < all[k].1;
        lemma_chunk_end(bytes, all[k].0);
        assert(all[k].1 != at);
    }
}

/// Every chunk of a line is a range of its bytes that cuts no character.
pub proof fn lemma_chunks_are_ranges(line: Seq<char>)
    ensures
        forall|k: int|
            0 <= k < chunks(line).len() ==> is_range_of(
                line,
                (#[trigger] chunks(line)[k]).0,
                chunks(line)[k].1,
            ),
{
    let bytes = encode_utf8(line);
    encode_utf8_valid_utf8(line);
    lemma_chunks_from(bytes, 0);
    assert forall|k: int| 0 <= k < chunks(line).len() implies is_range_of(
        line,
        (#[trigger] chunks(line)[k]).0,
        chunks(line)[k].1,
    ) by {
        let c = chunks(line)[k];
        lemma_chunk_end(bytes, c.0);
        if c.0 > 0 {
            lemma_boundary_after_ascii(bytes, c.0 - 1);
        }
        if c.1 < bytes.len() {
            is_char_boundary_iff_not_is_continuation_byte(bytes, c.1);
        } else {
            is_char_boundary_start_end_of_seq(bytes);
        }
    }
}

/// The ranges of the chunks of a line.
pub fn chunk_ranges(line: &str) -> (r: Vec<(usize, usize)>)
    ensures
        as_ranges(r@) == chunks(line@),
{
    let bytes = line.as_bytes();
    let n = bytes.len();
    let mut r: Vec<(usize, usize)> = Vec::new();
    let mut i: usize = 0;
    while i < n
        invariant
            n == bytes@.len(),
            bytes@ == encode_utf8(line@),
            i <= n,
            i == 0 || i == n || is_space(bytes@[i - 1]) || is_space(bytes@[i as int]),
            chunks(line@) == as_ranges(r@) + chunks_from(bytes@, i as int),
        decreases n - i,
    {
        if is_space_byte(bytes[i]) {
            i += 1;
        } else {
            let start = i;
            i += 1;
            while i < n && !is_space_byte(bytes[i])
                invariant
                    n == bytes@.len(),
                    start < i <= n,
                    !is_space(bytes@[i - 1]),
                    chunk_end(bytes@, start as int) == chunk_end(bytes@, i as int),
                    chunks_from(bytes@, start + 1) == chunks_from(bytes@, i as int),
                decreases n - i,
            {
                i += 1;
            }
            proof {
                assert(i == chunk_end(bytes@, start as int));
                assert(as_ranges(r@.push((start, i))) =~= as_ranges(r@) + seq![
                    (start as int, i as int),
                ]);
            }
            r.push((start, i));
        }
    }
    r
}

/// Whether a byte is white space.
pub fn is_space_byte(b: u8) -> (r: bool)
    ensures
        r == is_space(b),
{
    b == 0x20 || b == 0x09 || b == 0x0a || b == 0x0c || b == 0x0d
}

} // verus!
