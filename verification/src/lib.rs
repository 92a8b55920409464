//! Extractive compression for oversized tool results.
//!
//! Texts at or below 16 000 bytes pass through; larger ones keep a
//! proportional share of their bytes (60%, at least 16 000, at most 32 000).
//! Load-bearing lines are always kept; other non-blank lines are kept in the
//! order a ranking gives them until the share is spent; dropped runs of lines
//! are marked with `…`, and the result is wrapped in `[[CMP]]` … `[[/CMP]]`.
//! Content that is all load-bearing is left alone, as is a text that
//! extraction would not shorten. A result is returned only when it is
//! strictly smaller than the input.
use vstd::prelude::*;

pub mod text;
pub mod patterns;
pub mod lines;
pub mod extract;
pub mod tokens;
pub mod terms;
pub mod laws;
pub mod detection;

use crate::extract::{cmp_block, extraction, extractive_compress, wrapped_block, open_marker};
use crate::lines::{is_candidate, lines_view, split_lines, split_lines_of};
use crate::patterns::line_is_pinned;
use crate::text::{
    byte_len, contains, contains_chars, is_blank, str_byte_len, string_of, text_chars,
};

verus! {

/// Texts of at most this many bytes are never compressed.
pub const MIN_PASSTHROUGH_CHARS: usize = 16000;

/// The most bytes that a compressed text aims to keep.
pub const MAX_KEEP_CHARS: usize = 32000;

/// 60% of `length`, rounded down, kept between the two limits.
pub open spec fn keep_share(length: int) -> int {
    let p = length * 3 / 5;
    if p < MIN_PASSTHROUGH_CHARS {
        MIN_PASSTHROUGH_CHARS as int
    } else if p > MAX_KEEP_CHARS {
        MAX_KEEP_CHARS as int
    } else {
        p
    }
}

/// The byte budget for a text of `length` bytes: 60% of it, at least
/// 16 000 and at most 32 000.
pub fn proportional_cap(length: usize) -> (cap: usize)
    ensures
        cap == keep_share(length as int),
{
    let q = length / 5;
    let r = length % 5;
    assert(q * 3 + r * 3 / 5 == length * 3 / 5) by (nonlinear_arith)
        requires
            q == length / 5,
            r == length % 5,
    ;
    let p = if q > (usize::MAX - 3) / 3 {
        usize::MAX
    } else {
        q * 3 + r * 3 / 5
    };
    if p < MIN_PASSTHROUGH_CHARS {
        MIN_PASSTHROUGH_CHARS
    } else if p > MAX_KEEP_CHARS {
        MAX_KEEP_CHARS
    } else {
        p
    }
}

/// The byte budget for the lines inside the markers: the share less the
/// markers and their two newlines, and never under 256.
pub open spec fn inner_budget(length: int) -> int {
    let c = keep_share(length) - ("[[CMP]]"@.len() + "[[/CMP]]"@.len() + 2);
    if c < 256 {
        256
    } else {
        c
    }
}

/// What `compress` returns for `s` when candidate lines are taken in the
/// order `ranking` gives.
pub open spec fn compressed(s: Seq<char>, ranking: Seq<usize>) -> Option<Seq<char>> {
    if byte_len(s) <= MIN_PASSTHROUGH_CHARS || contains(s, open_marker()) {
        None
    } else {
        let (inner, changed) = extraction(s, inner_budget(byte_len(s) as int), ranking);
        let w = wrapped_block(inner);
        if changed && byte_len(w) < byte_len(s) {
            Some(w)
        } else {
            None
        }
    }
}

/// Compresses an oversized text, or returns `None` when it should pass
/// through unchanged.
///
/// `ranking` lists line indices (0-based, lines split at `'\n'`) in the order
/// in which lines that are neither pinned nor blank should be kept: most
/// informative first. Entries that name no such line, or repeat one, are
/// skipped; lines it does not list are dropped. `scoring_candidates` lists
/// those lines and `terms::term_statistics` counts their tokens; weighing
/// them into a ranking is left to the caller.
#[must_use]
pub fn compress(text: &str, ranking: &[usize]) -> (out: Option<String>)
    ensures
        out matches Some(o) ==> compressed(text@, ranking@) == Some(o@),
        out is None ==> compressed(text@, ranking@) is None,
{
    let n = str_byte_len(text);
    if n <= MIN_PASSTHROUGH_CHARS {
        return None;
    }
    let chars = text_chars(text);
    let open = text_chars("[[CMP]]");
    if contains_chars(&chars, &open) {
        return None;
    }
    let close = text_chars("[[/CMP]]");
    proof {
        reveal_strlit("[[CMP]]");
        reveal_strlit("[[/CMP]]");
    }
    let cap = proportional_cap(n);
    let reserved = open.len() + close.len() + 2;
    let inner_cap = if cap.saturating_sub(reserved) < 256 {
        256
    } else {
        cap - reserved
    };
    let (inner, changed) = extractive_compress(text, inner_cap, ranking);
    if !changed {
        return None;
    }
    let wrapped = cmp_block(inner.as_str());
    if str_byte_len(wrapped.as_str()) < n {
        Some(wrapped)
    } else {
        None
    }
}

/// The lines of `s` that extraction ranks, with their indices, in order.
pub open spec fn candidates(lines: Seq<Seq<char>>, upto: int) -> Seq<(int, Seq<char>)>
    decreases upto,
{
    if upto <= 0 {
        Seq::empty()
    } else if is_candidate(lines, upto - 1) {
        candidates(lines, upto - 1).push((upto - 1, lines[upto - 1]))
    } else {
        candidates(lines, upto - 1)
    }
}

/// The lines of `text` that `compress` ranks (neither pinned nor blank), each
/// with its line index, in order: a ranking of these indices is what
/// `compress` takes.
pub fn scoring_candidates(text: &str) -> (out: Vec<(usize, String)>)
    ensures
        out@.len() == candidates(split_lines(text@), split_lines(text@).len() as int).len(),
        forall|k: int|
            0 <= k < out@.len() ==> {
                let c = candidates(split_lines(text@), split_lines(text@).len() as int)[k];
                &&& (#[trigger] out@[k]).0 as int == c.0
                &&& out@[k].1@ == c.1
            },
{
    let chars = text_chars(text);
    let lines = split_lines_of(&chars);
    let ghost ls = split_lines(text@);
    let mut out: Vec<(usize, String)> = Vec::new();
    let mut i: usize = 0;
    while i < lines.len()
        invariant
            ls == lines_view(lines@),
            i <= lines@.len(),
            out@.len() == candidates(ls, i as int).len(),
            forall|k: int|
                0 <= k < out@.len() ==> {
                    let c = candidates(ls, i as int)[k];
                    &&& (#[trigger] out@[k]).0 as int == c.0
                    &&& out@[k].1@ == c.1
                },
        decreases lines@.len() - i,
    {
        let line = lines[i].as_slice();
        proof {
            assert(ls[i as int] == lines@[i as int]@);
        }
        if !line_is_pinned(line) && !is_blank(line) {
            out.push((i, string_of(line)));
        }
        i = i + 1;
    }
    out
}

} // verus!
