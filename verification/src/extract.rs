//! Extractive compression of one text: character-boundary cuts, the
//! `[[CMP]]` block, head-and-tail truncation, and the line extraction itself.
use vstd::prelude::*;
use crate::lines::{
    assemble, assemble_kept, join_lines, lemma_select, lemma_split_lines, lines_view, select,
    saturate, select_lines, split_lines, split_lines_of,
};
use crate::patterns::{line_is_pinned, pinned};
use crate::text::{
    Class, all_whitespace, byte_len, is_blank, char_width_of, in_class, lemma_byte_len_take_mono, lemma_byte_len_take_step,
    lemma_run_end, push_char, push_chars, run_end, scan_run, str_byte_len, string_of,
    text_chars,
};

verus! {

// ---------------------------------------------------------------------------
// Character boundaries
// ---------------------------------------------------------------------------

/// The most characters of `s`, from the `k`-th on, whose encoding fits in
/// `budget` bytes.
pub open spec fn fit_prefix(s: Seq<char>, k: int, budget: int) -> int
    decreases s.len() - k,
{
    if k < 0 || k >= s.len() || byte_len(s.take(k + 1)) > budget {
        k
    } else {
        fit_prefix(s, k + 1, budget)
    }
}

/// The fewest characters of `s`, from the `k`-th on, whose encoding takes at
/// least `need` bytes (all of them when there are too few).
pub open spec fn reach_prefix(s: Seq<char>, k: int, need: int) -> int
    decreases s.len() - k,
{
    if k < 0 || k >= s.len() || byte_len(s.take(k)) >= need {
        k
    } else {
        reach_prefix(s, k + 1, need)
    }
}

pub proof fn lemma_fit_prefix(s: Seq<char>, k: int, budget: int)
    requires
        0 <= k <= s.len(),
        byte_len(s.take(k)) <= budget,
    ensures
        k <= fit_prefix(s, k, budget) <= s.len(),
        byte_len(s.take(fit_prefix(s, k, budget))) <= budget,
        fit_prefix(s, k, budget) < s.len() ==> byte_len(s.take(fit_prefix(s, k, budget) + 1))
            > budget,
    decreases s.len() - k,
{
    if k < s.len() && byte_len(s.take(k + 1)) <= budget {
        lemma_fit_prefix(s, k + 1, budget);
    }
}

pub proof fn lemma_reach_prefix(s: Seq<char>, k: int, need: int)
    requires
        0 <= k <= s.len(),
    ensures
        k <= reach_prefix(s, k, need) <= s.len(),
        reach_prefix(s, k, need) < s.len() ==> byte_len(s.take(reach_prefix(s, k, need))) >= need,
        forall|m: int| k <= m < reach_prefix(s, k, need) ==> byte_len(#[trigger] s.take(m)) < need,
    decreases s.len() - k,
{
    if k < s.len() && byte_len(s.take(k)) < need {
        lemma_reach_prefix(s, k + 1, need);
    }
}

/// The largest character boundary at or below byte `index`, given as the
/// number of characters before it: that prefix fits in `index` bytes and one
/// more character would not.
pub fn floor_char_boundary(s: &[char], index: usize) -> (k: usize)
    requires
        byte_len(s@) <= usize::MAX,
    ensures
        k == fit_prefix(s@, 0, index as int),
        k <= s@.len(),
        byte_len(s@.take(k as int)) <= index,
        k < s@.len() ==> byte_len(s@.take(k + 1)) > index,
{
    proof {
        assert(s@.take(0) =~= Seq::<char>::empty());
        lemma_fit_prefix(s@, 0, index as int);
    }
    let mut k: usize = 0;
    let mut bytes: usize = 0;
    while k < s.len()
        invariant
            k <= s@.len(),
            bytes == byte_len(s@.take(k as int)),
            bytes <= index,
            byte_len(s@) <= usize::MAX,
            fit_prefix(s@, 0, index as int) == fit_prefix(s@, k as int, index as int),
        decreases s@.len() - k,
    {
        proof {
            lemma_byte_len_take_step(s@, k as int);
            lemma_byte_len_take_mono(s@, k + 1, s@.len() as int);
            assert(s@.take(s@.len() as int) =~= s@);
        }
        let w = char_width_of(s[k]);
        if w > index - bytes {
            return k;
        }
        bytes = bytes + w;
        k = k + 1;
    }
    k
}

/// The smallest character boundary at or above byte `index` (or the end),
/// given as the number of characters before it.
pub fn ceil_char_boundary(s: &[char], index: usize) -> (k: usize)
    requires
        byte_len(s@) <= usize::MAX,
    ensures
        k == reach_prefix(s@, 0, index as int),
        k <= s@.len(),
        k < s@.len() ==> byte_len(s@.take(k as int)) >= index,
        forall|m: int| 0 <= m < k ==> byte_len(#[trigger] s@.take(m)) < index,
{
    proof {
        lemma_reach_prefix(s@, 0, index as int);
    }
    let mut k: usize = 0;
    let mut bytes: usize = 0;
    proof {
        assert(s@.take(0) =~= Seq::<char>::empty());
    }
    while k < s.len() && bytes < index
        invariant
            k <= s@.len(),
            bytes == byte_len(s@.take(k as int)),
            byte_len(s@) <= usize::MAX,
            reach_prefix(s@, 0, index as int) == reach_prefix(s@, k as int, index as int),
        decreases s@.len() - k,
    {
        proof {
            lemma_byte_len_take_step(s@, k as int);
            lemma_byte_len_take_mono(s@, k + 1, s@.len() as int);
            assert(s@.take(s@.len() as int) =~= s@);
        }
        bytes = bytes + char_width_of(s[k]);
        k = k + 1;
    }
    k
}

// ---------------------------------------------------------------------------
// The [[CMP]] block
// ---------------------------------------------------------------------------

/// The opening marker of a compressed region.
pub open spec fn open_marker() -> Seq<char> {
    "[[CMP]]"@
}

/// The closing marker of a compressed region.
pub open spec fn close_marker() -> Seq<char> {
    "[[/CMP]]"@
}

/// Where the trailing run of `'\n'` before index `j` begins.
pub open spec fn trailing_newlines_start(s: Seq<char>, j: int) -> int
    decreases j,
{
    if j > 0 && j <= s.len() && s[j - 1] == '\n' {
        trailing_newlines_start(s, j - 1)
    } else {
        j
    }
}

/// `s` without leading and trailing `'\n'` (`trim_matches('\n')`).
pub open spec fn trim_newlines(s: Seq<char>) -> Seq<char> {
    let a = run_end(s, 0, Class::Only('\n'));
    if a >= s.len() {
        Seq::empty()
    } else {
        s.subrange(a, trailing_newlines_start(s, s.len() as int))
    }
}

/// `inner`, trimmed of newlines, between the markers; on lines of its own
/// unless it is empty.
pub open spec fn wrapped_block(inner: Seq<char>) -> Seq<char> {
    let t = trim_newlines(inner);
    if t.len() == 0 {
        open_marker() + close_marker()
    } else {
        open_marker() + seq!['\n'] + t + seq!['\n'] + close_marker()
    }
}

/// Where `s` starts and ends once leading and trailing `'\n'` are dropped;
/// `None` when nothing is left.
fn newline_trim_bounds(s: &[char]) -> (r: Option<(usize, usize)>)
    ensures
        r is None ==> trim_newlines(s@).len() == 0,
        r matches Some((a, b)) ==> a < b <= s@.len() && trim_newlines(s@) == s@.subrange(
            a as int,
            b as int,
        ),
{
    let a = scan_run(s, 0, Class::Only('\n'));
    if a >= s.len() {
        return None;
    }
    proof {
        lemma_run_end(s@, 0, Class::Only('\n'));
        assert(!in_class(s@[a as int], Class::Only('\n')));
    }
    let mut b = s.len();
    while b > 0 && s[b - 1] == '\n'
        invariant
            a < b <= s@.len(),
            s@[a as int] != '\n',
            trailing_newlines_start(s@, s@.len() as int) == trailing_newlines_start(s@, b as int),
        decreases b,
    {
        b = b - 1;
    }
    Some((a, b))
}

/// `inner` wrapped in `[[CMP]]` … `[[/CMP]]`.
pub fn cmp_block(inner: &str) -> (out: String)
    ensures
        out@ == wrapped_block(inner@),
{
    let s = text_chars(inner);
    let open = text_chars("[[CMP]]");
    let close = text_chars("[[/CMP]]");
    let mut out = string_of(&open);
    match newline_trim_bounds(&s) {
        None => {
            push_chars(&mut out, &close);
        },
        Some((a, b)) => {
            let t = vstd::slice::slice_subrange(s.as_slice(), a, b);
            push_char(&mut out, '\n');
            push_chars(&mut out, t);
            push_char(&mut out, '\n');
            push_chars(&mut out, &close);
        },
    }
    out
}

/// The markers around nothing: `[[CMP]][[/CMP]]`.
fn empty_block() -> (out: Vec<char>)
    ensures
        out@ == wrapped_block(Seq::empty()),
{
    proof {
        reveal_strlit("");
        assert(""@ =~= Seq::<char>::empty());
    }
    text_chars(cmp_block("").as_str())
}

// ---------------------------------------------------------------------------
// Head-and-tail truncation
// ---------------------------------------------------------------------------

/// The first `head` bytes and the last `tail` bytes of `s` (cut at character
/// boundaries, inward), around an empty `[[CMP]][[/CMP]]` block; `s` itself
/// when it is at most 80 bytes longer than `head + tail`.
pub open spec fn truncated(s: Seq<char>, head: int, tail: int) -> Seq<char> {
    let n = byte_len(s) as int;
    if n <= saturate(saturate(head + tail) + 80) {
        s
    } else {
        let h = fit_prefix(s, 0, head);
        let t = reach_prefix(s, 0, n - tail);
        s.take(h) + seq!['\n'] + wrapped_block(Seq::empty()) + seq!['\n'] + s.skip(t)
    }
}

/// Keeps the head and tail of `value` with an empty `[[CMP]]` block between.
pub fn truncate_text(value: &str, head: usize, tail: usize) -> (out: String)
    ensures
        out@ == truncated(value@, head as int, tail as int),
{
    let n = str_byte_len(value);
    if n <= head.saturating_add(tail).saturating_add(80) {
        return string_of(&text_chars(value));
    }
    let s = text_chars(value);
    let h = floor_char_boundary(&s, head);
    let t = ceil_char_boundary(&s, n - tail);
    let block = empty_block();
    let mut out = string_of(vstd::slice::slice_subrange(s.as_slice(), 0, h));
    push_char(&mut out, '\n');
    push_chars(&mut out, &block);
    push_char(&mut out, '\n');
    push_chars(&mut out, vstd::slice::slice_subrange(s.as_slice(), t, s.len()));
    out
}

// ---------------------------------------------------------------------------
// Extraction
// ---------------------------------------------------------------------------

/// The lines that `select` keeps for `s` under `target` bytes.
pub open spec fn kept_lines(s: Seq<char>, target: int, ranking: Seq<usize>) -> Seq<bool> {
    select(split_lines(s), target, ranking).0
}

/// Every line of `s` is kept.
pub open spec fn keeps_every_line(s: Seq<char>, target: int, ranking: Seq<usize>) -> bool {
    forall|i: int|
        0 <= i < split_lines(s).len() ==> #[trigger] kept_lines(s, target, ranking)[i]
}

/// The kept lines of `s`, joined, with `…` where lines were dropped.
pub open spec fn extracted_text(s: Seq<char>, target: int, ranking: Seq<usize>) -> Seq<char> {
    join_lines(assemble(split_lines(s), kept_lines(s, target, ranking)))
}

/// Every line of `s` is blank or pinned: the content is all load-bearing.
pub open spec fn all_load_bearing(s: Seq<char>) -> bool {
    let ls = split_lines(s);
    forall|i: int| 0 <= i < ls.len() ==> all_whitespace(#[trigger] ls[i]) || pinned(ls[i])
}

/// What extraction makes of `s` under `target` bytes, and whether it changed
/// anything. `s` is left alone when it fits, when it is all load-bearing,
/// when every line is kept, or when the kept lines with their marks would
/// not be shorter than `s`; otherwise the result is the kept lines.
pub open spec fn extraction(s: Seq<char>, target: int, ranking: Seq<usize>) -> (Seq<char>, bool) {
    if byte_len(s) <= target {
        (s, false)
    } else if all_load_bearing(s) {
        (s, false)
    } else if keeps_every_line(s, target, ranking) {
        (s, false)
    } else if byte_len(extracted_text(s, target, ranking)) >= byte_len(s) {
        (s, false)
    } else {
        (extracted_text(s, target, ranking), true)
    }
}

/// Whether every line is blank or pinned.
fn every_line_load_bearing(lines: &Vec<Vec<char>>) -> (r: bool)
    ensures
        r == forall|i: int|
            0 <= i < lines@.len() ==> all_whitespace(#[trigger] lines@[i]@) || pinned(lines@[i]@),
{
    let mut i: usize = 0;
    while i < lines.len()
        invariant
            i <= lines@.len(),
            forall|m: int| 0 <= m < i ==> all_whitespace(#[trigger] lines@[m]@) || pinned(lines@[m]@),
        decreases lines@.len() - i,
    {
        let line = lines[i].as_slice();
        if !is_blank(line) && !line_is_pinned(line) {
            return false;
        }
        i = i + 1;
    }
    true
}

/// Whether every flag is set.
fn all_set(flags: &Vec<bool>) -> (r: bool)
    ensures
        r == forall|i: int| 0 <= i < flags@.len() ==> #[trigger] flags@[i],
{
    let mut i: usize = 0;
    while i < flags.len()
        invariant
            i <= flags@.len(),
            forall|m: int| 0 <= m < i ==> #[trigger] flags@[m],
        decreases flags@.len() - i,
    {
        if !flags[i] {
            return false;
        }
        i = i + 1;
    }
    true
}

/// Keeps the pinned lines of `text` and, in the order `ranking` gives, other
/// non-blank lines while under `target` bytes; drops the rest and marks each
/// gap with `…`. The second result tells whether the text changed: when
/// unsure (all load-bearing, or nothing gained), `text` comes back unchanged.
pub fn extractive_compress(text: &str, target: usize, ranking: &[usize]) -> (r: (String, bool))
    ensures
        (r.0@, r.1) == extraction(text@, target as int, ranking@),
{
    let n = str_byte_len(text);
    if n <= target {
        return (string_of(&text_chars(text)), false);
    }
    let chars = text_chars(text);
    let lines = split_lines_of(&chars);
    proof {
        lemma_split_lines(chars@);
        assert forall|k: int| 0 <= k < lines@.len() implies byte_len(#[trigger] lines@[k]@)
            <= usize::MAX by {
            assert(lines_view(lines@)[k] == lines@[k]@);
        }
        lemma_select(split_lines(text@), target as int, ranking@);
    }
    let all_load = every_line_load_bearing(&lines);
    proof {
        let ls = split_lines(text@);
        assert forall|k: int| 0 <= k < lines@.len() implies #[trigger] ls[k] == lines@[k]@ by {
            assert(lines_view(lines@)[k] == lines@[k]@);
        }
        if all_load {
            assert forall|k: int| 0 <= k < ls.len() implies all_whitespace(#[trigger] ls[k])
                || pinned(ls[k]) by {
                assert(ls[k] == lines@[k]@);
            }
        } else {
            let k = choose|k: int|
                0 <= k < lines@.len() && !(all_whitespace(#[trigger] lines@[k]@) || pinned(
                    lines@[k]@,
                ));
            assert(ls[k] == lines@[k]@);
        }
    }
    if all_load {
        return (string_of(&chars), false);
    }
    let keep = select_lines(&lines, target, ranking);
    if all_set(&keep) {
        return (string_of(&chars), false);
    }
    let result = assemble_kept(&lines, &keep);
    if str_byte_len(result.as_str()) >= n {
        return (string_of(&chars), false);
    }
    (result, true)
}

} // verus!
