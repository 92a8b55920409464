//! Splitting text into lines, choosing which lines to keep, and joining the
//! kept lines back together with elision marks.
use vstd::prelude::*;
use crate::patterns::{line_is_pinned, pinned};
use crate::text::{
    all_whitespace, byte_len, chars_byte_len, is_blank, lemma_byte_len_concat,
    lemma_byte_len_single, push_char, push_chars,
};

verus! {

// ---------------------------------------------------------------------------
// Splitting
// ---------------------------------------------------------------------------

/// `s` split at every `'\n'` (`str::split('\n')`): always at least one line.
pub open spec fn split_lines(s: Seq<char>) -> Seq<Seq<char>>
    decreases s.len(),
{
    if s.len() == 0 {
        seq![Seq::<char>::empty()]
    } else {
        let prev = split_lines(s.drop_last());
        if s.last() == '\n' {
            prev.push(Seq::<char>::empty())
        } else {
            prev.update(prev.len() - 1, prev.last().push(s.last()))
        }
    }
}

/// There is always a line, and no line is longer in bytes than the text.
pub proof fn lemma_split_lines(s: Seq<char>)
    ensures
        split_lines(s).len() >= 1,
        forall|k: int|
            0 <= k < split_lines(s).len() ==> byte_len(#[trigger] split_lines(s)[k]) <= byte_len(s),
    decreases s.len(),
{
    if s.len() > 0 {
        let prev = split_lines(s.drop_last());
        lemma_split_lines(s.drop_last());
        if s.last() != '\n' {
            let l = prev.last();
            assert(l.push(s.last()) =~= l + seq![s.last()]);
            lemma_byte_len_concat(l, seq![s.last()]);
            lemma_byte_len_single(s.last());
        }
    }
}

/// The character sequences held by a vector of lines.
pub open spec fn lines_view(v: Seq<Vec<char>>) -> Seq<Seq<char>> {
    v.map_values(|l: Vec<char>| l@)
}

/// The lines of `s`.
pub fn split_lines_of(s: &[char]) -> (lines: Vec<Vec<char>>)
    ensures
        lines_view(lines@) == split_lines(s@),
{
    let mut done: Vec<Vec<char>> = Vec::new();
    let mut cur: Vec<char> = Vec::new();
    let mut i: usize = 0;
    proof {
        assert(s@.take(0) =~= Seq::<char>::empty());
        assert(lines_view(done@).push(cur@) =~= split_lines(s@.take(0)));
    }
    while i < s.len()
        invariant
            i <= s@.len(),
            lines_view(done@).push(cur@) == split_lines(s@.take(i as int)),
        decreases s@.len() - i,
    {
        let c = s[i];
        let ghost before = s@.take(i as int);
        proof {
            assert(s@.take(i + 1).drop_last() =~= before);
            assert(s@.take(i + 1).last() == c);
        }
        if c == '\n' {
            let line = cur;
            done.push(line);
            cur = Vec::new();
            assert(lines_view(done@).push(cur@) =~= split_lines(before).push(Seq::<char>::empty()));
        } else {
            let ghost prev = split_lines(before);
            cur.push(c);
            assert(lines_view(done@).push(cur@) =~= prev.update(prev.len() - 1, prev.last().push(c)));
        }
        i = i + 1;
    }
    done.push(cur);
    assert(s@.take(s@.len() as int) =~= s@);
    done
}

// ---------------------------------------------------------------------------
// Choosing lines
// ---------------------------------------------------------------------------

/// Bytes that keeping a line costs: the line and its newline.
pub open spec fn line_cost(l: Seq<char>) -> int {
    byte_len(l) as int + 1
}

/// Which lines are pinned.
pub open spec fn pinned_mask(lines: Seq<Seq<char>>) -> Seq<bool> {
    lines.map_values(|l: Seq<char>| pinned(l))
}

/// Bytes that the pinned lines cost together.
pub open spec fn pinned_cost(lines: Seq<Seq<char>>) -> int
    decreases lines.len(),
{
    if lines.len() == 0 {
        0
    } else {
        pinned_cost(lines.drop_last()) + if pinned(lines.last()) {
            line_cost(lines.last())
        } else {
            0
        }
    }
}

/// Line `j` is ranked for keeping: neither pinned nor blank.
pub open spec fn is_candidate(lines: Seq<Seq<char>>, j: int) -> bool {
    0 <= j < lines.len() && !pinned(lines[j]) && !all_whitespace(lines[j])
}

/// The lines kept and the bytes they cost, after walking `ranking` in order:
/// all pinned lines, then each ranked candidate not yet kept while the cost
/// so far is under `target`.
pub open spec fn select(lines: Seq<Seq<char>>, target: int, ranking: Seq<usize>) -> (Seq<bool>, int)
    decreases ranking.len(),
{
    if ranking.len() == 0 {
        (pinned_mask(lines), pinned_cost(lines))
    } else {
        let (keep, used) = select(lines, target, ranking.drop_last());
        let j = ranking.last() as int;
        if used < target && is_candidate(lines, j) && !keep[j] {
            (keep.update(j, true), used + line_cost(lines[j]))
        } else {
            (keep, used)
        }
    }
}

/// The selection keeps one flag per line, every pinned line is kept, and
/// every kept line is pinned or a candidate.
pub proof fn lemma_select(lines: Seq<Seq<char>>, target: int, ranking: Seq<usize>)
    ensures
        select(lines, target, ranking).0.len() == lines.len(),
        forall|i: int|
            0 <= i < lines.len() && pinned(lines[i]) ==> #[trigger] select(
                lines,
                target,
                ranking,
            ).0[i],
        forall|i: int|
            0 <= i < lines.len() && #[trigger] select(lines, target, ranking).0[i] ==> pinned(
                lines[i],
            ) || is_candidate(lines, i),
        select(lines, target, ranking).1 >= 0,
    decreases ranking.len(),
{
    if ranking.len() > 0 {
        lemma_select(lines, target, ranking.drop_last());
    } else {
        lemma_pinned_cost_nonneg(lines);
    }
}

proof fn lemma_pinned_cost_nonneg(lines: Seq<Seq<char>>)
    ensures
        pinned_cost(lines) >= 0,
    decreases lines.len(),
{
    if lines.len() > 0 {
        lemma_pinned_cost_nonneg(lines.drop_last());
    }
}

/// `min(x, usize::MAX)`: what a saturating `usize` sum holds.
pub open spec fn saturate(x: int) -> int {
    if x > usize::MAX {
        usize::MAX as int
    } else {
        x
    }
}

/// Which lines to keep under `target` bytes, given the candidates' order.
pub fn select_lines(lines: &Vec<Vec<char>>, target: usize, ranking: &[usize]) -> (keep: Vec<bool>)
    requires
        forall|k: int| 0 <= k < lines@.len() ==> byte_len(#[trigger] lines@[k]@) <= usize::MAX,
    ensures
        keep@ == select(lines_view(lines@), target as int, ranking@).0,
{
    let ghost ls = lines_view(lines@);
    let n = lines.len();
    let mut keep: Vec<bool> = Vec::new();
    let mut candidate: Vec<bool> = Vec::new();
    let mut cost: Vec<usize> = Vec::new();
    let mut used: usize = 0;
    let mut i: usize = 0;
    while i < n
        invariant
            n == lines@.len(),
            ls == lines_view(lines@),
            i <= n,
            forall|k: int| 0 <= k < lines@.len() ==> byte_len(#[trigger] lines@[k]@) <= usize::MAX,
            keep@ == pinned_mask(ls.take(i as int)),
            candidate.len() == i,
            cost.len() == i,
            forall|k: int|
                0 <= k < i ==> #[trigger] candidate@[k] == (!pinned(ls[k]) && !all_whitespace(ls[k])),
            forall|k: int| 0 <= k < i ==> #[trigger] cost@[k] == saturate(line_cost(ls[k])),
            used == saturate(pinned_cost(ls.take(i as int))),
        decreases n - i,
    {
        let line = lines[i].as_slice();
        let p = line_is_pinned(line);
        let b = is_blank(line);
        let c = chars_byte_len(line).saturating_add(1);
        proof {
            assert(ls.take(i + 1).drop_last() =~= ls.take(i as int));
            assert(ls.take(i + 1).last() == ls[i as int]);
            assert(ls[i as int] == lines@[i as int]@);
            lemma_pinned_cost_nonneg(ls.take(i as int));
        }
        if p {
            used = used.saturating_add(c);
        }
        keep.push(p);
        candidate.push(!p && !b);
        cost.push(c);
        proof {
            assert(pinned_mask(ls.take(i + 1)) =~= pinned_mask(ls.take(i as int)).push(pinned(ls[i as int])));
        }
        i = i + 1;
    }
    assert(ls.take(n as int) =~= ls);
    let mut r: usize = 0;
    while r < ranking.len()
        invariant
            n == lines@.len(),
            ls == lines_view(lines@),
            ls.len() == n,
            r <= ranking@.len(),
            candidate.len() == n,
            cost.len() == n,
            forall|k: int|
                0 <= k < n ==> #[trigger] candidate@[k] == (!pinned(ls[k]) && !all_whitespace(ls[k])),
            forall|k: int| 0 <= k < n ==> #[trigger] cost@[k] == saturate(line_cost(ls[k])),
            keep@ == select(ls, target as int, ranking@.take(r as int)).0,
            used == saturate(select(ls, target as int, ranking@.take(r as int)).1),
        decreases ranking@.len() - r,
    {
        proof {
            assert(ranking@.take(r + 1).drop_last() =~= ranking@.take(r as int));
            assert(ranking@.take(r + 1).last() == ranking@[r as int]);
            lemma_select(ls, target as int, ranking@.take(r as int));
        }
        let j = ranking[r];
        if used < target && j < n && candidate[j] && !keep[j] {
            keep.set(j, true);
            used = used.saturating_add(cost[j]);
        }
        r = r + 1;
    }
    assert(ranking@.take(ranking@.len() as int) =~= ranking@);
    keep
}

// ---------------------------------------------------------------------------
// Joining
// ---------------------------------------------------------------------------

/// The elision mark `…`.
pub open spec fn ellipsis() -> Seq<char> {
    seq!['\u{2026}']
}

/// The last kept line before line `i`, if any.
pub open spec fn last_kept_before(keep: Seq<bool>, i: int) -> Option<int>
    decreases i,
{
    if i <= 0 {
        None
    } else if keep[i - 1] {
        Some(i - 1)
    } else {
        last_kept_before(keep, i - 1)
    }
}

/// Lines were dropped right before line `i` (also before the first kept line).
pub open spec fn gap_before(keep: Seq<bool>, i: int) -> bool {
    match last_kept_before(keep, i) {
        None => i > 0,
        Some(p) => i > p + 1,
    }
}

/// The output pieces for the first `i` lines: each kept line, preceded by an
/// elision mark where lines were dropped before it.
pub open spec fn parts_upto(lines: Seq<Seq<char>>, keep: Seq<bool>, i: int) -> Seq<Seq<char>>
    decreases i,
{
    if i <= 0 {
        Seq::empty()
    } else {
        let prev = parts_upto(lines, keep, i - 1);
        if !keep[i - 1] {
            prev
        } else if gap_before(keep, i - 1) {
            prev.push(ellipsis()).push(lines[i - 1])
        } else {
            prev.push(lines[i - 1])
        }
    }
}

/// The output pieces for all lines, with a closing elision mark when the last
/// line was dropped (or no line was kept).
pub open spec fn assemble(lines: Seq<Seq<char>>, keep: Seq<bool>) -> Seq<Seq<char>> {
    let n = lines.len() as int;
    let parts = parts_upto(lines, keep, n);
    match last_kept_before(keep, n) {
        None => parts.push(ellipsis()),
        Some(p) => if p + 1 < n {
            parts.push(ellipsis())
        } else {
            parts
        },
    }
}

/// The pieces joined by `'\n'`.
pub open spec fn join_lines(parts: Seq<Seq<char>>) -> Seq<char>
    decreases parts.len(),
{
    if parts.len() == 0 {
        Seq::empty()
    } else if parts.len() == 1 {
        parts[0]
    } else {
        join_lines(parts.drop_last()) + seq!['\n'] + parts.last()
    }
}

/// Adds one more piece to a join.
pub proof fn lemma_join_push(parts: Seq<Seq<char>>, x: Seq<char>)
    ensures
        join_lines(parts.push(x)) == if parts.len() == 0 {
            x
        } else {
            join_lines(parts) + seq!['\n'] + x
        },
{
    assert(parts.push(x).drop_last() =~= parts);
    if parts.len() == 0 {
        assert(parts.push(x)[0] == x);
    }
}

/// Appends the piece `part` to `out`; `empty` tells whether `out` joins no
/// pieces yet.
fn append_part(out: &mut String, empty: bool, part: &[char])
    ensures
        final(out)@ == if empty {
            old(out)@ + part@
        } else {
            old(out)@.push('\n') + part@
        },
{
    if !empty {
        push_char(out, '\n');
    }
    push_chars(out, part);
}

/// The kept lines joined by `'\n'`, with `…` where lines were dropped.
pub fn assemble_kept(lines: &Vec<Vec<char>>, keep: &Vec<bool>) -> (out: String)
    requires
        keep@.len() == lines@.len(),
    ensures
        out@ == join_lines(assemble(lines_view(lines@), keep@)),
{
    let ghost ls = lines_view(lines@);
    let n = lines.len();
    let mark: [char; 1] = ['\u{2026}'];
    assert(mark@ == ellipsis());
    let mut out = String::new();
    let mut empty = true;
    let mut previous: Option<usize> = None;
    let mut i: usize = 0;
    while i < n
        invariant
            n == lines@.len(),
            keep@.len() == n,
            ls == lines_view(lines@),
            i <= n,
            mark@ == ellipsis(),
            empty == (parts_upto(ls, keep@, i as int).len() == 0),
            out@ == join_lines(parts_upto(ls, keep@, i as int)),
            previous matches Some(p) ==> last_kept_before(keep@, i as int) == Some(p as int),
            previous is None ==> last_kept_before(keep@, i as int) is None,
        decreases n - i,
    {
        let ghost prev_parts = parts_upto(ls, keep@, i as int);
        if keep[i] {
            let gap = match previous {
                None => i > 0,
                Some(p) => i - 1 > p,
            };
            if gap {
                proof {
                    lemma_join_push(prev_parts, ellipsis());
                }
                append_part(&mut out, empty, mark.as_slice());
                proof {
                    lemma_join_push(prev_parts.push(ellipsis()), ls[i as int]);
                }
                append_part(&mut out, false, lines[i].as_slice());
                empty = false;
            } else {
                proof {
                    lemma_join_push(prev_parts, ls[i as int]);
                }
                append_part(&mut out, empty, lines[i].as_slice());
                empty = false;
            }
            previous = Some(i);
        }
        i = i + 1;
    }
    let tail = match previous {
        None => true,
        Some(p) => p < n - 1,
    };
    if tail {
        proof {
            lemma_join_push(parts_upto(ls, keep@, n as int), ellipsis());
        }
        append_part(&mut out, empty, mark.as_slice());
    }
    out
}

} // verus!
