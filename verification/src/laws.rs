//! Properties of compression that hold for every input.
use vstd::prelude::*;
use crate::extract::{
    all_load_bearing, close_marker, extracted_text, extraction, fit_prefix, keeps_every_line,
    kept_lines,
    lemma_fit_prefix, lemma_reach_prefix, open_marker, reach_prefix, trailing_newlines_start,
    trim_newlines, truncated, wrapped_block,
};
use crate::lines::{
    assemble, ellipsis, is_candidate, join_lines, last_kept_before, lemma_select, line_cost,
    parts_upto, pinned_cost, pinned_mask, select, split_lines,
};
use crate::patterns::{bounded_word_at, has_bounded_word, pinned, test_line_pattern};
use crate::text::{
    Class, all_whitespace, ascii_lower, byte_len, is_ascii_alpha, contains, in_class, is_word, trim_start, unicode_white_space, lemma_byte_len_bounds,
    lemma_byte_len_concat, lemma_byte_len_single, lemma_byte_len_split, lemma_run_end, occurs_at,
    run_end,
};
use crate::terms::{documents_with, lex_lt, line_tokens};
use crate::tokens::{lowercase, word_runs};
use crate::{candidates, compressed, inner_budget, keep_share};

verus! {

/// Texts of at most 16 000 bytes pass through: `compress` returns `None`.
pub proof fn law_small_texts_pass_through(s: Seq<char>, ranking: Seq<usize>)
    requires
        byte_len(s) <= 16000,
    ensures
        compressed(s, ranking) is None,
{
}

/// Texts that already hold `[[CMP]]` pass through: `compress` returns `None`.
pub proof fn law_marked_texts_pass_through(s: Seq<char>, ranking: Seq<usize>)
    requires
        contains(s, open_marker()),
    ensures
        compressed(s, ranking) is None,
{
}

/// Compression never inflates: a result is strictly smaller, in bytes, than
/// the input.
pub proof fn law_never_inflates(s: Seq<char>, ranking: Seq<usize>)
    ensures
        compressed(s, ranking) matches Some(o) ==> byte_len(o) < byte_len(s),
{
}

/// A result begins with `[[CMP]]` and ends with `[[/CMP]]`.
pub proof fn law_result_is_marked(s: Seq<char>, ranking: Seq<usize>)
    ensures
        compressed(s, ranking) matches Some(o) ==> occurs_at(o, open_marker(), 0) && occurs_at(
            o,
            close_marker(),
            o.len() - close_marker().len(),
        ),
{
    if let Some(o) = compressed(s, ranking) {
        lemma_wrapped_block_markers(extraction(
            s,
            crate::inner_budget(byte_len(s) as int),
            ranking,
        ).0);
    }
}

proof fn lemma_wrapped_block_markers(inner: Seq<char>)
    ensures
        occurs_at(wrapped_block(inner), open_marker(), 0),
        occurs_at(
            wrapped_block(inner),
            close_marker(),
            wrapped_block(inner).len() - close_marker().len(),
        ),
{
    let w = wrapped_block(inner);
    let t = trim_newlines(inner);
    let o = open_marker();
    let c = close_marker();
    if t.len() == 0 {
        assert(w.subrange(0, o.len() as int) =~= o);
        assert(w.subrange(w.len() - c.len(), w.len() as int) =~= c);
    } else {
        assert(w.subrange(0, o.len() as int) =~= o);
        assert(w.subrange(w.len() - c.len(), w.len() as int) =~= c);
    }
}

/// Compression is idempotent: compressing a result again gives `None`,
/// whatever ranking is used the second time.
pub proof fn law_idempotent(s: Seq<char>, ranking: Seq<usize>, again: Seq<usize>)
    ensures
        compressed(s, ranking) matches Some(o) ==> compressed(o, again) is None,
{
    law_result_is_marked(s, ranking);
}

/// When `s` neither begins nor ends with a newline, trimming newlines keeps it.
proof fn lemma_trim_newlines_noop(s: Seq<char>)
    requires
        s.len() > 0,
        s[0] != '\n',
        s[s.len() - 1] != '\n',
    ensures
        trim_newlines(s) == s,
{
    assert(run_end(s, 0, Class::Only('\n')) == 0);
    assert(trailing_newlines_start(s, s.len() as int) == s.len());
    assert(s.subrange(0, s.len() as int) =~= s);
}

/// Content that is all load-bearing is left alone: when every line of `s` is
/// blank or pinned, `compress` returns `None`.
pub proof fn law_all_load_bearing_passes_through(s: Seq<char>, ranking: Seq<usize>)
    requires
        all_load_bearing(s),
    ensures
        compressed(s, ranking) is None,
{
}

/// When unsure, `compress` does not compress: a result comes only from
/// extraction that changed the text, and is its kept lines in the block.
pub proof fn law_result_is_the_extract(s: Seq<char>, ranking: Seq<usize>)
    ensures
        compressed(s, ranking) matches Some(o) ==> {
            let target = inner_budget(byte_len(s) as int);
            &&& !all_load_bearing(s)
            &&& !keeps_every_line(s, target, ranking)
            &&& byte_len(extracted_text(s, target, ranking)) < byte_len(s)
            &&& o == wrapped_block(extracted_text(s, target, ranking))
        },
{
}

// ---------------------------------------------------------------------------
// Extraction keeps load-bearing lines and marks what it drops
// ---------------------------------------------------------------------------

/// The pieces for fewer lines are a prefix of the pieces for more lines.
proof fn lemma_parts_prefix(lines: Seq<Seq<char>>, keep: Seq<bool>, j: int, k: int)
    requires
        0 <= j <= k,
    ensures
        parts_upto(lines, keep, j).len() <= parts_upto(lines, keep, k).len(),
        parts_upto(lines, keep, k).subrange(0, parts_upto(lines, keep, j).len() as int)
            == parts_upto(lines, keep, j),
    decreases k - j,
{
    if j < k {
        lemma_parts_prefix(lines, keep, j, k - 1);
        let a = parts_upto(lines, keep, j);
        let b = parts_upto(lines, keep, k - 1);
        let c = parts_upto(lines, keep, k);
        assert(c.subrange(0, b.len() as int) =~= b);
        assert(c.subrange(0, a.len() as int) =~= b.subrange(0, a.len() as int));
    } else {
        let a = parts_upto(lines, keep, j);
        assert(a.subrange(0, a.len() as int) =~= a);
    }
}

/// A kept line is the last piece once it has been placed.
proof fn lemma_kept_is_last_piece(lines: Seq<Seq<char>>, keep: Seq<bool>, i: int)
    requires
        0 <= i < keep.len(),
        keep[i],
    ensures
        parts_upto(lines, keep, i + 1).len() >= 1,
        parts_upto(lines, keep, i + 1).last() == lines[i],
{
}

/// A kept line `i` is the last of the pieces for lines `0..=i`, and that
/// piece is in the output.
proof fn lemma_kept_piece(lines: Seq<Seq<char>>, keep: Seq<bool>, i: int)
    requires
        keep.len() == lines.len(),
        0 <= i < lines.len(),
        keep[i],
    ensures
        1 <= parts_upto(lines, keep, i + 1).len() <= assemble(lines, keep).len(),
        assemble(lines, keep)[parts_upto(lines, keep, i + 1).len() - 1] == lines[i],
{
    let n = lines.len() as int;
    lemma_kept_is_last_piece(lines, keep, i);
    lemma_parts_prefix(lines, keep, i + 1, n);
    let p = parts_upto(lines, keep, i + 1).len() - 1;
    let all = parts_upto(lines, keep, n);
    assert(all.subrange(0, p + 1)[p] == lines[i]);
    assert(assemble(lines, keep)[p] == all[p]);
}

/// Kept lines come out in their input order.
proof fn lemma_kept_pieces_in_order(lines: Seq<Seq<char>>, keep: Seq<bool>, i: int, j: int)
    requires
        keep.len() == lines.len(),
        0 <= i < j < lines.len(),
        keep[j],
    ensures
        parts_upto(lines, keep, i + 1).len() < parts_upto(lines, keep, j + 1).len(),
{
    lemma_parts_prefix(lines, keep, i + 1, j);
}

/// Every kept line is one of the output pieces.
pub proof fn law_kept_lines_are_emitted(lines: Seq<Seq<char>>, keep: Seq<bool>, i: int)
    requires
        keep.len() == lines.len(),
        0 <= i < lines.len(),
        keep[i],
    ensures
        exists|p: int| 0 <= p < assemble(lines, keep).len() && #[trigger] assemble(lines, keep)[p] == lines[i],
{
    lemma_kept_piece(lines, keep, i);
    let p = parts_upto(lines, keep, i + 1).len() - 1;
    assert(assemble(lines, keep)[p] == lines[i]);
}

/// Every pinned line is kept, whatever the budget and the ranking.
pub proof fn law_pinned_lines_are_kept(s: Seq<char>, target: int, ranking: Seq<usize>, i: int)
    requires
        0 <= i < split_lines(s).len(),
        pinned(split_lines(s)[i]),
    ensures
        kept_lines(s, target, ranking)[i],
{
    lemma_select(split_lines(s), target, ranking);
}

// ---------------------------------------------------------------------------
// Lines of a joined text
// ---------------------------------------------------------------------------

/// `x` holds no newline.
pub open spec fn plain(x: Seq<char>) -> bool {
    forall|m: int| 0 <= m < x.len() ==> #[trigger] x[m] != '\n'
}

/// A text without newlines is a single line.
proof fn lemma_split_plain(x: Seq<char>)
    requires
        plain(x),
    ensures
        split_lines(x) == seq![x],
    decreases x.len(),
{
    if x.len() == 0 {
        assert(x =~= Seq::<char>::empty());
        assert(split_lines(x) =~= seq![x]);
    } else {
        let y = x.drop_last();
        assert(plain(y)) by {
            assert forall|m: int| 0 <= m < y.len() implies #[trigger] y[m] != '\n' by {
                assert(y[m] == x[m]);
            }
        }
        lemma_split_plain(y);
        assert(x.last() == x[x.len() - 1]);
        assert(y.push(x.last()) =~= x);
        assert(split_lines(x) =~= seq![x]);
    }
}

/// Splitting text joined by a newline gives the lines of both sides.
proof fn lemma_split_concat_newline(a: Seq<char>, y: Seq<char>)
    ensures
        split_lines(a + seq!['\n'] + y) == split_lines(a) + split_lines(y),
    decreases y.len(),
{
    crate::lines::lemma_split_lines(a);
    if y.len() == 0 {
        let t = a + seq!['\n'];
        assert(a + seq!['\n'] + y =~= t);
        assert(t.drop_last() =~= a);
        assert(t.last() == '\n');
        assert(split_lines(y) =~= seq![Seq::<char>::empty()]);
        assert(split_lines(t) =~= split_lines(a) + split_lines(y));
    } else {
        let t = a + seq!['\n'] + y;
        let z = y.drop_last();
        assert(t.drop_last() =~= a + seq!['\n'] + z);
        assert(t.last() == y.last());
        lemma_split_concat_newline(a, z);
        crate::lines::lemma_split_lines(z);
        let sa = split_lines(a);
        let sz = split_lines(z);
        if y.last() == '\n' {
            assert(split_lines(t) =~= sa + split_lines(y));
        } else {
            assert((sa + sz).last() == sz.last());
            assert((sa + sz).update((sa + sz).len() - 1, sz.last().push(y.last())) =~= sa + sz.update(
                sz.len() - 1,
                sz.last().push(y.last()),
            ));
            assert(split_lines(t) =~= sa + split_lines(y));
        }
    }
}

/// Splitting pieces joined by newlines gives the pieces back, when no piece
/// holds a newline.
pub proof fn lemma_split_join(parts: Seq<Seq<char>>)
    requires
        parts.len() >= 1,
        forall|p: int| 0 <= p < parts.len() ==> plain(#[trigger] parts[p]),
    ensures
        split_lines(join_lines(parts)) == parts,
    decreases parts.len(),
{
    if parts.len() == 1 {
        assert(plain(parts[0]));
        lemma_split_plain(parts[0]);
        assert(split_lines(join_lines(parts)) =~= parts);
    } else {
        let q = parts.drop_last();
        assert forall|p: int| 0 <= p < q.len() implies plain(#[trigger] q[p]) by {
            assert(q[p] == parts[p]);
        }
        lemma_split_join(q);
        assert(plain(parts[parts.len() - 1]));
        lemma_split_plain(parts.last());
        lemma_split_concat_newline(join_lines(q), parts.last());
        assert(q.push(parts.last()) =~= parts);
        assert(split_lines(join_lines(parts)) =~= parts);
    }
}

/// No line of a split holds a newline.
proof fn lemma_lines_plain(s: Seq<char>)
    ensures
        forall|k: int| 0 <= k < split_lines(s).len() ==> plain(#[trigger] split_lines(s)[k]),
    decreases s.len(),
{
    crate::lines::lemma_split_lines(s);
    if s.len() > 0 {
        lemma_lines_plain(s.drop_last());
        crate::lines::lemma_split_lines(s.drop_last());
        let prev = split_lines(s.drop_last());
        assert forall|k: int| 0 <= k < split_lines(s).len() implies plain(
            #[trigger] split_lines(s)[k],
        ) by {
            if k < prev.len() {
                assert(plain(prev[k]));
            }
            if s.last() != '\n' && k == prev.len() - 1 {
                let l = prev.last();
                assert(plain(l));
                let e = l.push(s.last());
                assert forall|m: int| 0 <= m < e.len() implies #[trigger] e[m] != '\n' by {
                    if m < l.len() {
                        assert(e[m] == l[m]);
                    }
                }
            }
        }
    }
}

/// Each output piece is a mark or a kept line.
proof fn lemma_parts_shape(lines: Seq<Seq<char>>, keep: Seq<bool>, i: int)
    requires
        0 <= i <= lines.len(),
        keep.len() == lines.len(),
    ensures
        forall|p: int|
            0 <= p < parts_upto(lines, keep, i).len() ==> #[trigger] parts_upto(lines, keep, i)[p]
                == ellipsis() || exists|j: int|
                0 <= j < i && keep[j] && parts_upto(lines, keep, i)[p] == lines[j],
    decreases i,
{
    if i > 0 {
        lemma_parts_shape(lines, keep, i - 1);
        let prev = parts_upto(lines, keep, i - 1);
        let cur = parts_upto(lines, keep, i);
        assert forall|p: int| 0 <= p < cur.len() implies #[trigger] cur[p] == ellipsis() || exists|
            j: int,
        |
            0 <= j < i && keep[j] && cur[p] == lines[j] by {
            if p < prev.len() {
                assert(cur[p] == prev[p]);
                if prev[p] != ellipsis() {
                    let j = choose|j: int| 0 <= j < i - 1 && keep[j] && prev[p] == lines[j];
                    assert(0 <= j < i && keep[j] && cur[p] == lines[j]);
                }
            } else if cur[p] != ellipsis() {
                assert(cur[p] == lines[i - 1]);
            }
        }
    }
}

/// The output pieces: never empty, each a mark or a kept line.
proof fn lemma_assemble_shape(lines: Seq<Seq<char>>, keep: Seq<bool>)
    requires
        keep.len() == lines.len(),
    ensures
        assemble(lines, keep).len() >= 1,
        forall|p: int|
            0 <= p < assemble(lines, keep).len() ==> #[trigger] assemble(lines, keep)[p]
                == ellipsis() || exists|j: int|
                0 <= j < lines.len() && keep[j] && assemble(lines, keep)[p] == lines[j],
{
    let n = lines.len() as int;
    lemma_parts_shape(lines, keep, n);
    let parts = parts_upto(lines, keep, n);
    let a = assemble(lines, keep);
    if let Some(q) = last_kept_before(keep, n) {
        lemma_last_kept(keep, n);
        if q + 1 >= n {
            lemma_kept_is_last_piece(lines, keep, q);
            lemma_parts_prefix(lines, keep, q + 1, n);
        }
    }
    assert forall|p: int| 0 <= p < a.len() implies #[trigger] a[p] == ellipsis() || exists|j: int|
        0 <= j < lines.len() && keep[j] && a[p] == lines[j] by {
        if p < parts.len() {
            assert(a[p] == parts[p]);
        }
    }
}

/// What `last_kept_before` finds.
proof fn lemma_last_kept(keep: Seq<bool>, i: int)
    requires
        0 <= i <= keep.len(),
    ensures
        last_kept_before(keep, i) matches Some(q) ==> 0 <= q < i && keep[q] && forall|m: int|
            q < m < i ==> !#[trigger] keep[m],
        last_kept_before(keep, i) is None ==> forall|m: int| 0 <= m < i ==> !#[trigger] keep[m],
    decreases i,
{
    if i > 0 && !keep[i - 1] {
        lemma_last_kept(keep, i - 1);
    }
}

/// A join of non-empty pieces begins with the first piece's first character
/// and ends with the last piece's last character.
proof fn lemma_join_ends(parts: Seq<Seq<char>>)
    requires
        parts.len() >= 1,
        forall|p: int| 0 <= p < parts.len() ==> (#[trigger] parts[p]).len() > 0,
    ensures
        join_lines(parts).len() > 0,
        join_lines(parts)[0] == parts[0][0],
        join_lines(parts).last() == parts.last().last(),
    decreases parts.len(),
{
    if parts.len() > 1 {
        let q = parts.drop_last();
        assert forall|p: int| 0 <= p < q.len() implies (#[trigger] q[p]).len() > 0 by {
            assert(q[p] == parts[p]);
        }
        lemma_join_ends(q);
        assert(parts[parts.len() - 1].len() > 0);
    } else {
        assert(parts[0].len() > 0);
    }
}

/// The lines of a result: the `[[CMP]]` line, the output pieces of
/// extraction, and the `[[/CMP]]` line.
proof fn lemma_compressed_lines(s: Seq<char>, ranking: Seq<usize>)
    requires
        compressed(s, ranking) is Some,
    ensures
        split_lines(compressed(s, ranking)->0) == seq![open_marker()] + assemble(
            split_lines(s),
            kept_lines(s, inner_budget(byte_len(s) as int), ranking),
        ) + seq![close_marker()],
{
    reveal_strlit("[[CMP]]");
    reveal_strlit("[[/CMP]]");
    let n = byte_len(s) as int;
    let target = inner_budget(n);
    assert(n > target);
    let lines = split_lines(s);
    let keep = kept_lines(s, target, ranking);
    lemma_select(lines, target, ranking);
    let parts = assemble(lines, keep);
    let j = extracted_text(s, target, ranking);
    assert(extraction(s, target, ranking).0 == j);
    lemma_assemble_shape(lines, keep);
    lemma_lines_plain(s);
    assert forall|p: int| 0 <= p < parts.len() implies plain(#[trigger] parts[p]) && parts[p].len()
        > 0 by {
        if parts[p] == ellipsis() {
            assert(plain(ellipsis()));
        } else {
            let k = choose|k: int| 0 <= k < lines.len() && keep[k] && parts[p] == lines[k];
            assert(plain(lines[k]));
            if lines[k].len() == 0 {
                assert(all_whitespace(lines[k]));
                assert(!pinned(lines[k]));
                assert(!is_candidate(lines, k));
            }
        }
    }
    lemma_split_join(parts);
    lemma_join_ends(parts);
    assert(j[0] != '\n') by {
        assert(plain(parts[0]));
    }
    assert(j[j.len() - 1] != '\n') by {
        let l = parts.last();
        assert(plain(parts[parts.len() - 1]));
        assert(l[l.len() - 1] == l.last());
    }
    lemma_trim_newlines_noop(j);
    let o = open_marker();
    let c = close_marker();
    let w = wrapped_block(j);
    assert(w =~= o + seq!['\n'] + (j + seq!['\n'] + c));
    assert(plain(o));
    assert(plain(c));
    lemma_split_plain(o);
    lemma_split_plain(c);
    lemma_split_concat_newline(o, j + seq!['\n'] + c);
    lemma_split_concat_newline(j, c);
    assert(split_lines(w) =~= seq![o] + parts + seq![c]);
    assert(compressed(s, ranking)->0 == w);
}

// ---------------------------------------------------------------------------
// Elision marks
// ---------------------------------------------------------------------------

/// Dropped lines add no pieces.
proof fn lemma_parts_skip_dropped(lines: Seq<Seq<char>>, keep: Seq<bool>, a: int, b: int)
    requires
        0 <= a <= b <= keep.len(),
        forall|m: int| a <= m < b ==> !#[trigger] keep[m],
    ensures
        parts_upto(lines, keep, b) == parts_upto(lines, keep, a),
    decreases b - a,
{
    if a < b {
        lemma_parts_skip_dropped(lines, keep, a, b - 1);
    }
}

/// With nothing kept between `a` and `b`, the last kept line before `b` is `a`.
proof fn lemma_last_kept_is(keep: Seq<bool>, a: int, b: int)
    requires
        0 <= a < b <= keep.len(),
        keep[a],
        forall|m: int| a < m < b ==> !#[trigger] keep[m],
    ensures
        last_kept_before(keep, b) == Some(a),
    decreases b - a,
{
    if b - 1 > a {
        lemma_last_kept_is(keep, a, b - 1);
    }
}

/// The elision mark is the single character `…` (U+2026).
pub proof fn law_elision_mark()
    ensures
        ellipsis() == seq!['\u{2026}'],
        ellipsis().len() == 1,
{
}

/// Between two consecutive kept lines, dropped lines leave exactly one `…`,
/// and adjacent kept lines none.
pub proof fn law_gap_between_kept_lines(lines: Seq<Seq<char>>, keep: Seq<bool>, a: int, b: int)
    requires
        keep.len() == lines.len(),
        0 <= a < b < lines.len(),
        keep[a],
        keep[b],
        forall|m: int| a < m < b ==> !#[trigger] keep[m],
    ensures
        parts_upto(lines, keep, b + 1) == parts_upto(lines, keep, a + 1) + (if b > a + 1 {
            seq![ellipsis()]
        } else {
            Seq::empty()
        }) + seq![lines[b]],
{
    lemma_parts_skip_dropped(lines, keep, a + 1, b);
    lemma_last_kept_is(keep, a, b);
    let p = parts_upto(lines, keep, a + 1);
    if b > a + 1 {
        assert(p.push(ellipsis()).push(lines[b]) =~= p + seq![ellipsis()] + seq![lines[b]]);
    } else {
        assert(p.push(lines[b]) =~= p + Seq::<Seq<char>>::empty() + seq![lines[b]]);
    }
}

/// Before the first kept line, dropped lines leave one `…`.
pub proof fn law_gap_before_first_kept_line(lines: Seq<Seq<char>>, keep: Seq<bool>, k: int)
    requires
        keep.len() == lines.len(),
        0 <= k < lines.len(),
        keep[k],
        forall|m: int| 0 <= m < k ==> !#[trigger] keep[m],
    ensures
        parts_upto(lines, keep, k + 1) == if k > 0 {
            seq![ellipsis(), lines[k]]
        } else {
            seq![lines[k]]
        },
{
    lemma_parts_skip_dropped(lines, keep, 0, k);
    lemma_last_kept(keep, k);
    assert(last_kept_before(keep, k) is None) by {
        if let Some(q) = last_kept_before(keep, k) {
            assert(keep[q]);
        }
    }
    if k > 0 {
        assert(Seq::<Seq<char>>::empty().push(ellipsis()).push(lines[k]) =~= seq![ellipsis(), lines[k]]);
    } else {
        assert(Seq::<Seq<char>>::empty().push(lines[k]) =~= seq![lines[k]]);
    }
}

/// After the last kept line, dropped lines leave one `…`; when no line is
/// kept, the output is that one mark.
pub proof fn law_gap_after_last_kept_line(lines: Seq<Seq<char>>, keep: Seq<bool>)
    requires
        keep.len() == lines.len(),
    ensures
        (forall|m: int| 0 <= m < lines.len() ==> !#[trigger] keep[m]) ==> assemble(lines, keep)
            == seq![ellipsis()],
        lines.len() > 0 && keep[lines.len() - 1] ==> assemble(lines, keep) == parts_upto(
            lines,
            keep,
            lines.len() as int,
        ),
        lines.len() > 0 && !keep[lines.len() - 1] ==> assemble(lines, keep) == parts_upto(
            lines,
            keep,
            lines.len() as int,
        ).push(ellipsis()),
{
    let n = lines.len() as int;
    lemma_last_kept(keep, n);
    if forall|m: int| 0 <= m < lines.len() ==> !#[trigger] keep[m] {
        lemma_parts_skip_dropped(lines, keep, 0, n);
        if let Some(q) = last_kept_before(keep, n) {
            assert(keep[q]);
        }
        assert(Seq::<Seq<char>>::empty().push(ellipsis()) =~= seq![ellipsis()]);
    }
}

// ---------------------------------------------------------------------------
// Extraction never grows a text
// ---------------------------------------------------------------------------

/// Head-and-tail truncation never grows a text, and shortens it whenever it
/// cuts.
pub proof fn law_truncation_never_inflates(s: Seq<char>, head: int, tail: int)
    requires
        0 <= head <= usize::MAX,
        0 <= tail <= usize::MAX,
        head + tail + 80 <= usize::MAX,
    ensures
        byte_len(truncated(s, head, tail)) <= byte_len(s),
        truncated(s, head, tail) != s ==> byte_len(truncated(s, head, tail)) < byte_len(s),
{
    let n = byte_len(s) as int;
    if n > head + tail + 80 {
        reveal_strlit("[[CMP]]");
        reveal_strlit("[[/CMP]]");
        let h = fit_prefix(s, 0, head);
        let t = reach_prefix(s, 0, n - tail);
        assert(s.take(0) =~= Seq::<char>::empty());
        lemma_fit_prefix(s, 0, head);
        lemma_reach_prefix(s, 0, n - tail);
        lemma_byte_len_split(s, t);
        if t == s.len() {
            assert(s.skip(t) =~= Seq::<char>::empty());
        }
        let block = wrapped_block(Seq::empty());
        assert(trim_newlines(Seq::<char>::empty()).len() == 0);
        lemma_byte_len_bounds(block);
        let a = s.take(h) + seq!['\n'];
        let b = a + block;
        let c = b + seq!['\n'];
        lemma_byte_len_concat(s.take(h), seq!['\n']);
        lemma_byte_len_concat(a, block);
        lemma_byte_len_concat(b, seq!['\n']);
        lemma_byte_len_concat(c, s.skip(t));
        lemma_byte_len_single('\n');
    }
}

/// Extraction never grows a text: it gives back the text itself or kept
/// lines that are shorter.
pub proof fn law_extraction_never_inflates(s: Seq<char>, target: int, ranking: Seq<usize>)
    ensures
        byte_len(extraction(s, target, ranking).0) <= byte_len(s),
        extraction(s, target, ranking).1 ==> byte_len(extraction(s, target, ranking).0) < byte_len(s),
        !extraction(s, target, ranking).1 ==> extraction(s, target, ranking).0 == s,
{
}

// ---------------------------------------------------------------------------
// The budget
// ---------------------------------------------------------------------------

/// Ranked lines are added only while the kept bytes are under the budget:
/// beyond the pinned lines, the kept bytes exceed the budget by less than
/// one line.
pub proof fn law_budget_overshoot_is_under_one_line(
    lines: Seq<Seq<char>>,
    target: int,
    ranking: Seq<usize>,
    bound: int,
)
    requires
        forall|j: int| 0 <= j < lines.len() ==> line_cost(#[trigger] lines[j]) <= bound,
    ensures
        select(lines, target, ranking).1 == pinned_cost(lines) || select(lines, target, ranking).1
            < target + bound,
    decreases ranking.len(),
{
    if ranking.len() > 0 {
        law_budget_overshoot_is_under_one_line(lines, target, ranking.drop_last(), bound);
    }
}

/// Kept flags only turn on, and the kept bytes only grow, as the ranking is
/// walked.
proof fn lemma_select_grows(lines: Seq<Seq<char>>, target: int, ranking: Seq<usize>, r: int)
    requires
        0 <= r <= ranking.len(),
    ensures
        select(lines, target, ranking.take(r)).1 <= select(lines, target, ranking).1,
        forall|j: int|
            0 <= j < lines.len() && #[trigger] select(lines, target, ranking.take(r)).0[j]
                ==> select(lines, target, ranking).0[j],
    decreases ranking.len() - r,
{
    lemma_select(lines, target, ranking.take(r));
    if r < ranking.len() {
        lemma_select_grows(lines, target, ranking, r + 1);
        assert(ranking.take(r + 1).drop_last() =~= ranking.take(r));
        lemma_select(lines, target, ranking.take(r + 1));
        let a = select(lines, target, ranking.take(r));
        let b = select(lines, target, ranking.take(r + 1));
        assert forall|j: int| 0 <= j < lines.len() && #[trigger] a.0[j] implies select(
            lines,
            target,
            ranking,
        ).0[j] by {
            assert(b.0[j]);
        }
    } else {
        assert(ranking.take(r) =~= ranking);
    }
}

/// A ranked line is dropped only when the budget is spent: if a candidate
/// listed in the ranking is not kept, the kept bytes reach the budget.
pub proof fn law_lines_dropped_only_when_budget_spent(
    lines: Seq<Seq<char>>,
    target: int,
    ranking: Seq<usize>,
    r: int,
)
    requires
        0 <= r < ranking.len(),
        is_candidate(lines, ranking[r] as int),
        !select(lines, target, ranking).0[ranking[r] as int],
    ensures
        select(lines, target, ranking).1 >= target,
{
    let j = ranking[r] as int;
    lemma_select_grows(lines, target, ranking, r);
    lemma_select_grows(lines, target, ranking, r + 1);
    assert(ranking.take(r + 1).drop_last() =~= ranking.take(r));
    assert(ranking.take(r + 1).last() == ranking[r]);
    lemma_select(lines, target, ranking.take(r));
    let a = select(lines, target, ranking.take(r));
    let b = select(lines, target, ranking.take(r + 1));
    if a.1 < target {
        if a.0[j] {
            assert(select(lines, target, ranking).0[j]);
        } else {
            assert(b.0[j]);
            assert(select(lines, target, ranking).0[j]);
        }
    }
}

// ---------------------------------------------------------------------------
// Extraction is extractive
// ---------------------------------------------------------------------------

/// Every piece that extraction emits is a line of the input that was kept, or
/// the mark `…`.
pub proof fn law_output_pieces_come_from_input(lines: Seq<Seq<char>>, keep: Seq<bool>, p: int)
    requires
        keep.len() == lines.len(),
        0 <= p < assemble(lines, keep).len(),
    ensures
        assemble(lines, keep)[p] == ellipsis() || exists|j: int|
            0 <= j < lines.len() && keep[j] && #[trigger] lines[j] == assemble(lines, keep)[p],
{
    lemma_assemble_shape(lines, keep);
    if assemble(lines, keep)[p] != ellipsis() {
        let j = choose|j: int|
            0 <= j < lines.len() && keep[j] && assemble(lines, keep)[p] == lines[j];
        assert(lines[j] == assemble(lines, keep)[p]);
    }
}

// ---------------------------------------------------------------------------
// Load-bearing lines survive
// ---------------------------------------------------------------------------

/// Where line `i` of `s` stands among the lines of `compress`'s result: the
/// `[[CMP]]` line comes first, then the output pieces, of which a kept line
/// `i` is the last one that lines `0..=i` give.
pub open spec fn emitted_line_index(s: Seq<char>, ranking: Seq<usize>, i: int) -> int {
    parts_upto(
        split_lines(s),
        kept_lines(s, inner_budget(byte_len(s) as int), ranking),
        i + 1,
    ).len() as int
}

/// Load-bearing lines survive, in order: when `compress` returns a result,
/// every pinned line of the input is a line of the result (at
/// `emitted_line_index`), and pinned lines come out in their input order.
pub proof fn law_pinned_lines_survive(s: Seq<char>, ranking: Seq<usize>)
    requires
        compressed(s, ranking) is Some,
    ensures
        forall|i: int|
            0 <= i < split_lines(s).len() && pinned(split_lines(s)[i]) ==> {
                let out = split_lines(compressed(s, ranking)->0);
                &&& 0 <= #[trigger] emitted_line_index(s, ranking, i) < out.len()
                &&& out[emitted_line_index(s, ranking, i)] == split_lines(s)[i]
            },
        forall|i: int, j: int|
            0 <= i < j < split_lines(s).len() && pinned(split_lines(s)[i]) && pinned(
                split_lines(s)[j],
            ) ==> #[trigger] emitted_line_index(s, ranking, i) < #[trigger] emitted_line_index(
                s,
                ranking,
                j,
            ),
{
    let lines = split_lines(s);
    let target = inner_budget(byte_len(s) as int);
    let keep = kept_lines(s, target, ranking);
    lemma_select(lines, target, ranking);
    lemma_compressed_lines(s, ranking);
    let out = split_lines(compressed(s, ranking)->0);
    let parts = assemble(lines, keep);
    assert forall|i: int| 0 <= i < lines.len() && pinned(lines[i]) implies {
        &&& 0 <= #[trigger] emitted_line_index(s, ranking, i) < out.len()
        &&& out[emitted_line_index(s, ranking, i)] == lines[i]
    } by {
        assert(keep[i]);
        lemma_kept_piece(lines, keep, i);
        let q = parts_upto(lines, keep, i + 1).len() as int;
        assert(out[q] == parts[q - 1]);
    }
    assert forall|i: int, j: int|
        0 <= i < j < lines.len() && pinned(lines[i]) && pinned(lines[j]) implies #[trigger] emitted_line_index(
        s,
        ranking,
        i,
    ) < #[trigger] emitted_line_index(s, ranking, j) by {
        assert(keep[j]);
        lemma_kept_pieces_in_order(lines, keep, i, j);
    }
}

// ---------------------------------------------------------------------------
// Lines and text
// ---------------------------------------------------------------------------

/// Joining the lines of a text with newlines gives the text back.
pub proof fn law_lines_join_back(s: Seq<char>)
    ensures
        join_lines(split_lines(s)) == s,
    decreases s.len(),
{
    if s.len() == 0 {
        assert(split_lines(s) =~= seq![Seq::<char>::empty()]);
        assert(s =~= Seq::<char>::empty());
    } else {
        let r = s.drop_last();
        let c = s.last();
        law_lines_join_back(r);
        crate::lines::lemma_split_lines(r);
        let prev = split_lines(r);
        if c == '\n' {
            crate::lines::lemma_join_push(prev, Seq::<char>::empty());
            assert(s =~= r + seq!['\n'] + Seq::<char>::empty());
        } else {
            let l = prev.len() as int;
            let next = prev.update(l - 1, prev.last().push(c));
            assert(next.drop_last() =~= prev.drop_last());
            if l == 1 {
                assert(join_lines(prev) == prev[0]);
                assert(s =~= prev[0].push(c));
            } else {
                assert(join_lines(prev) == join_lines(prev.drop_last()) + seq!['\n'] + prev.last());
                assert(s =~= r.push(c));
                assert(r == join_lines(prev));
                assert(s =~= join_lines(prev.drop_last()) + seq!['\n'] + prev.last().push(c));
            }
        }
    }
}

// ---------------------------------------------------------------------------
// Indentation
// ---------------------------------------------------------------------------

/// A whitespace character is never a word character.
proof fn lemma_white_space_is_not_word(c: char)
    requires
        unicode_white_space(c),
    ensures
        !is_word(c),
{
}

/// A run of class `k` read at an offset into `ws + line` ends where it ends
/// in `line`, shifted by the length of `ws`.
proof fn lemma_run_end_offset(ws: Seq<char>, line: Seq<char>, j: int, k: Class)
    requires
        0 <= j,
    ensures
        run_end(ws + line, ws.len() + j, k) == ws.len() + run_end(line, j, k),
    decreases line.len() - j,
{
    if j < line.len() {
        assert((ws + line)[ws.len() + j] == line[j]);
        if in_class(line[j], k) {
            lemma_run_end_offset(ws, line, j + 1, k);
        }
    }
}

/// Leading whitespace is skipped by a whitespace run from anywhere in it.
proof fn lemma_run_end_indented(ws: Seq<char>, line: Seq<char>, i: int)
    requires
        0 <= i <= ws.len(),
        forall|m: int| 0 <= m < ws.len() ==> unicode_white_space(#[trigger] ws[m]),
    ensures
        run_end(ws + line, i, Class::Whitespace) == ws.len() + run_end(line, 0, Class::Whitespace),
    decreases ws.len() - i,
{
    if i < ws.len() {
        assert((ws + line)[i] == ws[i]);
        assert(in_class((ws + line)[i], Class::Whitespace));
        lemma_run_end_indented(ws, line, i + 1);
    } else {
        lemma_run_end_offset(ws, line, 0, Class::Whitespace);
    }
}

/// A whole word that begins with a non-space occurs in an indented line just
/// when it occurs in the line.
proof fn lemma_bounded_word_indented(ws: Seq<char>, line: Seq<char>, w: Seq<char>)
    requires
        forall|m: int| 0 <= m < ws.len() ==> unicode_white_space(#[trigger] ws[m]),
        w.len() > 0,
        !unicode_white_space(w[0]),
    ensures
        has_bounded_word(ws + line, w) == has_bounded_word(line, w),
{
    let s = ws + line;
    let n = ws.len() as int;
    if has_bounded_word(s, w) {
        let i = choose|i: int| bounded_word_at(s, w, i);
        if i < n {
            assert(s.subrange(i, i + w.len())[0] == s[i]);
            assert(s[i] == ws[i]);
        }
        assert(line.subrange(i - n, i - n + w.len()) =~= s.subrange(i, i + w.len()));
        if i > n {
            assert(s[i - 1] == line[i - n - 1]);
        } else if n > 0 {
            assert(s[i - 1] == ws[n - 1]);
            lemma_white_space_is_not_word(ws[n - 1]);
        }
        if i + w.len() < s.len() {
            assert(s[i + w.len()] == line[i - n + w.len()]);
        }
        assert(bounded_word_at(line, w, i - n));
    }
    if has_bounded_word(line, w) {
        let i = choose|i: int| bounded_word_at(line, w, i);
        assert(s.subrange(i + n, i + n + w.len()) =~= line.subrange(i, i + w.len()));
        if i > 0 {
            assert(s[i + n - 1] == line[i - 1]);
        } else if n > 0 {
            assert(s[n - 1] == ws[n - 1]);
            lemma_white_space_is_not_word(ws[n - 1]);
        }
        if i + w.len() < line.len() {
            assert(s[i + n + w.len()] == line[i + w.len()]);
        }
        assert(bounded_word_at(s, w, i + n));
    }
}

/// Leading indentation never changes whether a line marks a failing test:
/// with whitespace before it, a line matches exactly when it matches alone.
pub proof fn law_indentation_keeps_failing_test_lines(ws: Seq<char>, line: Seq<char>)
    requires
        forall|m: int| 0 <= m < ws.len() ==> unicode_white_space(#[trigger] ws[m]),
    ensures
        test_line_pattern(ws + line) == test_line_pattern(line),
{
    let s = ws + line;
    lemma_run_end_indented(ws, line, 0);
    let e = run_end(line, 0, Class::Whitespace);
    lemma_run_end(line, 0, Class::Whitespace);
    assert(trim_start(s) =~= trim_start(line));
    reveal_strlit("AssertionError");
    lemma_bounded_word_indented(ws, line, "AssertionError"@);
}

// ---------------------------------------------------------------------------
// What gets ranked, and what a ranking keeps
// ---------------------------------------------------------------------------

/// `candidates` for the first `upto` lines lists, in increasing index order,
/// exactly the lines before `upto` that are neither pinned nor blank, each with
/// its own text.
proof fn lemma_candidates(lines: Seq<Seq<char>>, upto: int)
    requires
        0 <= upto <= lines.len(),
    ensures
        forall|k: int|
            0 <= k < candidates(lines, upto).len() ==> {
                let (i, l) = #[trigger] candidates(lines, upto)[k];
                &&& 0 <= i < upto
                &&& l == lines[i]
                &&& !pinned(lines[i])
                &&& !all_whitespace(lines[i])
            },
        forall|i: int|
            0 <= i < upto && !pinned(lines[i]) && !all_whitespace(#[trigger] lines[i]) ==> exists|
                k: int,
            | 0 <= k < candidates(lines, upto).len() && candidates(lines, upto)[k].0 == i,
        forall|a: int, b: int|
            0 <= a < b < candidates(lines, upto).len() ==> #[trigger] candidates(lines, upto)[a].0
                < #[trigger] candidates(lines, upto)[b].0,
    decreases upto,
{
    if upto > 0 {
        lemma_candidates(lines, upto - 1);
        let prev = candidates(lines, upto - 1);
        let cur = candidates(lines, upto);
        assert forall|i: int|
            0 <= i < upto && !pinned(lines[i]) && !all_whitespace(#[trigger] lines[i]) implies exists|
                k: int,
            | 0 <= k < cur.len() && cur[k].0 == i by {
            if i < upto - 1 {
                let k = choose|k: int| 0 <= k < prev.len() && prev[k].0 == i;
                assert(cur[k] == prev[k]);
            } else {
                assert(cur[cur.len() - 1].0 == i);
            }
        }
        assert forall|k: int| 0 <= k < cur.len() implies {
            let (i, l) = #[trigger] cur[k];
            &&& 0 <= i < upto
            &&& l == lines[i]
            &&& !pinned(lines[i])
            &&& !all_whitespace(lines[i])
        } by {
            if k < prev.len() {
                assert(cur[k] == prev[k]);
            }
        }
        assert forall|a: int, b: int| 0 <= a < b < cur.len() implies #[trigger] cur[a].0
            < #[trigger] cur[b].0 by {
            if b < prev.len() {
                assert(cur[a] == prev[a]);
                assert(cur[b] == prev[b]);
            } else {
                assert(cur[a] == prev[a]);
            }
        }
    }
}

/// The lines to rank are exactly the lines that are neither pinned nor blank:
/// `candidates` lists each such line once, with its index and its own text, in
/// input order, and no other line.
pub proof fn law_candidates_are_the_unpinned_nonblank_lines(s: Seq<char>)
    ensures
        forall|k: int|
            0 <= k < candidates(split_lines(s), split_lines(s).len() as int).len() ==> {
                let (i, l) = #[trigger] candidates(split_lines(s), split_lines(s).len() as int)[k];
                &&& 0 <= i < split_lines(s).len()
                &&& l == split_lines(s)[i]
                &&& !pinned(split_lines(s)[i])
                &&& !all_whitespace(split_lines(s)[i])
            },
        forall|i: int|
            0 <= i < split_lines(s).len() && !pinned(split_lines(s)[i]) && !all_whitespace(
                #[trigger] split_lines(s)[i],
            ) ==> exists|k: int|
                0 <= k < candidates(split_lines(s), split_lines(s).len() as int).len()
                    && candidates(split_lines(s), split_lines(s).len() as int)[k].0 == i,
        forall|a: int, b: int|
            0 <= a < b < candidates(split_lines(s), split_lines(s).len() as int).len()
                ==> #[trigger] candidates(split_lines(s), split_lines(s).len() as int)[a].0
                < #[trigger] candidates(split_lines(s), split_lines(s).len() as int)[b].0,
{
    lemma_candidates(split_lines(s), split_lines(s).len() as int);
}

/// A line kept after part of a ranking stays kept after more of it.
proof fn lemma_select_keeps(lines: Seq<Seq<char>>, target: int, ranking: Seq<usize>, a: int, b: int, j: int)
    requires
        0 <= a <= b <= ranking.len(),
        0 <= j < lines.len(),
        select(lines, target, ranking.take(a)).0[j],
    ensures
        select(lines, target, ranking.take(b)).0[j],
    decreases b - a,
{
    if a < b {
        lemma_select_keeps(lines, target, ranking, a, b - 1, j);
        let r = ranking.take(b);
        assert(r.drop_last() =~= ranking.take(b - 1));
        lemma_select(lines, target, ranking.take(b - 1));
    }
}

/// The bytes that the kept lines cost together: each line with its newline.
pub open spec fn kept_cost(lines: Seq<Seq<char>>, keep: Seq<bool>) -> int
    decreases lines.len(),
{
    if lines.len() == 0 {
        0
    } else {
        kept_cost(lines.drop_last(), keep.take(lines.len() - 1)) + if keep[lines.len() - 1] {
            line_cost(lines.last())
        } else {
            0
        }
    }
}

/// The pinned lines cost what `pinned_cost` counts.
proof fn lemma_kept_cost_pinned(lines: Seq<Seq<char>>)
    ensures
        kept_cost(lines, pinned_mask(lines)) == pinned_cost(lines),
    decreases lines.len(),
{
    if lines.len() > 0 {
        let n = lines.len() as int;
        assert(pinned_mask(lines).take(n - 1) =~= pinned_mask(lines.drop_last()));
        lemma_kept_cost_pinned(lines.drop_last());
    }
}

/// Keeping one more line adds its cost.
proof fn lemma_kept_cost_update(lines: Seq<Seq<char>>, keep: Seq<bool>, j: int)
    requires
        keep.len() == lines.len(),
        0 <= j < lines.len(),
        !keep[j],
    ensures
        kept_cost(lines, keep.update(j, true)) == kept_cost(lines, keep) + line_cost(lines[j]),
    decreases lines.len(),
{
    let n = lines.len() as int;
    let up = keep.update(j, true);
    if j == n - 1 {
        assert(up.take(n - 1) =~= keep.take(n - 1));
    } else {
        assert(up.take(n - 1) =~= keep.take(n - 1).update(j, true));
        assert(lines.drop_last()[j] == lines[j]);
        lemma_kept_cost_update(lines.drop_last(), keep.take(n - 1), j);
    }
}

/// The bytes that selection counts as used are what its kept lines cost.
pub proof fn law_selection_counts_what_it_keeps(lines: Seq<Seq<char>>, target: int, ranking: Seq<usize>)
    ensures
        select(lines, target, ranking).1 == kept_cost(lines, select(lines, target, ranking).0),
    decreases ranking.len(),
{
    if ranking.len() == 0 {
        lemma_kept_cost_pinned(lines);
    } else {
        let rest = ranking.drop_last();
        law_selection_counts_what_it_keeps(lines, target, rest);
        lemma_select(lines, target, rest);
        let (keep, used) = select(lines, target, rest);
        let j = ranking.last() as int;
        if used < target && is_candidate(lines, j) && !keep[j] {
            lemma_kept_cost_update(lines, keep, j);
        }
    }
}

/// A ranked line that is neither pinned nor blank is kept whenever, at its
/// turn, the lines kept so far cost less than the budget.
pub proof fn law_ranked_lines_kept_under_budget(
    lines: Seq<Seq<char>>,
    target: int,
    ranking: Seq<usize>,
    r: int,
)
    requires
        0 <= r < ranking.len(),
        ranking[r] < lines.len(),
        !pinned(lines[ranking[r] as int]),
        !all_whitespace(lines[ranking[r] as int]),
        kept_cost(lines, select(lines, target, ranking.take(r)).0) < target,
    ensures
        select(lines, target, ranking).0[ranking[r] as int],
{
    let j = ranking[r] as int;
    let t = ranking.take(r + 1);
    assert(t.drop_last() =~= ranking.take(r));
    assert(t.last() == ranking[r]);
    law_selection_counts_what_it_keeps(lines, target, ranking.take(r));
    lemma_select(lines, target, ranking.take(r));
    lemma_select_keeps(lines, target, ranking, r + 1, ranking.len() as int, j);
    assert(ranking.take(ranking.len() as int) =~= ranking);
}

// ---------------------------------------------------------------------------
// Tokens
// ---------------------------------------------------------------------------

/// The tokens counted for a line are exactly `tokenize`'s tokens: every run
/// of word characters, in order, lower-cased, whatever characters it holds.
pub proof fn law_line_tokens_are_the_tokens(l: Seq<char>)
    ensures
        line_tokens(l).len() == word_runs(l).len(),
        forall|k: int| 0 <= k < word_runs(l).len() ==> #[trigger] line_tokens(l)[k] == lowercase(word_runs(l)[k]),
{
}

/// Word characters include the underscore, every ASCII letter and every ASCII
/// digit; whitespace never is one.
pub proof fn law_word_characters(c: char)
    ensures
        c == '_' ==> is_word(c),
        'a' <= c <= 'z' ==> is_word(c),
        'A' <= c <= 'Z' ==> is_word(c),
        '0' <= c <= '9' ==> is_word(c),
        unicode_white_space(c) ==> !is_word(c),
{
}

// ---------------------------------------------------------------------------
// Error markers
// ---------------------------------------------------------------------------

/// A non-blank line is pinned when its ASCII-lower-cased text holds one of the
/// error markers.
pub proof fn law_error_markers_pin(s: Seq<char>)
    requires
        !all_whitespace(s),
    ensures
        contains(s.map_values(|c: char| ascii_lower(c)), "traceback (most recent call last)"@)
            ==> pinned(s),
        contains(s.map_values(|c: char| ascii_lower(c)), "assertionerror"@) ==> pinned(s),
        contains(s.map_values(|c: char| ascii_lower(c)), "error:"@) ==> pinned(s),
        contains(s.map_values(|c: char| ascii_lower(c)), "exception:"@) ==> pinned(s),
        contains(s.map_values(|c: char| ascii_lower(c)), "failed"@) ==> pinned(s),
        contains(s.map_values(|c: char| ascii_lower(c)), "failures="@) ==> pinned(s),
        contains(s.map_values(|c: char| ascii_lower(c)), "errors="@) ==> pinned(s),
        contains(s.map_values(|c: char| ascii_lower(c)), "fatal:"@) ==> pinned(s),
{
}

/// A blank line is never pinned.
pub proof fn law_blank_lines_are_not_pinned(s: Seq<char>)
    requires
        all_whitespace(s),
    ensures
        !pinned(s),
{
}

// ---------------------------------------------------------------------------
// The byte budget
// ---------------------------------------------------------------------------

/// The share kept of a text of `n` bytes is 60% of it, rounded down, held
/// between 16 000 and 32 000 bytes.
pub proof fn law_keep_share(n: int)
    requires
        n >= 0,
    ensures
        3 * n < 80000 ==> keep_share(n) == 16000,
        3 * n >= 160005 ==> keep_share(n) == 32000,
        80000 <= 3 * n < 160005 ==> 5 * keep_share(n) <= 3 * n < 5 * keep_share(n) + 5,
{
}

/// The budget for the lines inside the markers is the share less the two
/// markers and their two newlines: 17 bytes.
pub proof fn law_inner_budget(n: int)
    requires
        n >= 0,
    ensures
        inner_budget(n) == keep_share(n) - 17,
{
    reveal_strlit("[[CMP]]");
    reveal_strlit("[[/CMP]]");
}

// ---------------------------------------------------------------------------
// The block
// ---------------------------------------------------------------------------

/// The block puts text that neither starts nor ends with a newline on lines of
/// its own between the markers, and gives `[[CMP]][[/CMP]]` for text that is
/// nothing but newlines.
pub proof fn law_block_shape(inner: Seq<char>)
    ensures
        inner.len() > 0 && inner[0] != '\n' && inner.last() != '\n' ==> wrapped_block(inner)
            == "[[CMP]]\n"@ + inner + "\n[[/CMP]]"@,
        (forall|m: int| 0 <= m < inner.len() ==> #[trigger] inner[m] == '\n') ==> wrapped_block(
            inner,
        ) == "[[CMP]][[/CMP]]"@,
{
    reveal_strlit("[[CMP]]");
    reveal_strlit("[[/CMP]]");
    reveal_strlit("[[CMP]]\n");
    reveal_strlit("\n[[/CMP]]");
    reveal_strlit("[[CMP]][[/CMP]]");
    if inner.len() > 0 && inner[0] != '\n' && inner.last() != '\n' {
        lemma_trim_newlines_noop(inner);
        assert(wrapped_block(inner) =~= "[[CMP]]\n"@ + inner + "\n[[/CMP]]"@);
    }
    if forall|m: int| 0 <= m < inner.len() ==> #[trigger] inner[m] == '\n' {
        lemma_run_end(inner, 0, Class::Only('\n'));
        let a = run_end(inner, 0, Class::Only('\n'));
        if a < inner.len() {
            assert(in_class(inner[a], Class::Only('\n')));
        }
        assert(trim_newlines(inner).len() == 0);
        assert(wrapped_block(inner) =~= "[[CMP]][[/CMP]]"@);
    }
}

// ---------------------------------------------------------------------------
// Lines
// ---------------------------------------------------------------------------

/// How many newlines `s` holds.
pub open spec fn newline_count(s: Seq<char>) -> nat {
    s.filter(|c: char| c == '\n').len()
}

/// A text splits into one more line than it has newlines, and no line holds
/// a newline.
pub proof fn law_lines_of_a_text(s: Seq<char>)
    ensures
        split_lines(s).len() == newline_count(s) + 1,
        forall|k: int, m: int|
            0 <= k < split_lines(s).len() && 0 <= m < split_lines(s)[k].len()
                ==> #[trigger] split_lines(s)[k][m] != '\n',
    decreases s.len(),
{
    reveal(Seq::filter);
    lemma_lines_plain(s);
    assert forall|k: int, m: int|
        0 <= k < split_lines(s).len() && 0 <= m < split_lines(s)[k].len() implies #[trigger] split_lines(
        s,
    )[k][m] != '\n' by {
        assert(plain(split_lines(s)[k]));
    }
    if s.len() > 0 {
        law_lines_of_a_text(s.drop_last());
        crate::lines::lemma_split_lines(s.drop_last());
    }
}

// ---------------------------------------------------------------------------
// Order of tokens and document counts
// ---------------------------------------------------------------------------

/// Code-point order: a proper prefix sorts first, and otherwise the first
/// differing character decides.
pub proof fn law_code_point_order(a: Seq<char>, b: Seq<char>, i: int)
    ensures
        a.len() < b.len() && b.take(a.len() as int) == a ==> lex_lt(a, b),
        0 <= i < a.len() && i < b.len() && a.take(i) == b.take(i) && (a[i] as u32) < (b[i] as u32)
            ==> lex_lt(a, b),
    decreases a.len(),
{
    if a.len() > 0 && b.len() > 0 {
        law_code_point_order(a.drop_first(), b.drop_first(), i - 1);
        if a.len() < b.len() && b.take(a.len() as int) == a {
            assert(b[0] == b.take(a.len() as int)[0]);
            assert(b.drop_first().take(a.drop_first().len() as int) =~= a.drop_first());
        }
        if 0 < i < a.len() && i < b.len() && a.take(i) == b.take(i) {
            assert(a[0] == a.take(i)[0]);
            assert(b[0] == b.take(i)[0]);
            assert(a.drop_first().take(i - 1) =~= b.drop_first().take(i - 1)) by {
                assert forall|m: int| 0 <= m < i - 1 implies #[trigger] a.drop_first().take(i - 1)[m]
                    == b.drop_first().take(i - 1)[m] by {
                    assert(a.take(i)[m + 1] == b.take(i)[m + 1]);
                }
            }
            assert(a.drop_first()[i - 1] == a[i]);
            assert(b.drop_first()[i - 1] == b[i]);
        }
    }
}

/// A token's document count is the number of token lists that hold it.
pub proof fn law_document_counts(ts: Seq<Seq<Seq<char>>>, t: Seq<char>)
    ensures
        documents_with(ts, t) == ts.filter(|l: Seq<Seq<char>>| l.contains(t)).len(),
    decreases ts.len(),
{
    reveal(Seq::filter);
    if ts.len() > 0 {
        law_document_counts(ts.drop_last(), t);
    }
}

// ---------------------------------------------------------------------------
// Runs of word characters
// ---------------------------------------------------------------------------

/// How many runs of word characters `s` holds: the positions with a word
/// character whose predecessor, if any, is not one.
pub open spec fn word_run_starts(s: Seq<char>) -> nat
    decreases s.len(),
{
    if s.len() == 0 {
        0
    } else {
        word_run_starts(s.drop_last()) + if is_word(s.last()) && (s.len() == 1 || !is_word(
            s[s.len() - 2],
        )) {
            1nat
        } else {
            0nat
        }
    }
}

/// Pieces joined end to end.
pub open spec fn concat_all(parts: Seq<Seq<char>>) -> Seq<char>
    decreases parts.len(),
{
    if parts.len() == 0 {
        Seq::empty()
    } else {
        concat_all(parts.drop_last()) + parts.last()
    }
}

/// The runs of word characters of a line: one per run of the line, none
/// empty, each made of word characters only, and together, in order, exactly
/// the line's word characters.
pub proof fn law_word_runs(s: Seq<char>)
    ensures
        word_runs(s).len() == word_run_starts(s),
        forall|k: int| 0 <= k < word_runs(s).len() ==> (#[trigger] word_runs(s)[k]).len() > 0,
        forall|k: int, m: int|
            0 <= k < word_runs(s).len() && 0 <= m < word_runs(s)[k].len() ==> is_word(
                #[trigger] word_runs(s)[k][m],
            ),
        concat_all(word_runs(s)) == s.filter(|c: char| is_word(c)),
    decreases s.len(),
{
    reveal(Seq::filter);
    if s.len() > 0 {
        let r = s.drop_last();
        let c = s.last();
        law_word_runs(r);
        let prev = word_runs(r);
        let cur = word_runs(s);
        if !is_word(c) {
        } else if s.len() >= 2 && is_word(s[s.len() - 2]) {
            assert(r.last() == s[s.len() - 2]);
            assert(word_run_starts(r) > 0) by {
                lemma_word_run_starts_positive(r);
            }
            let l = prev.len() - 1;
            assert(cur.drop_last() =~= prev.drop_last());
            assert(concat_all(prev) == concat_all(prev.drop_last()) + prev.last());
            assert(concat_all(cur) =~= concat_all(prev).push(c));
            assert forall|k: int, m: int|
                0 <= k < cur.len() && 0 <= m < cur[k].len() implies is_word(#[trigger] cur[k][m]) by {
                if k < l {
                    assert(cur[k] == prev[k]);
                } else if m < prev.last().len() {
                    assert(cur[k][m] == prev[l][m]);
                }
            }
            assert forall|k: int| 0 <= k < cur.len() implies (#[trigger] cur[k]).len() > 0 by {
                if k < l {
                    assert(cur[k] == prev[k]);
                }
            }
        } else {
            assert(cur.drop_last() =~= prev);
            assert(concat_all(cur) =~= concat_all(prev).push(c));
            assert forall|k: int, m: int|
                0 <= k < cur.len() && 0 <= m < cur[k].len() implies is_word(#[trigger] cur[k][m]) by {
                if k < prev.len() {
                    assert(cur[k] == prev[k]);
                }
            }
            assert forall|k: int| 0 <= k < cur.len() implies (#[trigger] cur[k]).len() > 0 by {
                if k < prev.len() {
                    assert(cur[k] == prev[k]);
                }
            }
        }
    }
}

/// A text that ends with a word character holds a run of them.
proof fn lemma_word_run_starts_positive(s: Seq<char>)
    requires
        s.len() > 0,
        is_word(s.last()),
    ensures
        word_run_starts(s) > 0,
    decreases s.len(),
{
    if s.len() >= 2 && is_word(s[s.len() - 2]) {
        assert(s.drop_last().last() == s[s.len() - 2]);
        lemma_word_run_starts_positive(s.drop_last());
    }
}

// ---------------------------------------------------------------------------
// Head-and-tail truncation
// ---------------------------------------------------------------------------

/// When it cuts, truncation keeps the longest prefix that fits in `head`
/// bytes and the longest suffix that fits in `tail` bytes, with an empty
/// block on a line of its own between them.
pub proof fn law_truncation_keeps_head_and_tail(s: Seq<char>, head: int, tail: int)
    requires
        0 <= head,
        0 <= tail,
        head + tail + 80 <= usize::MAX,
        byte_len(s) > head + tail + 80,
    ensures
        exists|h: int, t: int|
            #![trigger s.take(h), s.skip(t)]
            {
                &&& 0 <= h <= s.len()
                &&& 0 <= t <= s.len()
                &&& truncated(s, head, tail) == s.take(h) + "\n[[CMP]][[/CMP]]\n"@ + s.skip(t)
                &&& byte_len(s.take(h)) <= head
                &&& (h < s.len() ==> byte_len(s.take(h + 1)) > head)
                &&& byte_len(s.skip(t)) <= tail
                &&& (t > 0 ==> byte_len(s.skip(t - 1)) > tail)
            },
{
    reveal_strlit("[[CMP]]");
    reveal_strlit("[[/CMP]]");
    reveal_strlit("\n[[CMP]][[/CMP]]\n");
    let n = byte_len(s) as int;
    let h = fit_prefix(s, 0, head);
    let t = reach_prefix(s, 0, n - tail);
    assert(s.take(0) =~= Seq::<char>::empty());
    lemma_fit_prefix(s, 0, head);
    lemma_reach_prefix(s, 0, n - tail);
    lemma_byte_len_split(s, t);
    if t == s.len() {
        assert(s.skip(t) =~= Seq::<char>::empty());
    }
    if t > 0 {
        lemma_byte_len_split(s, t - 1);
    }
    assert(trim_newlines(Seq::<char>::empty()).len() == 0);
    assert(truncated(s, head, tail) =~= s.take(h) + "\n[[CMP]][[/CMP]]\n"@ + s.skip(t));
}

// ---------------------------------------------------------------------------
// ASCII case and leading whitespace
// ---------------------------------------------------------------------------

/// ASCII lower-casing moves `A`..`Z` to `a`..`z` and leaves every other
/// character alone; the ASCII letters are exactly `a`..`z` and `A`..`Z`.
pub proof fn law_ascii_case(c: char)
    ensures
        'A' <= c <= 'Z' ==> ascii_lower(c) as u32 == c as u32 + 32,
        !('A' <= c <= 'Z') ==> ascii_lower(c) == c,
        is_ascii_alpha(c) <==> ('a' <= c <= 'z' || 'A' <= c <= 'Z'),
{
}

/// Trimming leading whitespace removes a prefix of whitespace only and stops
/// at the first character that is not whitespace.
pub proof fn law_trim_start(s: Seq<char>)
    ensures
        exists|j: int|
            #![trigger s.skip(j)]
            {
                &&& 0 <= j <= s.len()
                &&& trim_start(s) == s.skip(j)
                &&& forall|m: int| 0 <= m < j ==> unicode_white_space(#[trigger] s[m])
                &&& (j < s.len() ==> !unicode_white_space(s[j]))
            },
{
    let j = run_end(s, 0, Class::Whitespace);
    lemma_run_end(s, 0, Class::Whitespace);
    assert forall|m: int| 0 <= m < j implies unicode_white_space(#[trigger] s[m]) by {
        assert(in_class(s[m], Class::Whitespace));
    }
    if j < s.len() {
        assert(!in_class(s[j], Class::Whitespace));
    }
    assert(trim_start(s) == s.skip(j));
}

} // verus!
