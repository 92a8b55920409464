//! Term statistics for ranking lines: for every line, its distinct tokens in
//! order, how often each occurs in the line, and in how many lines it occurs.
use vstd::prelude::*;
use vstd::multiset::Multiset;
use crate::text::{string_of, text_chars};
use crate::tokens::{lowercase, tokenize, word_runs};

verus! {

// ---------------------------------------------------------------------------
// Order of tokens
// ---------------------------------------------------------------------------

/// `a` sorts before `b`: character by character by code point, a proper
/// prefix first. For UTF-8 strings this is the order of `String`.
pub open spec fn lex_lt(a: Seq<char>, b: Seq<char>) -> bool
    decreases a.len(),
{
    if b.len() == 0 {
        false
    } else if a.len() == 0 {
        true
    } else if (a[0] as u32) < (b[0] as u32) {
        true
    } else if a[0] == b[0] {
        lex_lt(a.drop_first(), b.drop_first())
    } else {
        false
    }
}

/// No sequence sorts before itself.
pub proof fn lemma_lex_irreflexive(a: Seq<char>)
    ensures
        !lex_lt(a, a),
    decreases a.len(),
{
    if a.len() > 0 {
        lemma_lex_irreflexive(a.drop_first());
    }
}

/// Sorting before is transitive.
pub proof fn lemma_lex_transitive(a: Seq<char>, b: Seq<char>, c: Seq<char>)
    requires
        lex_lt(a, b),
        lex_lt(b, c),
    ensures
        lex_lt(a, c),
    decreases a.len(),
{
    if a.len() > 0 && b.len() > 0 && c.len() > 0 && a[0] == b[0] && b[0] == c[0] {
        lemma_lex_transitive(a.drop_first(), b.drop_first(), c.drop_first());
    }
}

/// Two different sequences are ordered one way or the other, never both.
pub proof fn lemma_lex_total(a: Seq<char>, b: Seq<char>)
    ensures
        a == b || lex_lt(a, b) || lex_lt(b, a),
        !(lex_lt(a, b) && lex_lt(b, a)),
    decreases a.len(),
{
    if a.len() > 0 && b.len() > 0 {
        if a[0] == b[0] {
            lemma_lex_total(a.drop_first(), b.drop_first());
            if a.drop_first() == b.drop_first() {
                assert(a =~= seq![a[0]] + a.drop_first());
                assert(b =~= seq![b[0]] + b.drop_first());
            }
        } else {
            vstd::utf8::char_u32_cast(a[0], a[0] as u32);
            vstd::utf8::char_u32_cast(b[0], b[0] as u32);
        }
    } else if a.len() == 0 && b.len() == 0 {
        assert(a =~= b);
    }
}

/// Whether `a` sorts before `b`.
pub fn lex_less(a: &[char], b: &[char]) -> (r: bool)
    ensures
        r == lex_lt(a@, b@),
{
    let mut i: usize = 0;
    assert(a@.skip(0) =~= a@);
    assert(b@.skip(0) =~= b@);
    while i < a.len() && i < b.len()
        invariant
            i <= a@.len(),
            i <= b@.len(),
            lex_lt(a@, b@) == lex_lt(a@.skip(i as int), b@.skip(i as int)),
        decreases a@.len() - i,
    {
        let x = a[i];
        let y = b[i];
        proof {
            assert(a@.skip(i as int)[0] == x);
            assert(b@.skip(i as int)[0] == y);
            assert(a@.skip(i as int).drop_first() =~= a@.skip(i + 1));
            assert(b@.skip(i as int).drop_first() =~= b@.skip(i + 1));
        }
        if (x as u32) < (y as u32) {
            return true;
        }
        if x != y {
            return false;
        }
        i = i + 1;
    }
    i < b.len()
}

// ---------------------------------------------------------------------------
// Sorting tokens
// ---------------------------------------------------------------------------

/// The character sequences held by a vector of tokens.
pub open spec fn token_view(v: Seq<Vec<char>>) -> Seq<Seq<char>> {
    v.map_values(|t: Vec<char>| t@)
}

/// `s` is in ascending order.
pub open spec fn ascending(s: Seq<Seq<char>>) -> bool {
    forall|i: int, j: int| 0 <= i < j < s.len() ==> !lex_lt(#[trigger] s[j], #[trigger] s[i])
}

/// `s` is in descending order.
pub open spec fn descending(s: Seq<Seq<char>>) -> bool {
    forall|i: int, j: int| 0 <= i < j < s.len() ==> !lex_lt(#[trigger] s[i], #[trigger] s[j])
}

proof fn lemma_pop_multiset(s: Seq<Seq<char>>)
    requires
        s.len() > 0,
    ensures
        s.to_multiset() == s.drop_last().to_multiset().insert(s.last()),
{
    s.drop_last().to_multiset_ensures();
    assert(s.drop_last().push(s.last()) =~= s);
}

/// The tokens of two ascending vectors, merged into one ascending vector.
fn merge(a: Vec<Vec<char>>, b: Vec<Vec<char>>) -> (out: Vec<Vec<char>>)
    requires
        ascending(token_view(a@)),
        ascending(token_view(b@)),
    ensures
        ascending(token_view(out@)),
        token_view(out@).to_multiset() == token_view(a@).to_multiset().add(
            token_view(b@).to_multiset(),
        ),
{
    broadcast use vstd::seq_lib::group_to_multiset_ensures;

    let ghost total = token_view(a@).to_multiset().add(token_view(b@).to_multiset());
    let mut a = a;
    let mut b = b;
    let mut rev: Vec<Vec<char>> = Vec::new();
    assert(token_view(rev@).to_multiset() =~= Multiset::<Seq<char>>::empty());
    while a.len() > 0 || b.len() > 0
        invariant
            ascending(token_view(a@)),
            ascending(token_view(b@)),
            descending(token_view(rev@)),
            forall|x: int, y: int|
                0 <= x < rev@.len() && 0 <= y < a@.len() ==> !lex_lt(
                    #[trigger] token_view(rev@)[x],
                    #[trigger] token_view(a@)[y],
                ),
            forall|x: int, y: int|
                0 <= x < rev@.len() && 0 <= y < b@.len() ==> !lex_lt(
                    #[trigger] token_view(rev@)[x],
                    #[trigger] token_view(b@)[y],
                ),
            token_view(rev@).to_multiset().add(token_view(a@).to_multiset()).add(
                token_view(b@).to_multiset(),
            ) == total,
        decreases a@.len() + b@.len(),
    {
        let ghost va = token_view(a@);
        let ghost vb = token_view(b@);
        let ghost vr = token_view(rev@);
        let from_a = if a.len() == 0 {
            false
        } else if b.len() == 0 {
            true
        } else {
            !lex_less(a[a.len() - 1].as_slice(), b[b.len() - 1].as_slice())
        };
        let x = if from_a {
            a.pop().unwrap()
        } else {
            b.pop().unwrap()
        };
        proof {
            let xv = x@;
            if from_a {
                assert(token_view(a@) =~= va.drop_last());
                assert(vb =~= token_view(b@));
                lemma_pop_multiset(va);
                assert(xv == va.last());
                // x is the largest of what remains
                assert forall|y: int| 0 <= y < token_view(a@).len() implies !lex_lt(
                    xv,
                    #[trigger] token_view(a@)[y],
                ) by {
                    assert(token_view(a@)[y] == va[y]);
                    assert(!lex_lt(va[va.len() - 1], va[y]) || y == va.len() - 1);
                }
                assert forall|y: int| 0 <= y < vb.len() implies !lex_lt(xv, #[trigger] vb[y]) by {
                    if lex_lt(xv, vb[y]) && vb[y] != vb.last() {
                        assert(!lex_lt(vb[vb.len() - 1], vb[y]));
                        lemma_lex_total(vb[y], vb.last());
                        lemma_lex_transitive(xv, vb[y], vb.last());
                    }
                }
            } else {
                assert(token_view(b@) =~= vb.drop_last());
                assert(va =~= token_view(a@));
                lemma_pop_multiset(vb);
                assert(xv == vb.last());
                assert forall|y: int| 0 <= y < token_view(b@).len() implies !lex_lt(
                    xv,
                    #[trigger] token_view(b@)[y],
                ) by {
                    assert(token_view(b@)[y] == vb[y]);
                    assert(!lex_lt(vb[vb.len() - 1], vb[y]) || y == vb.len() - 1);
                }
                assert forall|y: int| 0 <= y < va.len() implies !lex_lt(xv, #[trigger] va[y]) by {
                    lemma_lex_total(va.last(), xv);
                    if lex_lt(xv, va[y]) && va[y] != va.last() {
                        assert(!lex_lt(va[va.len() - 1], va[y]));
                        lemma_lex_total(va[y], va.last());
                        lemma_lex_transitive(xv, va[y], va.last());
                    }
                }
            }
        }
        rev.push(x);
        proof {
            assert(token_view(rev@) =~= vr.push(x@));
            vr.to_multiset_ensures();
            assert(vr.push(x@).to_multiset() =~= vr.to_multiset().insert(x@));
        }
    }
    assert(token_view(a@).to_multiset() =~= Multiset::<Seq<char>>::empty());
    assert(token_view(b@).to_multiset() =~= Multiset::<Seq<char>>::empty());
    let mut out: Vec<Vec<char>> = Vec::new();
    let ghost full = token_view(rev@);
    assert(token_view(out@).to_multiset() =~= Multiset::<Seq<char>>::empty());
    while rev.len() > 0
        invariant
            descending(token_view(rev@)),
            ascending(token_view(out@)),
            forall|x: int, y: int|
                0 <= x < rev@.len() && 0 <= y < out@.len() ==> !lex_lt(
                    #[trigger] token_view(rev@)[x],
                    #[trigger] token_view(out@)[y],
                ),
            token_view(rev@).to_multiset().add(token_view(out@).to_multiset()) == total,
        decreases rev@.len(),
    {
        let ghost vr = token_view(rev@);
        let ghost vo = token_view(out@);
        let x = rev.pop().unwrap();
        proof {
            assert(token_view(rev@) =~= vr.drop_last());
            lemma_pop_multiset(vr);
            assert(x@ == vr.last());
        }
        out.push(x);
        proof {
            assert(token_view(out@) =~= vo.push(x@));
            vo.to_multiset_ensures();
            assert(vo.push(x@).to_multiset() =~= vo.to_multiset().insert(x@));
            assert forall|i: int, j: int| 0 <= i < j < token_view(out@).len() implies !lex_lt(
                #[trigger] token_view(out@)[j],
                #[trigger] token_view(out@)[i],
            ) by {
                assert(token_view(out@)[i] == vo[i]);
                if j == vo.len() {
                    assert(!lex_lt(vr[vr.len() - 1], vo[i]));
                } else {
                    assert(token_view(out@)[j] == vo[j]);
                }
            }
            assert forall|p: int, q: int|
                0 <= p < token_view(rev@).len() && 0 <= q < token_view(out@).len() implies !lex_lt(
                #[trigger] token_view(rev@)[p],
                #[trigger] token_view(out@)[q],
            ) by {
                assert(token_view(rev@)[p] == vr[p]);
                if q == vo.len() {
                    assert(!lex_lt(vr[p], vr[vr.len() - 1]));
                } else {
                    assert(token_view(out@)[q] == vo[q]);
                }
            }
        }
    }
    assert(token_view(rev@).to_multiset() =~= Multiset::<Seq<char>>::empty());
    out
}

/// The tokens of `v` in ascending order.
pub fn sort_tokens(v: Vec<Vec<char>>) -> (out: Vec<Vec<char>>)
    ensures
        ascending(token_view(out@)),
        token_view(out@).to_multiset() == token_view(v@).to_multiset(),
    decreases v@.len(),
{
    if v.len() <= 1 {
        return v;
    }
    let mut left = v;
    let ghost whole = token_view(left@);
    let mid = left.len() / 2;
    let right = left.split_off(mid);
    proof {
        assert(whole =~= token_view(left@) + token_view(right@));
        vstd::seq_lib::lemma_multiset_commutative(token_view(left@), token_view(right@));
    }
    let sorted_left = sort_tokens(left);
    let sorted_right = sort_tokens(right);
    merge(sorted_left, sorted_right)
}

/// Whether `a` and `b` hold the same characters.
fn same_chars(a: &[char], b: &[char]) -> (r: bool)
    ensures
        r == (a@ == b@),
{
    if a.len() != b.len() {
        return false;
    }
    let mut i: usize = 0;
    while i < a.len()
        invariant
            a@.len() == b@.len(),
            i <= a@.len(),
            forall|m: int| 0 <= m < i ==> a@[m] == b@[m],
        decreases a@.len() - i,
    {
        if a[i] != b[i] {
            return false;
        }
        i = i + 1;
    }
    assert(a@ =~= b@);
    true
}

/// The tokens of the runs, in order.
pub open spec fn run_keys(runs: Seq<(Vec<char>, usize)>) -> Seq<Seq<char>> {
    runs.map_values(|r: (Vec<char>, usize)| r.0@)
}

/// `s` is in strictly ascending order.
pub open spec fn strictly_ascending(s: Seq<Seq<char>>) -> bool {
    forall|i: int, j: int| 0 <= i < j < s.len() ==> lex_lt(#[trigger] s[i], #[trigger] s[j])
}

/// A sequence whose every element is `v` holds `v` as often as it is long, and
/// nothing else.
proof fn lemma_constant_multiset(s: Seq<Seq<char>>, v: Seq<char>)
    requires
        forall|m: int| 0 <= m < s.len() ==> #[trigger] s[m] == v,
    ensures
        s.to_multiset().count(v) == s.len(),
        forall|w: Seq<char>| w != v ==> #[trigger] s.to_multiset().count(w) == 0,
    decreases s.len(),
{
    if s.len() == 0 {
        s.to_multiset_ensures();
        assert(s.to_multiset() =~= Multiset::<Seq<char>>::empty());
    } else {
        let t = s.drop_last();
        assert forall|m: int| 0 <= m < t.len() implies #[trigger] t[m] == v by {
            assert(t[m] == s[m]);
        }
        lemma_constant_multiset(t, v);
        lemma_pop_multiset(s);
        assert(s.last() == s[s.len() - 1]);
    }
}

/// The distinct tokens of an ascending sequence, each with how often it
/// occurs, in ascending order.
pub fn count_runs(s: &Vec<Vec<char>>) -> (runs: Vec<(Vec<char>, usize)>)
    requires
        ascending(token_view(s@)),
    ensures
        strictly_ascending(run_keys(runs@)),
        forall|m: int|
            0 <= m < runs@.len() ==> (#[trigger] runs@[m]).1 == token_view(s@).to_multiset().count(
                runs@[m].0@,
            ) && runs@[m].1 > 0,
        forall|t: Seq<char>|
            token_view(s@).contains(t) ==> exists|m: int|
                0 <= m < runs@.len() && #[trigger] run_keys(runs@)[m] == t,
{
    let ghost v = token_view(s@);
    let n = s.len();
    let mut runs: Vec<(Vec<char>, usize)> = Vec::new();
    let mut i: usize = 0;
    proof {
        v.take(0).to_multiset_ensures();
        assert(v.take(0).to_multiset() =~= Multiset::<Seq<char>>::empty());
    }
    while i < n
        invariant
            n == s@.len(),
            v == token_view(s@),
            ascending(v),
            i <= n,
            0 < i < n ==> v[i as int] != v[i - 1],
            i > 0 ==> runs@.len() > 0 && run_keys(runs@).last() == v[i - 1],
            strictly_ascending(run_keys(runs@)),
            forall|m: int| 0 <= m < runs@.len() && i > 0 ==> !lex_lt(v[i - 1], #[trigger] run_keys(runs@)[m]),
            forall|m: int|
                0 <= m < runs@.len() ==> (#[trigger] runs@[m]).1 == v.take(i as int).to_multiset().count(
                    runs@[m].0@,
                ) && runs@[m].1 > 0,
            forall|t: Seq<char>|
                v.take(i as int).contains(t) ==> exists|m: int|
                    0 <= m < runs@.len() && #[trigger] run_keys(runs@)[m] == t,
        decreases n - i,
    {
        let mut j = i + 1;
        while j < n && same_chars(s[j].as_slice(), s[i].as_slice())
            invariant
                n == s@.len(),
                v == token_view(s@),
                i < j <= n,
                forall|m: int| i <= m < j ==> #[trigger] v[m] == v[i as int],
            decreases n - j,
        {
            j = j + 1;
        }
        let key = vstd::slice::slice_to_vec(s[i].as_slice());
        let ghost x = v[i as int];
        let ghost old_runs = runs@;
        proof {
            let a = v.take(i as int);
            let r = v.subrange(i as int, j as int);
            assert(v.take(j as int) =~= a + r);
            vstd::seq_lib::lemma_multiset_commutative(a, r);
            assert forall|m: int| 0 <= m < r.len() implies #[trigger] r[m] == x by {
                assert(r[m] == v[i + m]);
            }
            lemma_constant_multiset(r, x);
            // every earlier token sorts below x
            if i > 0 {
                lemma_lex_total(v[i - 1], x);
                assert(!lex_lt(x, v[i - 1]));
                assert(lex_lt(v[i - 1], x));
            }
            assert forall|p: int| 0 <= p < a.len() implies lex_lt(#[trigger] a[p], x) by {
                assert(a[p] == v[p]);
                assert(!lex_lt(v[i - 1], v[p]));
                lemma_lex_total(v[p], v[i - 1]);
                if v[p] != v[i - 1] {
                    lemma_lex_transitive(v[p], v[i - 1], x);
                }
            }
            a.to_multiset_ensures();
            assert(!a.contains(x)) by {
                if a.contains(x) {
                    let p = choose|p: int| 0 <= p < a.len() && a[p] == x;
                    assert(lex_lt(a[p], x));
                    lemma_lex_irreflexive(x);
                }
            }
            assert(a.to_multiset().count(x) == 0);
            assert forall|m: int| 0 <= m < old_runs.len() implies lex_lt(
                #[trigger] run_keys(old_runs)[m],
                x,
            ) by {
                let k = run_keys(old_runs)[m];
                assert(!lex_lt(v[i - 1], k));
                lemma_lex_total(k, v[i - 1]);
                if k != v[i - 1] {
                    lemma_lex_transitive(k, v[i - 1], x);
                }
            }
        }
        runs.push((key, j - i));
        proof {
            let a = v.take(i as int);
            let b = v.take(j as int);
            assert(run_keys(runs@) =~= run_keys(old_runs).push(x));
            assert forall|m: int| 0 <= m < runs@.len() implies (#[trigger] runs@[m]).1
                == b.to_multiset().count(runs@[m].0@) && runs@[m].1 > 0 by {
                if m < old_runs.len() {
                    assert(runs@[m] == old_runs[m]);
                    assert(run_keys(old_runs)[m] == old_runs[m].0@);
                    lemma_lex_irreflexive(x);
                    assert(old_runs[m].0@ != x);
                }
            }
            assert forall|t: Seq<char>| b.contains(t) implies exists|m: int|
                0 <= m < runs@.len() && #[trigger] run_keys(runs@)[m] == t by {
                let p = choose|p: int| 0 <= p < b.len() && b[p] == t;
                if p < i {
                    assert(a[p] == t);
                    assert(a.contains(t));
                    let m = choose|m: int| 0 <= m < old_runs.len() && #[trigger] run_keys(old_runs)[m] == t;
                    assert(run_keys(runs@)[m] == t);
                } else {
                    assert(v[p] == x);
                    assert(run_keys(runs@)[old_runs.len() as int] == t);
                }
            }
            assert forall|m: int| 0 <= m < runs@.len() && j > 0 implies !lex_lt(
                v[j - 1],
                #[trigger] run_keys(runs@)[m],
            ) by {
                assert(v[j - 1] == x);
                if m < old_runs.len() {
                    assert(run_keys(runs@)[m] == run_keys(old_runs)[m]);
                    lemma_lex_total(run_keys(old_runs)[m], x);
                } else {
                    lemma_lex_irreflexive(x);
                }
            }
            if j < n {
                assert(v[j as int] != v[j - 1]);
            }
        }
        i = j;
    }
    assert(v.take(n as int) =~= v);
    runs
}

// ---------------------------------------------------------------------------
// Statistics over lines
// ---------------------------------------------------------------------------

/// The tokens of a line, as `tokenize` gives them.
pub open spec fn line_tokens(l: Seq<char>) -> Seq<Seq<char>> {
    word_runs(l).map_values(|r: Seq<char>| lowercase(r))
}

/// In how many of the token lists `t` occurs.
pub open spec fn documents_with(ts: Seq<Seq<Seq<char>>>, t: Seq<char>) -> nat
    decreases ts.len(),
{
    if ts.len() == 0 {
        0
    } else {
        documents_with(ts.drop_last(), t) + if ts.last().contains(t) {
            1nat
        } else {
            0nat
        }
    }
}

/// A token of some list is counted.
proof fn lemma_documents_with_positive(ts: Seq<Seq<Seq<char>>>, t: Seq<char>, q: int)
    requires
        0 <= q < ts.len(),
        ts[q].contains(t),
    ensures
        documents_with(ts, t) > 0,
    decreases ts.len(),
{
    if q < ts.len() - 1 {
        assert(ts.drop_last()[q] == ts[q]);
        lemma_documents_with_positive(ts.drop_last(), t, q);
    }
}

/// A strictly ascending sequence holds each of its elements once.
proof fn lemma_strict_counts(s: Seq<Seq<char>>)
    requires
        strictly_ascending(s),
    ensures
        forall|t: Seq<char>| #[trigger] s.to_multiset().count(t) == if s.contains(t) {
            1nat
        } else {
            0nat
        },
{
    assert(s.no_duplicates()) by {
        assert forall|i: int, j: int| 0 <= i < s.len() && 0 <= j < s.len() && i != j implies s[i]
            != s[j] by {
            if i < j {
                assert(lex_lt(s[i], s[j]));
            } else {
                assert(lex_lt(s[j], s[i]));
            }
            lemma_lex_irreflexive(s[i]);
        }
    }
    s.lemma_multiset_has_no_duplicates();
    s.to_multiset_ensures();
}

/// Where `key` stands among the keys of `runs`, if it is one.
fn find_run(runs: &Vec<(Vec<char>, usize)>, key: &[char]) -> (r: Option<usize>)
    requires
        strictly_ascending(run_keys(runs@)),
    ensures
        r matches Some(m) ==> m < runs@.len() && run_keys(runs@)[m as int] == key@,
        r is None ==> !run_keys(runs@).contains(key@),
{
    let ghost keys = run_keys(runs@);
    let mut lo: usize = 0;
    let mut hi: usize = runs.len();
    while lo < hi
        invariant
            keys == run_keys(runs@),
            strictly_ascending(keys),
            lo <= hi <= runs@.len(),
            forall|m: int| 0 <= m < lo ==> lex_lt(#[trigger] keys[m], key@),
            forall|m: int| hi <= m < runs@.len() ==> lex_lt(key@, #[trigger] keys[m]),
        decreases hi - lo,
    {
        let mid = lo + (hi - lo) / 2;
        let k = runs[mid].0.as_slice();
        proof {
            assert(keys[mid as int] == k@);
        }
        if lex_less(k, key) {
            proof {
                assert forall|m: int| 0 <= m <= mid implies lex_lt(#[trigger] keys[m], key@) by {
                    if m < mid {
                        lemma_lex_transitive(keys[m], keys[mid as int], key@);
                    }
                }
            }
            lo = mid + 1;
        } else if same_chars(k, key) {
            return Some(mid);
        } else {
            proof {
                lemma_lex_total(k@, key@);
                assert forall|m: int| mid <= m < runs@.len() implies lex_lt(key@, #[trigger] keys[m]) by {
                    if m > mid {
                        lemma_lex_transitive(key@, keys[mid as int], keys[m]);
                    }
                }
            }
            hi = mid;
        }
    }
    proof {
        if keys.contains(key@) {
            let m = choose|m: int| 0 <= m < keys.len() && keys[m] == key@;
            lemma_lex_irreflexive(key@);
            if m < lo {
                assert(lex_lt(keys[m], key@));
            } else {
                assert(lex_lt(key@, keys[m]));
            }
        }
    }
    None
}

/// The tokens of `line`, each as characters.
fn token_chars(line: &str) -> (out: Vec<Vec<char>>)
    ensures
        token_view(out@) == line_tokens(line@),
{
    let tokens = tokenize(line);
    let mut out: Vec<Vec<char>> = Vec::new();
    let mut i: usize = 0;
    while i < tokens.len()
        invariant
            i <= tokens@.len(),
            tokens@.len() == word_runs(line@).len(),
            forall|k: int|
                0 <= k < tokens@.len() ==> (#[trigger] tokens@[k])@ == lowercase(word_runs(line@)[k]),
            token_view(out@) == line_tokens(line@).take(i as int),
        decreases tokens@.len() - i,
    {
        let t = text_chars(tokens[i].as_str());
        let ghost prev = token_view(out@);
        out.push(t);
        proof {
            assert(t@ == line_tokens(line@)[i as int]);
            assert(token_view(out@) =~= prev.push(t@));
            assert(token_view(out@) =~= line_tokens(line@).take(i + 1));
        }
        i = i + 1;
    }
    assert(line_tokens(line@).take(i as int) =~= line_tokens(line@));
    out
}

/// `runs` lists the distinct tokens of `tokens` in strictly ascending order,
/// each with how often it occurs.
pub open spec fn runs_describe(tokens: Seq<Seq<char>>, runs: Seq<(Vec<char>, usize)>) -> bool {
    &&& strictly_ascending(run_keys(runs))
    &&& forall|m: int| 0 <= m < runs.len() ==> tokens.contains(#[trigger] run_keys(runs)[m])
    &&& forall|t: Seq<char>|
        tokens.contains(t) ==> exists|m: int| 0 <= m < runs.len() && #[trigger] run_keys(runs)[m] == t
    &&& forall|m: int|
        0 <= m < runs.len() ==> (#[trigger] runs[m]).1 == tokens.to_multiset().count(runs[m].0@)
}

/// The terms of a row of statistics, in order.
pub open spec fn row_terms(row: Seq<(String, usize, usize)>) -> Seq<Seq<char>> {
    row.map_values(|e: (String, usize, usize)| e.0@)
}

/// The token lists of the given lines.
pub open spec fn token_lists(lines: Seq<String>) -> Seq<Seq<Seq<char>>> {
    lines.map_values(|l: String| line_tokens(l@))
}

/// For every line, its distinct tokens in ascending order, each with how often
/// it occurs in that line and in how many of the lines it occurs.
pub fn term_statistics(lines: &Vec<String>) -> (out: Vec<Vec<(String, usize, usize)>>)
    ensures
        out@.len() == lines@.len(),
        forall|k: int|
            0 <= k < out@.len() ==> {
                let row = #[trigger] out@[k]@;
                let tokens = line_tokens(lines@[k]@);
                &&& forall|a: int, b: int|
                    0 <= a < b < row.len() ==> lex_lt(#[trigger] row[a].0@, #[trigger] row[b].0@)
                &&& forall|m: int| 0 <= m < row.len() ==> tokens.contains(#[trigger] row[m].0@)
                &&& forall|t: Seq<char>|
                    tokens.contains(t) ==> exists|m: int| 0 <= m < row.len() && #[trigger] row[m].0@ == t
                &&& forall|m: int|
                    0 <= m < row.len() ==> (#[trigger] row[m]).1 == tokens.to_multiset().count(row[m].0@)
                        && row[m].2 == documents_with(token_lists(lines@), row[m].0@)
            },
        forall|k: int, j: int|
            #![trigger word_runs(lines@[k]@)[j]]
            0 <= k < out@.len() && 0 <= j < word_runs(lines@[k]@).len() ==> row_terms(
                out@[k]@,
            ).contains(lowercase(word_runs(lines@[k]@)[j])),
{
    broadcast use vstd::seq_lib::group_to_multiset_ensures;

    let ghost ts = token_lists(lines@);
    let n = lines.len();
    let mut per_line: Vec<Vec<(Vec<char>, usize)>> = Vec::new();
    let mut all: Vec<Vec<char>> = Vec::new();
    let mut k: usize = 0;
    proof {
        assert(token_view(all@).to_multiset() =~= Multiset::<Seq<char>>::empty());
    }
    while k < n
        invariant
            n == lines@.len(),
            ts == token_lists(lines@),
            k <= n,
            per_line@.len() == k,
            forall|t: Seq<char>|
                #[trigger] token_view(all@).to_multiset().count(t) == documents_with(ts.take(k as int), t),
            forall|q: int|
                0 <= q < k ==> runs_describe(ts[q], #[trigger] per_line@[q]@),
        decreases n - k,
    {
        let toks = token_chars(lines[k].as_str());
        let ghost tk = ts[k as int];
        assert(token_view(toks@) == tk);
        let sorted = sort_tokens(toks);
        let runs = count_runs(&sorted);
        let ghost keys = run_keys(runs@);
        proof {
            tk.to_multiset_ensures();
            token_view(sorted@).to_multiset_ensures();
            assert forall|m: int| 0 <= m < runs@.len() implies tk.contains(#[trigger] keys[m]) by {
                assert(runs@[m].1 > 0);
                assert(keys[m] == runs@[m].0@);
            }
            assert forall|t: Seq<char>| tk.contains(t) implies exists|m: int|
                0 <= m < runs@.len() && #[trigger] keys[m] == t by {
                assert(token_view(sorted@).to_multiset().count(t) > 0);
                assert(token_view(sorted@).contains(t));
            }
            lemma_strict_counts(keys);
        }
        let ghost before = token_view(all@);
        let mut m: usize = 0;
        while m < runs.len()
            invariant
                m <= runs@.len(),
                keys == run_keys(runs@),
                token_view(all@) == before + keys.take(m as int),
            decreases runs@.len() - m,
        {
            let key = vstd::slice::slice_to_vec(runs[m].0.as_slice());
            let ghost prev = token_view(all@);
            proof {
                assert(key@ == keys[m as int]);
            }
            all.push(key);
            proof {
                assert(token_view(all@) =~= prev.push(key@));
                assert(token_view(all@) =~= before + keys.take(m + 1));
            }
            m = m + 1;
        }
        proof {
            assert(keys.take(m as int) =~= keys);
            vstd::seq_lib::lemma_multiset_commutative(before, keys);
            assert(ts.take(k + 1).drop_last() =~= ts.take(k as int));
            assert(ts.take(k + 1).last() == tk);
            assert forall|t: Seq<char>| #[trigger] token_view(all@).to_multiset().count(t)
                == documents_with(ts.take(k + 1), t) by {
                assert(keys.to_multiset().count(t) == if keys.contains(t) {
                    1nat
                } else {
                    0nat
                });
                if keys.contains(t) {
                    let m = choose|m: int| 0 <= m < keys.len() && keys[m] == t;
                    assert(tk.contains(keys[m]));
                }
                if tk.contains(t) {
                    let m = choose|m: int| 0 <= m < runs@.len() && #[trigger] keys[m] == t;
                    assert(keys.contains(t));
                }
            }
        }
        let ghost old_lines = per_line@;
        per_line.push(runs);
        proof {
            assert forall|q: int| 0 <= q < k + 1 implies runs_describe(ts[q], #[trigger] per_line@[q]@) by {
                if q == k {
                    assert(per_line@[q]@ == runs@);
                    assert forall|m: int| 0 <= m < runs@.len() implies (#[trigger] runs@[m]).1
                        == tk.to_multiset().count(runs@[m].0@) by {
                        assert(runs@[m].1 == token_view(sorted@).to_multiset().count(runs@[m].0@));
                    }
                } else {
                    assert(per_line@[q] == old_lines[q]);
                }
            }
        }
        k = k + 1;
    }
    assert(ts.take(n as int) =~= ts);
    assert(k == n);
    let ghost all_view = token_view(all@);
    let sorted_all = sort_tokens(all);
    let df = count_runs(&sorted_all);
    proof {
        token_view(sorted_all@).to_multiset_ensures();
        assert forall|t: Seq<char>| documents_with(ts, t) > 0 implies exists|m: int|
            0 <= m < df@.len() && #[trigger] run_keys(df@)[m] == t by {
            assert(all_view.to_multiset().count(t) == documents_with(ts, t));
            assert(token_view(sorted_all@).contains(t));
        }
        assert forall|m: int| 0 <= m < df@.len() implies (#[trigger] df@[m]).1 == documents_with(
            ts,
            df@[m].0@,
        ) by {
            assert(all_view.to_multiset().count(df@[m].0@) == documents_with(ts, df@[m].0@));
        }
    }
    let mut out: Vec<Vec<(String, usize, usize)>> = Vec::new();
    let mut q: usize = 0;
    while q < n
        invariant
            n == lines@.len(),
            ts == token_lists(lines@),
            per_line@.len() == n,
            q <= n,
            out@.len() == q,
            strictly_ascending(run_keys(df@)),
            forall|m: int|
                0 <= m < df@.len() ==> (#[trigger] df@[m]).1 == documents_with(ts, df@[m].0@),
            forall|t: Seq<char>|
                documents_with(ts, t) > 0 ==> exists|m: int|
                    0 <= m < df@.len() && #[trigger] run_keys(df@)[m] == t,
            forall|p: int|
                0 <= p < n ==> runs_describe(ts[p], #[trigger] per_line@[p]@),
            forall|p: int|
                0 <= p < q ==> {
                    let row = #[trigger] out@[p]@;
                    let tokens = line_tokens(lines@[p]@);
                    &&& forall|a: int, b: int|
                        0 <= a < b < row.len() ==> lex_lt(#[trigger] row[a].0@, #[trigger] row[b].0@)
                    &&& forall|m: int| 0 <= m < row.len() ==> tokens.contains(#[trigger] row[m].0@)
                    &&& forall|t: Seq<char>|
                        tokens.contains(t) ==> exists|m: int|
                            0 <= m < row.len() && #[trigger] row[m].0@ == t
                    &&& forall|m: int|
                        0 <= m < row.len() ==> (#[trigger] row[m]).1 == tokens.to_multiset().count(
                            row[m].0@,
                        ) && row[m].2 == documents_with(token_lists(lines@), row[m].0@)
                },
        decreases n - q,
    {
        let runs = &per_line[q];
        let ghost keys = run_keys(runs@);
        let ghost tq = ts[q as int];
        let mut row: Vec<(String, usize, usize)> = Vec::new();
        let mut m: usize = 0;
        assert(runs@ == per_line@[q as int]@);
        while m < runs.len()
            invariant
                keys == run_keys(runs@),
                forall|i: int| 0 <= i < runs@.len() ==> tq.contains(#[trigger] keys[i]),
                tq == ts[q as int],
                q < ts.len(),
                m <= runs@.len(),
                row@.len() == m,
                forall|i: int| 0 <= i < m ==> (#[trigger] row@[i]).0@ == keys[i] && row@[i].1 == runs@[i].1
                    && row@[i].2 == documents_with(ts, keys[i]),
                strictly_ascending(run_keys(df@)),
                forall|i: int|
                    0 <= i < df@.len() ==> (#[trigger] df@[i]).1 == documents_with(ts, df@[i].0@),
                forall|t: Seq<char>|
                    documents_with(ts, t) > 0 ==> exists|i: int|
                        0 <= i < df@.len() && #[trigger] run_keys(df@)[i] == t,
            decreases runs@.len() - m,
        {
            let key = runs[m].0.as_slice();
            let tf = runs[m].1;
            let count = match find_run(&df, key) {
                Some(i) => df[i].1,
                None => 0,
            };
            proof {
                assert(keys[m as int] == key@);
                assert(tq.contains(key@));
                lemma_documents_with_positive(ts, key@, q as int);
            }
            row.push((string_of(key), tf, count));
            m = m + 1;
        }
        let ghost old_out = out@;
        let ghost r = row@;
        proof {
            let tokens = line_tokens(lines@[q as int]@);
            assert(tokens == tq);
            assert forall|a: int, b: int| 0 <= a < b < r.len() implies lex_lt(
                #[trigger] r[a].0@,
                #[trigger] r[b].0@,
            ) by {
                assert(lex_lt(keys[a], keys[b]));
            }
            assert forall|t: Seq<char>| tokens.contains(t) implies exists|i: int|
                0 <= i < r.len() && #[trigger] r[i].0@ == t by {
                let i = choose|i: int| 0 <= i < runs@.len() && #[trigger] keys[i] == t;
                assert(r[i].0@ == t);
            }
            assert forall|i: int| 0 <= i < r.len() implies (#[trigger] r[i]).1
                == tokens.to_multiset().count(r[i].0@) by {
                assert(r[i].1 == runs@[i].1);
                assert(keys[i] == runs@[i].0@);
            }
            assert forall|i: int| 0 <= i < r.len() implies tokens.contains(#[trigger] r[i].0@) by {
                assert(tq.contains(keys[i]));
            }
        }
        out.push(row);
        proof {
            assert forall|p: int| 0 <= p < q + 1 implies {
                let row = #[trigger] out@[p]@;
                let tokens = line_tokens(lines@[p]@);
                &&& forall|a: int, b: int|
                    0 <= a < b < row.len() ==> lex_lt(#[trigger] row[a].0@, #[trigger] row[b].0@)
                &&& forall|m: int| 0 <= m < row.len() ==> tokens.contains(#[trigger] row[m].0@)
                &&& forall|t: Seq<char>|
                    tokens.contains(t) ==> exists|m: int| 0 <= m < row.len() && #[trigger] row[m].0@ == t
                &&& forall|m: int|
                    0 <= m < row.len() ==> (#[trigger] row[m]).1 == tokens.to_multiset().count(
                        row[m].0@,
                    ) && row[m].2 == documents_with(token_lists(lines@), row[m].0@)
            } by {
                if p < q {
                    assert(out@[p] == old_out[p]);
                } else {
                    assert(out@[p]@ == r);
                }
            }
        }
        q = q + 1;
    }
    proof {
        assert forall|k: int, j: int|
            #![trigger word_runs(lines@[k]@)[j]]
            0 <= k < out@.len() && 0 <= j < word_runs(lines@[k]@).len() implies row_terms(
                out@[k]@,
            ).contains(lowercase(word_runs(lines@[k]@)[j])) by {
            let tokens = line_tokens(lines@[k]@);
            let tj = lowercase(word_runs(lines@[k]@)[j]);
            assert(tokens[j] == tj);
            assert(tokens.contains(tj));
            let row = out@[k]@;
            let m = choose|m: int| 0 <= m < row.len() && #[trigger] row[m].0@ == tj;
            assert(row_terms(row)[m] == tj);
        }
    }
    out
}

} // verus!
