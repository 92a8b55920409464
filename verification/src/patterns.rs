//! Detectors for load-bearing lines: tracebacks and error markers, failing
//! test names, signatures, imports, diff hunks and file paths. A line that any
//! detector accepts is pinned and always survives extraction.
use vstd::prelude::*;
use crate::text::{
    Class, all_whitespace, ascii_lower, ascii_lowercase, contains, contains_chars,
    find_at_or_after, find_from, in_class, is_ascii_alpha, is_ascii_alphabetic, is_blank,
    is_path, is_path_character, is_whitespace, is_word, is_word_char, lemma_find_from,
    lemma_run_end, matches_at, occurs_at, run_end, scan_run, starts_with, text_chars, trim_start,
    trim_start_slice, unicode_white_space, ws_end,
};

verus! {

// ---------------------------------------------------------------------------
// Word-bounded occurrences
// ---------------------------------------------------------------------------

/// `s[start..end]` is not glued to a word character on either side.
pub open spec fn word_bounded(s: Seq<char>, start: int, end: int) -> bool {
    !(start > 0 && is_word(s[start - 1])) && !(end < s.len() && is_word(s[end]))
}

/// Whether `s[start..end]` is not glued to a word character on either side.
pub fn is_ascii_word_boundary(s: &[char], start: usize, end: usize) -> (r: bool)
    requires
        start <= end <= s@.len(),
    ensures
        r == word_bounded(s@, start as int, end as int),
{
    let before_is_word = start > 0 && is_word_char(s[start - 1]);
    let after_is_word = end < s.len() && is_word_char(s[end]);
    !before_is_word && !after_is_word
}

/// `w` occurs in `s` at `i` as a whole word.
pub open spec fn bounded_word_at(s: Seq<char>, w: Seq<char>, i: int) -> bool {
    occurs_at(s, w, i) && word_bounded(s, i, i + w.len())
}

/// `w` occurs somewhere in `s` as a whole word.
pub open spec fn has_bounded_word(s: Seq<char>, w: Seq<char>) -> bool {
    exists|i: int| bounded_word_at(s, w, i)
}

/// Whether `w` occurs in `s` as a whole word. Every occurrence is tried; for
/// words that cannot overlap themselves, as all the detectors' words are, that
/// is the same as trying the non-overlapping matches only.
pub fn contains_bounded_word(s: &[char], w: &[char]) -> (r: bool)
    ensures
        r == has_bounded_word(s@, w@),
{
    if w.len() > s.len() {
        return false;
    }
    let last = s.len() - w.len();
    let mut i: usize = 0;
    loop
        invariant
            i <= last,
            last + w@.len() == s@.len(),
            s@.len() == s.len(),
            forall|m: int| 0 <= m < i ==> !#[trigger] bounded_word_at(s@, w@, m),
        decreases last - i,
    {
        if matches_at(s, i, w) && is_ascii_word_boundary(s, i, i + w.len()) {
            assert(bounded_word_at(s@, w@, i as int));
            return true;
        }
        if i == last {
            return false;
        }
        i = i + 1;
    }
}

/// `kw` occurs at `i` and is not followed by a word character.
pub open spec fn keyword_at(s: Seq<char>, kw: Seq<char>, i: int) -> bool {
    occurs_at(s, kw, i) && (i + kw.len() == s.len() || !is_word(s[i + kw.len()]))
}

/// Whether `s` starts with the keyword `kw` (not followed by a word character).
pub fn starts_with_keyword(s: &[char], kw: &[char]) -> (r: bool)
    ensures
        r == keyword_at(s@, kw@, 0),
{
    if !matches_at(s, 0, kw) {
        return false;
    }
    kw.len() == s.len() || !is_word_char(s[kw.len()])
}

// ---------------------------------------------------------------------------
// Imports, decorators, raise / except
// ---------------------------------------------------------------------------

/// `import <name>`.
pub open spec fn import_pattern(s: Seq<char>) -> bool {
    let k = "import"@.len() as int;
    &&& starts_with(s, "import"@)
    &&& k < s.len()
    &&& unicode_white_space(s[k])
    &&& ws_end(s, k + 1) < s.len()
    &&& is_word(s[ws_end(s, k + 1)])
}

/// Whether `s` is an `import <name>` line.
pub fn has_import_pattern(s: &[char]) -> (r: bool)
    ensures
        r == import_pattern(s@),
{
    let kw = text_chars("import");
    if !matches_at(s, 0, &kw) {
        return false;
    }
    let k = kw.len();
    if k >= s.len() || !is_whitespace(s[k]) {
        return false;
    }
    let j = scan_run(s, k + 1, Class::Whitespace);
    j < s.len() && is_word_char(s[j])
}

/// `from <module> import`.
pub open spec fn from_import_pattern(s: Seq<char>) -> bool {
    let k = "from"@.len() as int;
    let a = ws_end(s, k + 1);
    let m = run_end(s, a, Class::ModuleName);
    let b = ws_end(s, m + 1);
    &&& starts_with(s, "from"@)
    &&& k < s.len()
    &&& unicode_white_space(s[k])
    &&& m > a
    &&& m < s.len()
    &&& unicode_white_space(s[m])
    &&& keyword_at(s, "import"@, b)
}

/// Whether `s` is a `from <module> import` line.
pub fn has_from_import_pattern(s: &[char]) -> (r: bool)
    ensures
        r == from_import_pattern(s@),
{
    let kw = text_chars("from");
    if !matches_at(s, 0, &kw) {
        return false;
    }
    let k = kw.len();
    if k >= s.len() || !is_whitespace(s[k]) {
        return false;
    }
    let a = scan_run(s, k + 1, Class::Whitespace);
    let m = scan_run(s, a, Class::ModuleName);
    if m == a || m >= s.len() || !is_whitespace(s[m]) {
        return false;
    }
    let b = scan_run(s, m + 1, Class::Whitespace);
    let rest = vstd::slice::slice_subrange(s, b, s.len());
    let import_kw = text_chars("import");
    let r = starts_with_keyword(rest, &import_kw);
    proof {
        let t = s@.skip(b as int);
        assert(rest@ == t);
        if keyword_at(t, import_kw@, 0) {
            assert(s@.subrange(b as int, b + import_kw@.len()) =~= t.subrange(0, import_kw@.len() as int));
        }
        if keyword_at(s@, import_kw@, b as int) {
            assert(s@.subrange(b as int, b + import_kw@.len()) =~= t.subrange(0, import_kw@.len() as int));
        }
    }
    r
}

/// Imports, decorators and `raise` / `except` lines, after leading whitespace.
pub open spec fn struct_pattern(s: Seq<char>) -> bool {
    let st = trim_start(s);
    if import_pattern(st) || from_import_pattern(st) {
        true
    } else if st.len() > 0 && st[0] == '@' {
        st.len() > 1 && is_word(st[1])
    } else {
        keyword_at(st, "raise"@, 0) || keyword_at(st, "except"@, 0)
    }
}

/// Whether `s` is an import, a decorator, or a `raise` / `except` line.
pub fn has_struct_pattern(s: &[char]) -> (r: bool)
    ensures
        r == struct_pattern(s@),
{
    let st = trim_start_slice(s);
    if has_import_pattern(st) || has_from_import_pattern(st) {
        return true;
    }
    if st.len() > 0 && st[0] == '@' {
        return st.len() > 1 && is_word_char(st[1]);
    }
    let raise_kw = text_chars("raise");
    let except_kw = text_chars("except");
    starts_with_keyword(st, &raise_kw) || starts_with_keyword(st, &except_kw)
}

// ---------------------------------------------------------------------------
// Test runner output
// ---------------------------------------------------------------------------

/// A status word such as `FAILED`, then `:` or a space, then a non-space.
pub open spec fn status_line_at(st: Seq<char>, p: Seq<char>) -> bool {
    &&& starts_with(st, p)
    &&& p.len() + 2 <= st.len()
    &&& (st[p.len() as int] == ':' || st[p.len() as int] == ' ')
    &&& !unicode_white_space(st[p.len() as int + 1])
}

/// Whether `st` is a status word, then `:` or a space, then a non-space.
fn has_status_prefix(st: &[char], p: &[char]) -> (r: bool)
    ensures
        r == status_line_at(st@, p@),
{
    if !matches_at(st, 0, p) {
        return false;
    }
    let k = p.len();
    if st.len() - k < 2 {
        return false;
    }
    (st[k] == ':' || st[k] == ' ') && !is_whitespace(st[k + 1])
}

/// A pytest node id: the first `.py::` has a non-empty space-free prefix and
/// is followed by a non-space.
pub open spec fn pytest_node_id(st: Seq<char>) -> bool {
    let mk = ".py::"@;
    match find_from(st, mk, 0) {
        Some(k) => {
            &&& k > 0
            &&& (forall|m: int| 0 <= m < k ==> !#[trigger] unicode_white_space(st[m]))
            &&& k + mk.len() < st.len()
            &&& !unicode_white_space(st[k + mk.len()])
        },
        None => false,
    }
}

/// Whether `st` holds a pytest node id.
fn has_pytest_node_id(st: &[char]) -> (r: bool)
    ensures
        r == pytest_node_id(st@),
{
    let mk = text_chars(".py::");
    match find_at_or_after(st, &mk, 0) {
        Some(k) => {
            proof {
                lemma_find_from(st@, mk@, 0);
            }
            if k == 0 {
                return false;
            }
            let j = scan_run(st, 0, Class::NonWhitespace);
            proof {
                lemma_run_end(st@, 0, Class::NonWhitespace);
            }
            if j < k {
                assert(unicode_white_space(st@[j as int]));
                return false;
            }
            assert forall|m: int| 0 <= m < k implies !#[trigger] unicode_white_space(st@[m]) by {
                assert(in_class(st@[m], Class::NonWhitespace));
            }
            assert(k + mk@.len() <= st@.len());
            assert(st@.len() == st.len());
            let after = k + mk.len();
            after < st.len() && !is_whitespace(st[after])
        },
        None => false,
    }
}

/// A unittest failure header: `FAIL: test_x (module.Class)`.
pub open spec fn unittest_header_at(st: Seq<char>, p: Seq<char>) -> bool {
    let t = ": test"@;
    let q = p.len() as int + t.len() as int;
    let j = run_end(st, q, Class::NonWhitespace);
    &&& starts_with(st, p)
    &&& occurs_at(st, t, p.len() as int)
    &&& j + 1 < st.len()
    &&& st[j] == ' '
    &&& st[j + 1] == '('
    &&& exists|m: int| j + 2 <= m < st.len() && #[trigger] st[m] == ')'
}

/// Whether `st` is a unittest failure header for the status word `p`.
fn has_unittest_header(st: &[char], p: &[char]) -> (r: bool)
    ensures
        r == unittest_header_at(st@, p@),
{
    if !matches_at(st, 0, p) {
        return false;
    }
    let t = text_chars(": test");
    if !matches_at(st, p.len(), &t) {
        return false;
    }
    assert(p@.len() + t@.len() <= st@.len());
    assert(st@.len() == st.len());
    let q = p.len() + t.len();
    let j = scan_run(st, q, Class::NonWhitespace);
    if j >= st.len() || st.len() - j < 2 {
        return false;
    }
    if st[j] != ' ' || st[j + 1] != '(' {
        return false;
    }
    let c = scan_run(st, j + 2, Class::NotChar(')'));
    proof {
        lemma_run_end(st@, j + 2, Class::NotChar(')'));
        if c < st@.len() {
            assert(st@[c as int] == ')');
        } else {
            assert forall|m: int| j + 2 <= m < st@.len() implies #[trigger] st@[m] != ')' by {
                assert(in_class(st@[m], Class::NotChar(')')));
            }
        }
    }
    c < st.len()
}

/// Failing-test markers of pytest, unittest and assertion errors.
pub open spec fn test_line_pattern(s: Seq<char>) -> bool {
    let st = trim_start(s);
    ||| status_line_at(st, "FAILED"@)
    ||| status_line_at(st, "ERROR"@)
    ||| status_line_at(st, "FAIL"@)
    ||| status_line_at(st, "XFAIL"@)
    ||| pytest_node_id(st)
    ||| unittest_header_at(st, "FAIL"@)
    ||| unittest_header_at(st, "ERROR"@)
    ||| has_bounded_word(s, "AssertionError"@)
}

/// Whether `s` reports a failing test or an assertion error.
pub fn has_test_line_pattern(s: &[char]) -> (r: bool)
    ensures
        r == test_line_pattern(s@),
{
    let st = trim_start_slice(s);
    let failed = text_chars("FAILED");
    let error = text_chars("ERROR");
    let fail = text_chars("FAIL");
    let xfail = text_chars("XFAIL");
    if has_status_prefix(st, &failed) || has_status_prefix(st, &error) || has_status_prefix(
        st,
        &fail,
    ) || has_status_prefix(st, &xfail) {
        return true;
    }
    if has_pytest_node_id(st) {
        return true;
    }
    if has_unittest_header(st, &fail) || has_unittest_header(st, &error) {
        return true;
    }
    let assertion = text_chars("AssertionError");
    contains_bounded_word(s, &assertion)
}

// ---------------------------------------------------------------------------
// Signatures
// ---------------------------------------------------------------------------

/// The keyword `kw` as a whole word at `i`, then whitespace, then a name.
pub open spec fn declaration_at(s: Seq<char>, kw: Seq<char>, i: int) -> bool {
    let e = i + kw.len();
    &&& bounded_word_at(s, kw, i)
    &&& e < s.len()
    &&& unicode_white_space(s[e])
    &&& ws_end(s, e) < s.len()
    &&& is_word(s[ws_end(s, e)])
}

/// Some declaration with keyword `kw` in `s`.
pub open spec fn declaration_signature(s: Seq<char>, kw: Seq<char>) -> bool {
    exists|i: int| declaration_at(s, kw, i)
}

/// Whether `s` declares something with keyword `kw` (`def f`, `class C`).
pub fn has_declaration_signature(s: &[char], kw: &[char]) -> (r: bool)
    ensures
        r == declaration_signature(s@, kw@),
{
    if kw.len() > s.len() {
        return false;
    }
    let last = s.len() - kw.len();
    let mut i: usize = 0;
    loop
        invariant
            i <= last,
            last + kw@.len() == s@.len(),
            s@.len() == s.len(),
            forall|m: int| 0 <= m < i ==> !#[trigger] declaration_at(s@, kw@, m),
        decreases last - i,
    {
        if matches_at(s, i, kw) && is_ascii_word_boundary(s, i, i + kw.len()) {
            let e = i + kw.len();
            if e < s.len() && is_whitespace(s[e]) {
                let j = scan_run(s, e, Class::Whitespace);
                if j < s.len() && is_word_char(s[j]) {
                    assert(declaration_at(s@, kw@, i as int));
                    return true;
                }
            }
        }
        if i == last {
            return false;
        }
        i = i + 1;
    }
}

/// `=>` followed, after optional whitespace, by `{`.
pub open spec fn arrow_block_at(s: Seq<char>, i: int) -> bool {
    let e = i + "=>"@.len();
    occurs_at(s, "=>"@, i) && ws_end(s, e) < s.len() && s[ws_end(s, e)] == '{'
}

/// Whether `s` holds an arrow function with a block body.
fn has_arrow_block(s: &[char]) -> (r: bool)
    ensures
        r == exists|i: int| arrow_block_at(s@, i),
{
    let arrow = text_chars("=>");
    if arrow.len() > s.len() {
        return false;
    }
    let last = s.len() - arrow.len();
    let mut i: usize = 0;
    loop
        invariant
            i <= last,
            last + arrow@.len() == s@.len(),
            s@.len() == s.len(),
            arrow@ == "=>"@,
            forall|m: int| 0 <= m < i ==> !#[trigger] arrow_block_at(s@, m),
        decreases last - i,
    {
        if matches_at(s, i, &arrow) {
            let j = scan_run(s, i + arrow.len(), Class::Whitespace);
            if j < s.len() && s[j] == '{' {
                assert(arrow_block_at(s@, i as int));
                return true;
            }
        }
        if i == last {
            return false;
        }
        i = i + 1;
    }
}

/// A word starting at `i`, optional whitespace, `(`, up to the first `)`,
/// optional whitespace, then `:`.
pub open spec fn call_signature_at(s: Seq<char>, i: int) -> bool {
    let c1 = run_end(s, i + 1, Class::Word);
    let c2 = ws_end(s, c1);
    let c3 = run_end(s, c2 + 1, Class::NotChar(')'));
    let c4 = ws_end(s, c3 + 1);
    &&& 0 <= i < s.len()
    &&& is_word(s[i])
    &&& (i == 0 || !is_word(s[i - 1]))
    &&& c2 < s.len()
    &&& s[c2] == '('
    &&& c3 < s.len()
    &&& c4 < s.len()
    &&& s[c4] == ':'
}

/// Whether `s` holds `name(...)` followed by `:`.
pub fn has_call_signature(s: &[char]) -> (r: bool)
    ensures
        r == exists|i: int| call_signature_at(s@, i),
{
    let mut index: usize = 0;
    while index < s.len()
        invariant
            index <= s@.len(),
            forall|m: int| 0 <= m < index ==> !#[trigger] call_signature_at(s@, m),
        decreases s@.len() - index,
    {
        if is_word_char(s[index]) && (index == 0 || !is_word_char(s[index - 1])) {
            let c1 = scan_run(s, index + 1, Class::Word);
            let c2 = scan_run(s, c1, Class::Whitespace);
            if c2 < s.len() && s[c2] == '(' {
                let c3 = scan_run(s, c2 + 1, Class::NotChar(')'));
                if c3 < s.len() {
                    let c4 = scan_run(s, c3 + 1, Class::Whitespace);
                    if c4 < s.len() && s[c4] == ':' {
                        assert(call_signature_at(s@, index as int));
                        return true;
                    }
                }
            }
        }
        index = index + 1;
    }
    proof {
        assert forall|m: int| !#[trigger] call_signature_at(s@, m) by {
            if index <= m {
            }
        }
    }
    false
}

/// Function, class and arrow-function signatures, and calls ending in `:`.
pub open spec fn signature_pattern(s: Seq<char>) -> bool {
    ||| declaration_signature(s, "def"@)
    ||| declaration_signature(s, "class"@)
    ||| declaration_signature(s, "function"@)
    ||| (exists|i: int| arrow_block_at(s, i))
    ||| (exists|i: int| call_signature_at(s, i))
}

/// Whether `s` holds a signature.
pub fn has_signature_pattern(s: &[char]) -> (r: bool)
    ensures
        r == signature_pattern(s@),
{
    let def_kw = text_chars("def");
    let class_kw = text_chars("class");
    let function_kw = text_chars("function");
    has_declaration_signature(s, &def_kw) || has_declaration_signature(s, &class_kw)
        || has_declaration_signature(s, &function_kw) || has_arrow_block(s) || has_call_signature(s)
}

// ---------------------------------------------------------------------------
// Diffs and paths
// ---------------------------------------------------------------------------

/// Diff lines: `+`, `-`, `@@`, `diff --git`, `---`, `+++` after leading
/// whitespace.
pub open spec fn diff_pattern(s: Seq<char>) -> bool {
    let st = trim_start(s);
    ||| (st.len() > 0 && (st[0] == '+' || st[0] == '-'))
    ||| starts_with(st, "@@"@)
    ||| starts_with(st, "diff --git"@)
    ||| starts_with(st, "---"@)
    ||| starts_with(st, "+++"@)
}

/// Whether `s` is a diff line.
pub fn has_diff_pattern(s: &[char]) -> (r: bool)
    ensures
        r == diff_pattern(s@),
{
    let st = trim_start_slice(s);
    if st.len() > 0 && (st[0] == '+' || st[0] == '-') {
        return true;
    }
    let hunk = text_chars("@@");
    let git = text_chars("diff --git");
    let minus = text_chars("---");
    let plus = text_chars("+++");
    matches_at(st, 0, &hunk) || matches_at(st, 0, &git) || matches_at(st, 0, &minus)
        || matches_at(st, 0, &plus)
}

/// A `.` followed by an ASCII letter, inside `seg`.
pub open spec fn extension_at(seg: Seq<char>, k: int) -> bool {
    0 <= k && k + 1 < seg.len() && seg[k] == '.' && is_ascii_alpha(seg[k + 1])
}

/// Whether some `.`-separated piece of `segment` after the first starts with
/// an ASCII letter.
pub fn has_extension(segment: &[char]) -> (r: bool)
    ensures
        r == exists|k: int| extension_at(segment@, k),
{
    let mut k: usize = 0;
    while segment.len() > 1 && k < segment.len() - 1
        invariant
            k <= segment@.len(),
            forall|m: int| 0 <= m < k ==> !#[trigger] extension_at(segment@, m),
        decreases segment@.len() - k,
    {
        if segment[k] == '.' && is_ascii_alphabetic(segment[k + 1]) {
            assert(extension_at(segment@, k as int));
            return true;
        }
        k = k + 1;
    }
    false
}

/// A path segment that starts at `i`, right after a `/` that follows another
/// non-empty segment, and has an extension whose dot is at `k`.
pub open spec fn path_extension_at(s: Seq<char>, i: int, k: int) -> bool {
    &&& 2 <= i <= k
    &&& k + 1 < s.len()
    &&& s[i - 1] == '/'
    &&& is_path(s[i - 2])
    &&& (forall|m: int| i <= m <= k + 1 ==> #[trigger] is_path(s[m]))
    &&& s[k] == '.'
    &&& is_ascii_alpha(s[k + 1])
}

/// Some path with at least two segments whose later segment has an extension.
pub open spec fn path_pattern(s: Seq<char>) -> bool {
    exists|i: int, k: int| path_extension_at(s, i, k)
}

/// Whether `s` names a file by a path of two or more segments.
pub fn has_path_pattern(s: &[char]) -> (r: bool)
    ensures
        r == path_pattern(s@),
{
    let mut i: usize = 2;
    while i <= s.len()
        invariant
            2 <= i,
            s@.len() == s.len(),
            forall|a: int, k: int| a < i ==> !#[trigger] path_extension_at(s@, a, k),
        ensures
            i >= s@.len(),
            forall|a: int, k: int| a < i ==> !#[trigger] path_extension_at(s@, a, k),
        decreases s@.len() + 1 - i,
    {
        if s[i - 1] == '/' && is_path_character(s[i - 2]) {
            let e = scan_run(s, i, Class::Path);
            let segment = vstd::slice::slice_subrange(s, i, e);
            let found = has_extension(segment);
            proof {
                lemma_run_end(s@, i as int, Class::Path);
                if found {
                    let k0 = choose|k0: int| extension_at(segment@, k0);
                    assert forall|m: int| i <= m <= i + k0 + 1 implies #[trigger] is_path(s@[m]) by {
                        assert(in_class(s@[m], Class::Path));
                    }
                    assert(path_extension_at(s@, i as int, i + k0));
                } else {
                    assert forall|k: int| !#[trigger] path_extension_at(s@, i as int, k) by {
                        if path_extension_at(s@, i as int, k) {
                            if k + 1 >= e {
                                assert(is_path(s@[e as int]));
                                assert(!in_class(s@[e as int], Class::Path));
                            }
                            assert(extension_at(segment@, k - i));
                        }
                    }
                }
            }
            if found {
                return true;
            }
        }
        if i == s.len() {
            break;
        }
        i = i + 1;
    }
    proof {
        assert forall|a: int, k: int| !#[trigger] path_extension_at(s@, a, k) by {
            if path_extension_at(s@, a, k) {
                assert(a < i || a > s@.len());
            }
        }
    }
    false
}

// ---------------------------------------------------------------------------
// Pinning
// ---------------------------------------------------------------------------

/// One of the error markers, matched in the ASCII-lower-cased line.
pub open spec fn error_marker_hit(lower: Seq<char>) -> bool {
    ||| contains(lower, "traceback (most recent call last)"@)
    ||| contains(lower, "assertionerror"@)
    ||| contains(lower, "error:"@)
    ||| contains(lower, "exception:"@)
    ||| contains(lower, "failed"@)
    ||| contains(lower, "failures="@)
    ||| contains(lower, "errors="@)
    ||| contains(lower, "fatal:"@)
}

/// Whether the lower-cased line holds one of the error markers.
fn has_error_marker(lower: &[char]) -> (r: bool)
    ensures
        r == error_marker_hit(lower@),
{
    contains_chars(lower, &text_chars("traceback (most recent call last)"))
        || contains_chars(lower, &text_chars("assertionerror"))
        || contains_chars(lower, &text_chars("error:"))
        || contains_chars(lower, &text_chars("exception:"))
        || contains_chars(lower, &text_chars("failed"))
        || contains_chars(lower, &text_chars("failures="))
        || contains_chars(lower, &text_chars("errors="))
        || contains_chars(lower, &text_chars("fatal:"))
}

/// A load-bearing line: not blank, and accepted by some detector.
pub open spec fn pinned(s: Seq<char>) -> bool {
    &&& !all_whitespace(s)
    &&& {
        ||| error_marker_hit(s.map_values(|c: char| ascii_lower(c)))
        ||| test_line_pattern(s)
        ||| signature_pattern(s)
        ||| struct_pattern(s)
        ||| diff_pattern(s)
        ||| path_pattern(s)
    }
}

/// Whether `s` is a load-bearing line that extraction must keep.
pub fn line_is_pinned(s: &[char]) -> (r: bool)
    ensures
        r == pinned(s@),
{
    if is_blank(s) {
        return false;
    }
    let lower = ascii_lowercase(s);
    has_error_marker(&lower) || has_test_line_pattern(s) || has_signature_pattern(s)
        || has_struct_pattern(s) || has_diff_pattern(s) || has_path_pattern(s)
}

} // verus!
