//! What the detectors accept: each kind of load-bearing line, described by
//! how it is built, is recognised wherever it stands.
use vstd::prelude::*;
use crate::patterns::{
    arrow_block_at, bounded_word_at, call_signature_at, declaration_at, declaration_signature,
    diff_pattern, error_marker_hit, extension_at, from_import_pattern, has_bounded_word, import_pattern, keyword_at,
    path_extension_at, path_pattern, pinned, pytest_node_id, signature_pattern, status_line_at,
    struct_pattern, test_line_pattern, unittest_header_at,
};
use crate::text::{
    Class, all_whitespace, ascii_lower, contains, find_from, in_class, is_ascii_alpha, is_path,
    lemma_run_end, ws_end,
    is_word, lemma_find_from, occurs_at, run_end,
    starts_with, trim_start, unicode_white_space,
};

verus! {

// ---------------------------------------------------------------------------
// Runs
// ---------------------------------------------------------------------------

/// A run of class `k` from `i` ends at `j` when everything in between is of
/// the class and the character at `j`, if any, is not.
proof fn lemma_run_ends_at(s: Seq<char>, i: int, j: int, k: Class)
    requires
        0 <= i <= j <= s.len(),
        forall|m: int| i <= m < j ==> #[trigger] in_class(s[m], k),
        j == s.len() || !in_class(s[j], k),
    ensures
        run_end(s, i, k) == j,
    decreases j - i,
{
    if i < j {
        lemma_run_ends_at(s, i + 1, j, k);
    }
}

/// Leading whitespace before a line that does not begin with whitespace is
/// what trimming removes.
proof fn lemma_trim_indented(ws: Seq<char>, line: Seq<char>)
    requires
        forall|m: int| 0 <= m < ws.len() ==> unicode_white_space(#[trigger] ws[m]),
        line.len() > 0 ==> !unicode_white_space(line[0]),
    ensures
        trim_start(ws + line) == line,
{
    let s = ws + line;
    assert forall|m: int| 0 <= m < ws.len() implies #[trigger] in_class(s[m], Class::Whitespace) by {
        assert(s[m] == ws[m]);
    }
    if line.len() > 0 {
        assert(s[ws.len() as int] == line[0]);
    }
    lemma_run_ends_at(s, 0, ws.len() as int, Class::Whitespace);
    assert(s.skip(ws.len() as int) =~= line);
}

/// A whitespace character is never a word character.
proof fn lemma_white_space_is_not_word(c: char)
    requires
        unicode_white_space(c),
    ensures
        !is_word(c),
{
}

/// A word character is never whitespace.
proof fn lemma_word_is_not_white_space(c: char)
    requires
        is_word(c),
    ensures
        !unicode_white_space(c),
{
}

// ---------------------------------------------------------------------------
// Failing tests
// ---------------------------------------------------------------------------

/// A status word (`FAILED`, `ERROR`, `FAIL`, `XFAIL`), then `:` or a space,
/// then a non-space marks a failing test, indented or not.
pub proof fn law_status_lines_are_test_lines(
    ws: Seq<char>,
    word: Seq<char>,
    sep: char,
    c: char,
    rest: Seq<char>,
)
    requires
        forall|m: int| 0 <= m < ws.len() ==> unicode_white_space(#[trigger] ws[m]),
        word == "FAILED"@ || word == "ERROR"@ || word == "FAIL"@ || word == "XFAIL"@,
        sep == ':' || sep == ' ',
        !unicode_white_space(c),
    ensures
        test_line_pattern(ws + (word + seq![sep, c] + rest)),
{
    reveal_strlit("FAILED");
    reveal_strlit("ERROR");
    reveal_strlit("FAIL");
    reveal_strlit("XFAIL");
    let line = word + seq![sep, c] + rest;
    assert(line[0] == word[0]);
    lemma_trim_indented(ws, line);
    assert(line.subrange(0, word.len() as int) =~= word);
    assert(line[word.len() as int] == sep);
    assert(line[word.len() as int + 1] == c);
    assert(status_line_at(line, word));
}

/// A pytest node id (a path without spaces or colons, then `.py::`, then a
/// non-space) marks a failing test, indented or not.
pub proof fn law_pytest_node_ids_are_test_lines(
    ws: Seq<char>,
    path: Seq<char>,
    c: char,
    rest: Seq<char>,
)
    requires
        forall|m: int| 0 <= m < ws.len() ==> unicode_white_space(#[trigger] ws[m]),
        path.len() > 0,
        forall|m: int| 0 <= m < path.len() ==> !unicode_white_space(#[trigger] path[m]) && path[m] != ':',
        !unicode_white_space(c),
    ensures
        test_line_pattern(ws + (path + ".py::"@ + seq![c] + rest)),
{
    reveal_strlit(".py::");
    let mk = ".py::"@;
    let line = path + mk + seq![c] + rest;
    let n = path.len() as int;
    assert(line[0] == path[0]);
    lemma_trim_indented(ws, line);
    assert(line.subrange(n, n + 5) =~= mk);
    assert(occurs_at(line, mk, n));
    lemma_find_from(line, mk, 0);
    let k = find_from(line, mk, 0)->0;
    if k < n {
        assert(line.subrange(k, k + 5)[3] == ':');
        assert(line[k + 3] == ':');
        if k + 3 < n {
            assert(line[k + 3] == path[k + 3]);
        } else {
            assert(line.subrange(k, k + 5)[n - k] == line[n]);
            assert(line[n] == '.');
        }
    }
    assert(k == n);
    assert forall|m: int| 0 <= m < k implies !#[trigger] unicode_white_space(line[m]) by {
        assert(line[m] == path[m]);
    }
    assert(line[n + 5] == c);
    assert(pytest_node_id(line));
}

/// A unittest failure header, `FAIL: test_x (pkg.Case)` or the same with
/// `ERROR`, marks a failing test, indented or not.
pub proof fn law_unittest_headers_are_test_lines(
    ws: Seq<char>,
    word: Seq<char>,
    name: Seq<char>,
    rest: Seq<char>,
)
    requires
        forall|m: int| 0 <= m < ws.len() ==> unicode_white_space(#[trigger] ws[m]),
        word == "FAIL"@ || word == "ERROR"@,
        forall|m: int| 0 <= m < name.len() ==> !unicode_white_space(#[trigger] name[m]),
        rest.contains(')'),
    ensures
        test_line_pattern(ws + (word + ": test"@ + name + " ("@ + rest)),
{
    reveal_strlit("FAIL");
    reveal_strlit("ERROR");
    reveal_strlit(": test");
    reveal_strlit(" (");
    let t = ": test"@;
    let line = word + t + name + " ("@ + rest;
    assert(line[0] == word[0]);
    lemma_trim_indented(ws, line);
    let q = word.len() + t.len() as int;
    let j = q + name.len() as int;
    assert forall|m: int| q <= m < j implies #[trigger] in_class(line[m], Class::NonWhitespace) by {
        assert(line[m] == name[m - q]);
    }
    assert(line[j] == ' ');
    lemma_run_ends_at(line, q, j, Class::NonWhitespace);
    assert(line.subrange(0, word.len() as int) =~= word);
    assert(line.subrange(word.len() as int, q) =~= t);
    assert(line[j + 1] == '(');
    let r = choose|r: int| 0 <= r < rest.len() && rest[r] == ')';
    assert(line[j + 2 + r] == ')');
    assert(unittest_header_at(line, word));
}

/// `AssertionError` as a whole word marks a failing test.
pub proof fn law_assertion_errors_are_test_lines(before: Seq<char>, after: Seq<char>)
    requires
        before.len() == 0 || !is_word(before.last()),
        after.len() == 0 || !is_word(after[0]),
    ensures
        test_line_pattern(before + "AssertionError"@ + after),
{
    reveal_strlit("AssertionError");
    let w = "AssertionError"@;
    let s = before + w + after;
    let i = before.len() as int;
    assert(s.subrange(i, i + w.len()) =~= w);
    if i > 0 {
        assert(s[i - 1] == before.last());
    }
    if i + w.len() < s.len() {
        assert(s[i + w.len()] == after[0]);
    }
    assert(bounded_word_at(s, w, i));
    assert(has_bounded_word(s, w));
}

// ---------------------------------------------------------------------------
// Diffs
// ---------------------------------------------------------------------------

/// Diff lines, indented or not: an added or removed line, a hunk header, a
/// file header.
pub proof fn law_diff_lines(ws: Seq<char>, rest: Seq<char>)
    requires
        forall|m: int| 0 <= m < ws.len() ==> unicode_white_space(#[trigger] ws[m]),
    ensures
        diff_pattern(ws + (seq!['+'] + rest)),
        diff_pattern(ws + (seq!['-'] + rest)),
        diff_pattern(ws + ("@@"@ + rest)),
        diff_pattern(ws + ("diff --git"@ + rest)),
{
    reveal_strlit("@@");
    reveal_strlit("diff --git");
    let a = seq!['+'] + rest;
    let b = seq!['-'] + rest;
    let c = "@@"@ + rest;
    let d = "diff --git"@ + rest;
    assert(a[0] == '+');
    assert(b[0] == '-');
    assert(c[0] == '@');
    assert(d[0] == 'd');
    lemma_trim_indented(ws, a);
    lemma_trim_indented(ws, b);
    lemma_trim_indented(ws, c);
    lemma_trim_indented(ws, d);
    assert(c.subrange(0, 2) =~= "@@"@);
    assert(d.subrange(0, 10) =~= "diff --git"@);
}

// ---------------------------------------------------------------------------
// Imports, decorators, raise and except
// ---------------------------------------------------------------------------

/// `import <name>`, indented or not, is a structural line.
pub proof fn law_import_lines(ws: Seq<char>, gap: Seq<char>, c: char, rest: Seq<char>)
    requires
        forall|m: int| 0 <= m < ws.len() ==> unicode_white_space(#[trigger] ws[m]),
        gap.len() > 0,
        forall|m: int| 0 <= m < gap.len() ==> unicode_white_space(#[trigger] gap[m]),
        is_word(c),
    ensures
        struct_pattern(ws + ("import"@ + gap + seq![c] + rest)),
{
    reveal_strlit("import");
    let line = "import"@ + gap + seq![c] + rest;
    assert(line[0] == 'i');
    lemma_trim_indented(ws, line);
    let e = 6 + gap.len() as int;
    assert forall|m: int| 7 <= m < e implies #[trigger] in_class(line[m], Class::Whitespace) by {
        assert(line[m] == gap[m - 6]);
    }
    assert(line[e] == c);
    lemma_word_is_not_white_space(c);
    lemma_run_ends_at(line, 7, e, Class::Whitespace);
    assert(line.subrange(0, 6) =~= "import"@);
    assert(line[6] == gap[0]);
    assert(import_pattern(line));
}

/// `from <module> import`, indented or not, is a structural line.
pub proof fn law_from_import_lines(
    ws: Seq<char>,
    gap1: Seq<char>,
    module: Seq<char>,
    gap2: Seq<char>,
    rest: Seq<char>,
)
    requires
        forall|m: int| 0 <= m < ws.len() ==> unicode_white_space(#[trigger] ws[m]),
        gap1.len() > 0,
        forall|m: int| 0 <= m < gap1.len() ==> unicode_white_space(#[trigger] gap1[m]),
        module.len() > 0,
        forall|m: int| 0 <= m < module.len() ==> is_word(#[trigger] module[m]) || module[m] == '.',
        gap2.len() > 0,
        forall|m: int| 0 <= m < gap2.len() ==> unicode_white_space(#[trigger] gap2[m]),
        rest.len() == 0 || !is_word(rest[0]),
    ensures
        struct_pattern(ws + ("from"@ + gap1 + module + gap2 + "import"@ + rest)),
{
    reveal_strlit("from");
    reveal_strlit("import");
    let line = "from"@ + gap1 + module + gap2 + "import"@ + rest;
    assert(line[0] == 'f');
    lemma_trim_indented(ws, line);
    let a = 4 + gap1.len() as int;
    let m_end = a + module.len() as int;
    let b = m_end + gap2.len() as int;
    assert forall|m: int| 5 <= m < a implies #[trigger] in_class(line[m], Class::Whitespace) by {
        assert(line[m] == gap1[m - 4]);
    }
    assert(line[a] == module[0]);
    if is_word(module[0]) {
        lemma_word_is_not_white_space(module[0]);
    }
    lemma_run_ends_at(line, 5, a, Class::Whitespace);
    assert forall|m: int| a <= m < m_end implies #[trigger] in_class(line[m], Class::ModuleName) by {
        assert(line[m] == module[m - a]);
    }
    assert(line[m_end] == gap2[0]);
    lemma_white_space_is_not_word(gap2[0]);
    lemma_run_ends_at(line, a, m_end, Class::ModuleName);
    assert forall|m: int| m_end + 1 <= m < b implies #[trigger] in_class(line[m], Class::Whitespace) by {
        assert(line[m] == gap2[m - m_end]);
    }
    assert(line[b] == 'i');
    lemma_run_ends_at(line, m_end + 1, b, Class::Whitespace);
    assert(line.subrange(0, 4) =~= "from"@);
    assert(line[4] == gap1[0]);
    assert(line.subrange(b, b + 6) =~= "import"@);
    if b + 6 < line.len() {
        assert(line[b + 6] == rest[0]);
    }
    assert(keyword_at(line, "import"@, b));
    assert(from_import_pattern(line));
}

/// A decorator, `@` and a word character, indented or not, is a structural
/// line.
pub proof fn law_decorator_lines(ws: Seq<char>, c: char, rest: Seq<char>)
    requires
        forall|m: int| 0 <= m < ws.len() ==> unicode_white_space(#[trigger] ws[m]),
        is_word(c),
    ensures
        struct_pattern(ws + (seq!['@', c] + rest)),
{
    let line = seq!['@', c] + rest;
    assert(line[0] == '@');
    assert(line[1] == c);
    lemma_trim_indented(ws, line);
}

/// `raise` or `except` as the first word, indented or not, is a structural
/// line.
pub proof fn law_raise_and_except_lines(ws: Seq<char>, kw: Seq<char>, rest: Seq<char>)
    requires
        forall|m: int| 0 <= m < ws.len() ==> unicode_white_space(#[trigger] ws[m]),
        kw == "raise"@ || kw == "except"@,
        rest.len() == 0 || !is_word(rest[0]),
    ensures
        struct_pattern(ws + (kw + rest)),
{
    reveal_strlit("raise");
    reveal_strlit("except");
    let line = kw + rest;
    assert(line[0] == kw[0]);
    lemma_trim_indented(ws, line);
    assert(line.subrange(0, kw.len() as int) =~= kw);
    if kw.len() < line.len() {
        assert(line[kw.len() as int] == rest[0]);
    }
    assert(keyword_at(line, kw, 0));
}

// ---------------------------------------------------------------------------
// Signatures
// ---------------------------------------------------------------------------

/// `def`, `class` or `function` as a whole word, then whitespace and a name,
/// is a signature.
pub proof fn law_declarations_are_signatures(
    before: Seq<char>,
    kw: Seq<char>,
    gap: Seq<char>,
    c: char,
    rest: Seq<char>,
)
    requires
        kw == "def"@ || kw == "class"@ || kw == "function"@,
        before.len() == 0 || !is_word(before.last()),
        gap.len() > 0,
        forall|m: int| 0 <= m < gap.len() ==> unicode_white_space(#[trigger] gap[m]),
        is_word(c),
    ensures
        signature_pattern(before + kw + gap + seq![c] + rest),
{
    reveal_strlit("def");
    reveal_strlit("class");
    reveal_strlit("function");
    let s = before + kw + gap + seq![c] + rest;
    let i = before.len() as int;
    let e = i + kw.len() as int;
    let f = e + gap.len() as int;
    assert(s.subrange(i, e) =~= kw);
    if i > 0 {
        assert(s[i - 1] == before.last());
    }
    assert(s[e] == gap[0]);
    lemma_white_space_is_not_word(gap[0]);
    assert(bounded_word_at(s, kw, i));
    assert forall|m: int| e <= m < f implies #[trigger] in_class(s[m], Class::Whitespace) by {
        assert(s[m] == gap[m - e]);
    }
    assert(s[f] == c);
    lemma_word_is_not_white_space(c);
    lemma_run_ends_at(s, e, f, Class::Whitespace);
    assert(declaration_at(s, kw, i));
    assert(declaration_signature(s, kw));
}

/// An arrow function with a block body, `=> {`, is a signature.
pub proof fn law_arrow_blocks_are_signatures(before: Seq<char>, gap: Seq<char>, rest: Seq<char>)
    requires
        forall|m: int| 0 <= m < gap.len() ==> unicode_white_space(#[trigger] gap[m]),
    ensures
        signature_pattern(before + "=>"@ + gap + seq!['{'] + rest),
{
    reveal_strlit("=>");
    let s = before + "=>"@ + gap + seq!['{'] + rest;
    let i = before.len() as int;
    let e = i + 2;
    let f = e + gap.len() as int;
    assert(s.subrange(i, e) =~= "=>"@);
    assert forall|m: int| e <= m < f implies #[trigger] in_class(s[m], Class::Whitespace) by {
        assert(s[m] == gap[m - e]);
    }
    assert(s[f] == '{');
    lemma_run_ends_at(s, e, f, Class::Whitespace);
    assert(arrow_block_at(s, i));
}

/// A call-shaped header, `name(args):` with optional spaces, is a signature.
pub proof fn law_call_headers_are_signatures(
    before: Seq<char>,
    name: Seq<char>,
    gap1: Seq<char>,
    args: Seq<char>,
    gap2: Seq<char>,
    rest: Seq<char>,
)
    requires
        before.len() == 0 || !is_word(before.last()),
        name.len() > 0,
        forall|m: int| 0 <= m < name.len() ==> is_word(#[trigger] name[m]),
        forall|m: int| 0 <= m < gap1.len() ==> unicode_white_space(#[trigger] gap1[m]),
        forall|m: int| 0 <= m < args.len() ==> #[trigger] args[m] != ')',
        forall|m: int| 0 <= m < gap2.len() ==> unicode_white_space(#[trigger] gap2[m]),
    ensures
        signature_pattern(
            before + name + gap1 + seq!['('] + args + seq![')'] + gap2 + seq![':'] + rest,
        ),
{
    let s = before + name + gap1 + seq!['('] + args + seq![')'] + gap2 + seq![':'] + rest;
    let i = before.len() as int;
    let c1 = i + name.len() as int;
    let c2 = c1 + gap1.len() as int;
    let c3 = c2 + 1 + args.len() as int;
    let c4 = c3 + 1 + gap2.len() as int;
    assert(s[i] == name[0]);
    if i > 0 {
        assert(s[i - 1] == before.last());
    }
    assert forall|m: int| i + 1 <= m < c1 implies #[trigger] in_class(s[m], Class::Word) by {
        assert(s[m] == name[m - i]);
    }
    if gap1.len() > 0 {
        assert(s[c1] == gap1[0]);
        lemma_white_space_is_not_word(gap1[0]);
    } else {
        assert(s[c1] == '(');
    }
    lemma_run_ends_at(s, i + 1, c1, Class::Word);
    assert forall|m: int| c1 <= m < c2 implies #[trigger] in_class(s[m], Class::Whitespace) by {
        assert(s[m] == gap1[m - c1]);
    }
    assert(s[c2] == '(');
    lemma_run_ends_at(s, c1, c2, Class::Whitespace);
    assert forall|m: int| c2 + 1 <= m < c3 implies #[trigger] in_class(s[m], Class::NotChar(')')) by {
        assert(s[m] == args[m - c2 - 1]);
    }
    assert(s[c3] == ')');
    lemma_run_ends_at(s, c2 + 1, c3, Class::NotChar(')'));
    assert forall|m: int| c3 + 1 <= m < c4 implies #[trigger] in_class(s[m], Class::Whitespace) by {
        assert(s[m] == gap2[m - c3 - 1]);
    }
    assert(s[c4] == ':');
    lemma_run_ends_at(s, c3 + 1, c4, Class::Whitespace);
    assert(call_signature_at(s, i));
}

// ---------------------------------------------------------------------------
// Paths
// ---------------------------------------------------------------------------

/// A path of two segments or more whose last segment has an extension that
/// starts with an ASCII letter names a file.
pub proof fn law_file_paths(
    before: Seq<char>,
    p: char,
    segment: Seq<char>,
    x: char,
    rest: Seq<char>,
)
    requires
        is_path(p),
        forall|m: int| 0 <= m < segment.len() ==> is_path(#[trigger] segment[m]),
        is_ascii_alpha(x),
    ensures
        path_pattern(before + seq![p, '/'] + segment + seq!['.', x] + rest),
{
    let s = before + seq![p, '/'] + segment + seq!['.', x] + rest;
    let i = before.len() as int + 2;
    let k = i + segment.len() as int;
    assert(s[i - 2] == p);
    assert(s[i - 1] == '/');
    assert(s[k] == '.');
    assert(s[k + 1] == x);
    assert forall|m: int| i <= m <= k + 1 implies #[trigger] is_path(s[m]) by {
        if m < k {
            assert(s[m] == segment[m - i]);
        }
    }
    assert(path_extension_at(s, i, k));
}

/// A segment with a `.` followed by an ASCII letter has an extension.
pub proof fn law_extensions(before: Seq<char>, x: char, rest: Seq<char>)
    requires
        is_ascii_alpha(x),
    ensures
        exists|k: int| extension_at(before + seq!['.', x] + rest, k),
{
    let s = before + seq!['.', x] + rest;
    let k = before.len() as int;
    assert(s[k] == '.');
    assert(s[k + 1] == x);
    assert(extension_at(s, k));
}

// ---------------------------------------------------------------------------
// Whole words and keywords
// ---------------------------------------------------------------------------

/// A word between non-word characters (or the ends) occurs as a whole word.
pub proof fn law_whole_words(before: Seq<char>, w: Seq<char>, after: Seq<char>)
    requires
        before.len() == 0 || !is_word(before.last()),
        after.len() == 0 || !is_word(after[0]),
    ensures
        has_bounded_word(before + w + after, w),
{
    let s = before + w + after;
    let i = before.len() as int;
    assert(s.subrange(i, i + w.len()) =~= w);
    if i > 0 {
        assert(s[i - 1] == before.last());
    }
    if i + w.len() < s.len() {
        assert(s[i + w.len()] == after[0]);
    }
    assert(bounded_word_at(s, w, i));
}

/// A whole word is an occurrence: a word glued to a word character on either
/// side does not count there.
pub proof fn law_whole_words_are_not_glued(s: Seq<char>, w: Seq<char>, i: int)
    requires
        bounded_word_at(s, w, i),
    ensures
        occurs_at(s, w, i),
        i > 0 ==> !is_word(s[i - 1]),
        i + w.len() < s.len() ==> !is_word(s[i + w.len()]),
{
}

/// A line starts with a keyword exactly when it starts with the keyword's
/// letters and no word character follows them.
pub proof fn law_keywords(kw: Seq<char>, rest: Seq<char>)
    ensures
        keyword_at(kw + rest, kw, 0) <==> (rest.len() == 0 || !is_word(rest[0])),
{
    let s = kw + rest;
    assert(s.subrange(0, kw.len() as int) =~= kw);
    if kw.len() < s.len() {
        assert(s[kw.len() as int] == rest[0]);
    }
}

// ---------------------------------------------------------------------------
// Pinning
// ---------------------------------------------------------------------------

/// A non-blank line that any detector accepts is pinned: failing tests,
/// signatures, structural lines, diffs and file paths.
pub proof fn law_detected_lines_are_pinned(s: Seq<char>)
    requires
        !all_whitespace(s),
    ensures
        test_line_pattern(s) ==> pinned(s),
        signature_pattern(s) ==> pinned(s),
        struct_pattern(s) ==> pinned(s),
        diff_pattern(s) ==> pinned(s),
        path_pattern(s) ==> pinned(s),
{
}

// ---------------------------------------------------------------------------
// Plain prose
// ---------------------------------------------------------------------------

/// A character of plain prose: an ASCII letter, an ASCII digit or a space.
pub open spec fn prose_char(c: char) -> bool {
    is_ascii_alpha(c) || ('0' <= c && c <= '9') || c == ' '
}

/// An occurrence shows the pattern's characters in place.
proof fn lemma_occurs_char(s: Seq<char>, p: Seq<char>, i: int, d: int)
    requires
        occurs_at(s, p, i),
        0 <= d < p.len(),
    ensures
        s[i + d] == p[d],
{
    assert(s.subrange(i, i + p.len())[d] == s[i + d]);
}

/// An occurrence in a suffix is an occurrence in the whole.
proof fn lemma_occurs_skip(s: Seq<char>, j: int, p: Seq<char>, i: int)
    requires
        0 <= j <= s.len(),
        occurs_at(s.skip(j), p, i),
    ensures
        occurs_at(s, p, i + j),
{
    assert(s.subrange(i + j, i + j + p.len()) =~= s.skip(j).subrange(i, i + p.len()));
}

/// A piece of an occurrence occurs too.
proof fn lemma_occurs_piece(s: Seq<char>, p: Seq<char>, i: int, a: int, b: int)
    requires
        occurs_at(s, p, i),
        0 <= a <= b <= p.len(),
    ensures
        occurs_at(s, p.subrange(a, b), i + a),
{
    assert(s.subrange(i + a, i + b) =~= s.subrange(i, i + p.len()).subrange(a, b));
}

/// A line of plain prose (ASCII letters, digits and spaces) that names no
/// status word, keyword or error marker is not load-bearing: no detector
/// accepts it.
pub proof fn law_plain_prose_is_not_pinned(s: Seq<char>)
    requires
        forall|m: int| 0 <= m < s.len() ==> prose_char(#[trigger] s[m]),
        !contains(s, "FAIL"@),
        !contains(s, "ERROR"@),
        !contains(s, "AssertionError"@),
        !contains(s, "def"@),
        !contains(s, "class"@),
        !contains(s, "function"@),
        !contains(s, "import"@),
        !contains(s, "from"@),
        !contains(s, "raise"@),
        !contains(s, "except"@),
        !contains(s.map_values(|c: char| ascii_lower(c)), "failed"@),
        !contains(s.map_values(|c: char| ascii_lower(c)), "assertionerror"@),
    ensures
        !pinned(s),
{
    reveal_strlit("FAIL");
    reveal_strlit("FAILED");
    reveal_strlit("XFAIL");
    reveal_strlit("ERROR");
    reveal_strlit(".py::");
    reveal_strlit(": test");
    reveal_strlit("AssertionError");
    reveal_strlit("def");
    reveal_strlit("class");
    reveal_strlit("function");
    reveal_strlit("import");
    reveal_strlit("from");
    reveal_strlit("raise");
    reveal_strlit("except");
    reveal_strlit("=>");
    reveal_strlit("@@");
    reveal_strlit("diff --git");
    reveal_strlit("---");
    reveal_strlit("+++");
    reveal_strlit("traceback (most recent call last)");
    reveal_strlit("error:");
    reveal_strlit("exception:");
    reveal_strlit("failures=");
    reveal_strlit("errors=");
    reveal_strlit("fatal:");
    let lower = s.map_values(|c: char| ascii_lower(c));
    assert forall|m: int| 0 <= m < lower.len() implies prose_char(#[trigger] lower[m]) by {
        assert(prose_char(s[m]));
    }
    // error markers: each holds a character that is not prose, or is excluded
    if error_marker_hit(lower) {
        if contains(lower, "traceback (most recent call last)"@) {
            let i = choose|i: int| occurs_at(lower, "traceback (most recent call last)"@, i);
            lemma_occurs_char(lower, "traceback (most recent call last)"@, i, 10);
            assert(!prose_char(lower[i + 10]));
        } else if contains(lower, "error:"@) {
            let i = choose|i: int| occurs_at(lower, "error:"@, i);
            lemma_occurs_char(lower, "error:"@, i, 5);
            assert(!prose_char(lower[i + 5]));
        } else if contains(lower, "exception:"@) {
            let i = choose|i: int| occurs_at(lower, "exception:"@, i);
            lemma_occurs_char(lower, "exception:"@, i, 9);
            assert(!prose_char(lower[i + 9]));
        } else if contains(lower, "failures="@) {
            let i = choose|i: int| occurs_at(lower, "failures="@, i);
            lemma_occurs_char(lower, "failures="@, i, 8);
            assert(!prose_char(lower[i + 8]));
        } else if contains(lower, "errors="@) {
            let i = choose|i: int| occurs_at(lower, "errors="@, i);
            lemma_occurs_char(lower, "errors="@, i, 6);
            assert(!prose_char(lower[i + 6]));
        } else if contains(lower, "fatal:"@) {
            let i = choose|i: int| occurs_at(lower, "fatal:"@, i);
            lemma_occurs_char(lower, "fatal:"@, i, 5);
            assert(!prose_char(lower[i + 5]));
        }
    }
    let j = run_end(s, 0, Class::Whitespace);
    lemma_run_end(s, 0, Class::Whitespace);
    let st = trim_start(s);
    assert(st == s.skip(j));
    assert forall|m: int| 0 <= m < st.len() implies prose_char(#[trigger] st[m]) by {
        assert(st[m] == s[m + j]);
    }
    // failing tests
    if status_line_at(st, "FAILED"@) {
        lemma_occurs_skip(s, j, "FAILED"@, 0);
        lemma_occurs_piece(s, "FAILED"@, j, 0, 4);
        assert("FAILED"@.subrange(0, 4) =~= "FAIL"@);
    }
    if status_line_at(st, "XFAIL"@) {
        lemma_occurs_skip(s, j, "XFAIL"@, 0);
        lemma_occurs_piece(s, "XFAIL"@, j, 1, 5);
        assert("XFAIL"@.subrange(1, 5) =~= "FAIL"@);
    }
    if status_line_at(st, "FAIL"@) {
        lemma_occurs_skip(s, j, "FAIL"@, 0);
    }
    if status_line_at(st, "ERROR"@) {
        lemma_occurs_skip(s, j, "ERROR"@, 0);
    }
    if pytest_node_id(st) {
        lemma_find_from(st, ".py::"@, 0);
        let k = find_from(st, ".py::"@, 0)->0;
        lemma_occurs_char(st, ".py::"@, k, 0);
        assert(!prose_char(st[k]));
    }
    if unittest_header_at(st, "FAIL"@) {
        lemma_occurs_char(st, ": test"@, 4, 0);
        assert(!prose_char(st[4]));
    }
    if unittest_header_at(st, "ERROR"@) {
        lemma_occurs_char(st, ": test"@, 5, 0);
        assert(!prose_char(st[5]));
    }
    if has_bounded_word(s, "AssertionError"@) {
        let i = choose|i: int| bounded_word_at(s, "AssertionError"@, i);
        assert(occurs_at(s, "AssertionError"@, i));
    }
    // signatures
    if declaration_signature(s, "def"@) {
        let i = choose|i: int| declaration_at(s, "def"@, i);
        assert(occurs_at(s, "def"@, i));
    }
    if declaration_signature(s, "class"@) {
        let i = choose|i: int| declaration_at(s, "class"@, i);
        assert(occurs_at(s, "class"@, i));
    }
    if declaration_signature(s, "function"@) {
        let i = choose|i: int| declaration_at(s, "function"@, i);
        assert(occurs_at(s, "function"@, i));
    }
    if exists|i: int| arrow_block_at(s, i) {
        let i = choose|i: int| arrow_block_at(s, i);
        lemma_occurs_char(s, "=>"@, i, 0);
        assert(!prose_char(s[i]));
    }
    if exists|i: int| call_signature_at(s, i) {
        let i = choose|i: int| call_signature_at(s, i);
        let c1 = run_end(s, i + 1, Class::Word);
        lemma_run_end(s, i + 1, Class::Word);
        let c2 = ws_end(s, c1);
        lemma_run_end(s, c1, Class::Whitespace);
        assert(s[c2] == '(');
        assert(!prose_char(s[c2]));
    }
    // imports, decorators, raise and except
    if import_pattern(st) {
        lemma_occurs_skip(s, j, "import"@, 0);
    }
    if from_import_pattern(st) {
        lemma_occurs_skip(s, j, "from"@, 0);
    }
    if st.len() > 0 && st[0] == '@' {
        assert(!prose_char(st[0]));
    }
    if keyword_at(st, "raise"@, 0) {
        lemma_occurs_skip(s, j, "raise"@, 0);
    }
    if keyword_at(st, "except"@, 0) {
        lemma_occurs_skip(s, j, "except"@, 0);
    }
    // diffs
    if st.len() > 0 {
        assert(prose_char(st[0]));
    }
    if starts_with(st, "@@"@) {
        lemma_occurs_char(st, "@@"@, 0, 0);
    }
    if starts_with(st, "diff --git"@) {
        lemma_occurs_char(st, "diff --git"@, 0, 5);
        assert(!prose_char(st[5]));
    }
    if starts_with(st, "---"@) {
        lemma_occurs_char(st, "---"@, 0, 0);
    }
    if starts_with(st, "+++"@) {
        lemma_occurs_char(st, "+++"@, 0, 0);
    }
    // paths
    if path_pattern(s) {
        let (i, k) = choose|i: int, k: int| path_extension_at(s, i, k);
        assert(!prose_char(s[i - 1]));
    }
}

} // verus!
