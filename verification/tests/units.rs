use soma_compress::extract::{
    ceil_char_boundary, cmp_block, extractive_compress, floor_char_boundary, truncate_text,
};
use soma_compress::lines::{assemble_kept, select_lines, split_lines_of};
use soma_compress::patterns::{
    contains_bounded_word, has_call_signature, has_declaration_signature, has_diff_pattern,
    has_extension, has_from_import_pattern, has_import_pattern, has_path_pattern,
    has_signature_pattern, has_struct_pattern, has_test_line_pattern, is_ascii_word_boundary,
    line_is_pinned, starts_with_keyword,
};
use soma_compress::text::{
    ascii_lowercase, chars_byte_len, is_blank, is_path_character, is_whitespace, is_word_char,
    str_byte_len,
    string_of, text_chars,
};
use soma_compress::terms::{count_runs, lex_less, sort_tokens, term_statistics};
use soma_compress::tokens::tokenize;
use soma_compress::{compress, proportional_cap, scoring_candidates};

fn chars(s: &str) -> Vec<char> {
    s.chars().collect()
}

fn pinned(s: &str) -> bool {
    line_is_pinned(&chars(s))
}

// ---- characters ----------------------------------------------------------

#[test]
fn word_characters_follow_unicode() {
    assert!(is_word_char('a'));
    assert!(is_word_char('_'));
    assert!(is_word_char('7'));
    assert!(is_word_char('é'));
    assert!(is_word_char('ж'));
    assert!(!is_word_char('-'));
    assert!(!is_word_char(' '));
    assert!(!is_word_char('😀'));
    assert!(is_path_character('.'));
    assert!(is_path_character('-'));
    assert!(!is_path_character('/'));
}

#[test]
fn whitespace_is_the_unicode_white_space_property() {
    for code in 0..=0x10_ffff_u32 {
        if let Some(c) = char::from_u32(code) {
            assert_eq!(is_whitespace(c), c.is_whitespace(), "U+{code:04X}");
        }
    }
    assert!(is_whitespace('\u{85}'));
    assert!(is_whitespace('\u{2029}'));
    assert!(!is_whitespace('\u{200b}'));
}

#[test]
fn alphanumeric_characters_are_ascii_letters_and_digits_and_never_white_space() {
    for code in 0..=0x10_ffff_u32 {
        if let Some(c) = char::from_u32(code) {
            assert_eq!(is_word_char(c), c == '_' || c.is_alphanumeric(), "U+{code:04X}");
            if c.is_ascii() {
                assert_eq!(c.is_alphanumeric(), c.is_ascii_alphanumeric(), "U+{code:04X}");
            }
            if c.is_whitespace() {
                assert!(!c.is_alphanumeric(), "U+{code:04X}");
            }
        }
    }
}

#[test]
fn blank_lines_are_all_unicode_whitespace() {
    assert!(is_blank(&chars("")));
    assert!(is_blank(&chars(" \t\u{00a0}\u{3000}")));
    assert!(!is_blank(&chars("  x ")));
}

#[test]
fn byte_lengths_count_utf8_bytes() {
    assert_eq!(str_byte_len("aé😀"), 1 + 2 + 4);
    assert_eq!(chars_byte_len(&chars("aé€😀")), 1 + 2 + 3 + 4);
    assert_eq!(text_chars("aé😀"), vec!['a', 'é', '😀']);
    assert_eq!(string_of(&['h', 'é']), "hé");
}

#[test]
fn ascii_lowercase_leaves_other_characters() {
    assert_eq!(ascii_lowercase(&chars("AbZ É")), chars("abz É"));
}

// ---- word boundaries and keywords -----------------------------------------

#[test]
fn word_boundaries_look_at_neighbours() {
    let s = chars("x AssertionError y");
    assert!(is_ascii_word_boundary(&s, 2, 16));
    assert!(!is_ascii_word_boundary(&s, 1, 16));
    assert!(contains_bounded_word(&s, &chars("AssertionError")));
    assert!(!contains_bounded_word(&chars("MyAssertionError"), &chars("AssertionError")));
    assert!(!contains_bounded_word(&chars("AssertionErrors"), &chars("AssertionError")));
    assert!(contains_bounded_word(&chars("(AssertionError)"), &chars("AssertionError")));
}

#[test]
fn keywords_must_end_at_a_non_word_character() {
    assert!(starts_with_keyword(&chars("import"), &chars("import")));
    assert!(starts_with_keyword(&chars("import os"), &chars("import")));
    assert!(!starts_with_keyword(&chars("imports"), &chars("import")));
    assert!(!starts_with_keyword(&chars("x import"), &chars("import")));
}

// ---- detectors -------------------------------------------------------------

#[test]
fn import_lines() {
    assert!(has_import_pattern(&chars("import os")));
    assert!(has_import_pattern(&chars("import \t sys")));
    assert!(!has_import_pattern(&chars("import")));
    assert!(!has_import_pattern(&chars("import ")));
    assert!(!has_import_pattern(&chars("importer os")));
    assert!(!has_import_pattern(&chars("import -x")));
    assert!(has_from_import_pattern(&chars("from functools import wraps")));
    assert!(has_from_import_pattern(&chars("from a.b import")));
    assert!(!has_from_import_pattern(&chars("from functools importer")));
    assert!(!has_from_import_pattern(&chars("from  import x")));
    assert!(!has_from_import_pattern(&chars("from x")));
}

#[test]
fn structural_lines() {
    assert!(has_struct_pattern(&chars("    import inspect")));
    assert!(has_struct_pattern(&chars("@app.route")));
    assert!(!has_struct_pattern(&chars("@ mention")));
    assert!(has_struct_pattern(&chars("  raise ValueError")));
    assert!(has_struct_pattern(&chars("except:")));
    assert!(!has_struct_pattern(&chars("raised hands")));
}

#[test]
fn failing_test_lines() {
    assert!(has_test_line_pattern(&chars("FAILED test_alpha")));
    assert!(has_test_line_pattern(&chars("ERROR something")));
    assert!(!has_test_line_pattern(&chars("ERROR: something")));
    assert!(has_test_line_pattern(&chars("  XFAIL:x")));
    assert!(!has_test_line_pattern(&chars("FAILED  two spaces")));
    assert!(!has_test_line_pattern(&chars("FAILED")));
    assert!(has_test_line_pattern(&chars("tests/test_x.py::test_beta")));
    assert!(!has_test_line_pattern(&chars("a b.py::c")));
    assert!(!has_test_line_pattern(&chars("x.py:: c")));
    assert!(has_test_line_pattern(&chars("FAIL: test_one (pkg.Case)")));
    assert!(!has_test_line_pattern(&chars("FAIL: test_one (pkg.Case")));
    assert!(has_test_line_pattern(&chars("raise AssertionError")));
    assert!(!has_test_line_pattern(&chars("all good here")));
}

#[test]
fn indentation_never_changes_a_failing_test_line() {
    for line in ["FAILED test_alpha", "FAILED", "x AssertionError", "FAIL: test_one (pkg.Case)", "a b"] {
        for indent in ["", " ", "\t\t", "\u{3000}\u{a0} "] {
            let indented = format!("{indent}{line}");
            assert_eq!(
                has_test_line_pattern(&chars(&indented)),
                has_test_line_pattern(&chars(line)),
                "{indented:?}"
            );
        }
    }
    assert!(has_test_line_pattern(&chars("\u{2003}AssertionError: boom")));
}

#[test]
fn signatures() {
    assert!(has_declaration_signature(&chars("def handler(event):"), &chars("def")));
    assert!(!has_declaration_signature(&chars("undef x"), &chars("def")));
    assert!(!has_declaration_signature(&chars("def"), &chars("def")));
    assert!(has_signature_pattern(&chars("export function go() {")));
    assert!(has_signature_pattern(&chars("const f = (x) => {")));
    assert!(has_signature_pattern(&chars("class Widget:")));
    assert!(has_call_signature(&chars("if check(a, b) :")));
    assert!(!has_call_signature(&chars("check(a, b) then")));
    assert!(!has_call_signature(&chars("(a):")));
    assert!(!has_signature_pattern(&chars("plain words only")));
}

#[test]
fn diffs_and_paths() {
    assert!(has_diff_pattern(&chars("+added")));
    assert!(has_diff_pattern(&chars("  -removed")));
    assert!(has_diff_pattern(&chars("@@ -1 +1 @@")));
    assert!(has_diff_pattern(&chars("diff --git a/x b/x")));
    assert!(!has_diff_pattern(&chars("plain")));
    assert!(has_extension(&chars("html.py")));
    assert!(has_extension(&chars("a.b.c2")));
    assert!(!has_extension(&chars("v1.2")));
    assert!(!has_extension(&chars("trailing.")));
    assert!(has_path_pattern(&chars("django/utils/html.py:236")));
    assert!(has_path_pattern(&chars("see src/lib.rs")));
    assert!(!has_path_pattern(&chars("lib.rs")));
    assert!(!has_path_pattern(&chars("/lib.rs")));
    assert!(!has_path_pattern(&chars("a//lib.rs")));
    assert!(!has_path_pattern(&chars("a/b/v1.2")));
}

#[test]
fn pinned_lines() {
    assert!(pinned("Traceback (most recent call last):"));
    assert!(pinned("  File \"service/worker.py\", line 42, in handler"));
    assert!(pinned("AssertionError: boom"));
    assert!(pinned("Ran 3 tests: failures=1"));
    assert!(pinned("FATAL: disk full"));
    assert!(pinned("FAILED test_alpha"));
    assert!(pinned("import inspect"));
    assert!(pinned("def handler(event):"));
    assert!(pinned("-removed line"));
    assert!(pinned("django/utils/html.py:236"));
    assert!(!pinned(""));
    assert!(!pinned("   \t"));
    assert!(!pinned("INFO filler record 0001 carries routine context words only"));
    assert!(!pinned("low-value filler line"));
}

// ---- tokens ----------------------------------------------------------------

#[test]
fn tokens_are_lowercased_word_runs() {
    assert_eq!(tokenize("Hello, World_1 foo"), vec!["hello", "world_1", "foo"]);
    assert_eq!(tokenize("ÀB-ÇD"), vec!["àb", "çd"]);
    assert_eq!(tokenize("  --  "), Vec::<String>::new());
    assert_eq!(tokenize("x"), vec!["x"]);
    // Lower-casing can lengthen a token but never empties one.
    assert_eq!(tokenize("İx ΑΣ"), vec!["i\u{307}x", "ας"]);
    assert!(tokenize("Ünïcode ÉCOLE İ ǅ").iter().all(|token| !token.is_empty()));
}

// ---- term statistics ------------------------------------------------------------

#[test]
fn tokens_order_by_code_point_with_prefixes_first() {
    assert!(lex_less(&chars("a"), &chars("ab")));
    assert!(lex_less(&chars("ab"), &chars("b")));
    assert!(!lex_less(&chars("b"), &chars("az")));
    assert!(!lex_less(&chars("same"), &chars("same")));
    assert!(lex_less(&chars("z"), &chars("é")));
    assert!(!lex_less(&chars("x"), &chars("")));
}

#[test]
fn sorting_and_counting_tokens() {
    let sorted = sort_tokens(vec![chars("b"), chars("a"), chars("b"), chars("ab"), chars("a")]);
    assert_eq!(
        sorted,
        vec![chars("a"), chars("a"), chars("ab"), chars("b"), chars("b")]
    );
    assert_eq!(
        count_runs(&sorted),
        vec![(chars("a"), 2), (chars("ab"), 1), (chars("b"), 2)]
    );
    assert_eq!(count_runs(&vec![]), vec![]);
}

#[test]
fn term_statistics_give_term_and_document_frequencies() {
    let lines = vec!["B a b".to_string(), "a c".to_string(), "".to_string(), "é z".to_string()];
    let stats = term_statistics(&lines);
    assert_eq!(
        stats,
        vec![
            vec![("a".to_string(), 1, 2), ("b".to_string(), 2, 1)],
            vec![("a".to_string(), 1, 2), ("c".to_string(), 1, 1)],
            vec![],
            vec![("z".to_string(), 1, 1), ("é".to_string(), 1, 1)],
        ]
    );
}

// ---- boundaries, blocks, truncation ----------------------------------------

#[test]
fn char_boundaries_round_inward_and_outward() {
    let s = chars("aéb");
    assert_eq!(floor_char_boundary(&s, 0), 0);
    assert_eq!(floor_char_boundary(&s, 2), 1);
    assert_eq!(floor_char_boundary(&s, 3), 2);
    assert_eq!(floor_char_boundary(&s, 99), 3);
    assert_eq!(ceil_char_boundary(&s, 2), 2);
    assert_eq!(ceil_char_boundary(&s, 1), 1);
    assert_eq!(ceil_char_boundary(&s, 0), 0);
    assert_eq!(ceil_char_boundary(&s, 99), 3);
}

#[test]
fn blocks_trim_newlines() {
    assert_eq!(cmp_block("\n\nabc\n"), "[[CMP]]\nabc\n[[/CMP]]");
    assert_eq!(cmp_block("a\nb"), "[[CMP]]\na\nb\n[[/CMP]]");
    assert_eq!(cmp_block("\n\n"), "[[CMP]][[/CMP]]");
    assert_eq!(cmp_block(""), "[[CMP]][[/CMP]]");
}

#[test]
fn truncation_keeps_head_and_tail() {
    let value = "abcdefghij".repeat(10);
    assert_eq!(
        truncate_text(&value, 5, 5),
        "abcde\n[[CMP]][[/CMP]]\nfghij"
    );
    assert_eq!(truncate_text(&value, 5, 15), value);
    let emoji = "😀".repeat(100);
    let out = truncate_text(&emoji, 6, 6);
    assert_eq!(out, format!("😀\n[[CMP]][[/CMP]]\n{}", "😀"));
}

// ---- extraction ----------------------------------------------------------------

#[test]
fn proportional_cap_is_sixty_percent_within_limits() {
    assert_eq!(proportional_cap(0), 16_000);
    assert_eq!(proportional_cap(10_000), 16_000);
    assert_eq!(proportional_cap(26_666), 16_000);
    assert_eq!(proportional_cap(26_670), 16_002);
    assert_eq!(proportional_cap(40_000), 24_000);
    assert_eq!(proportional_cap(40_004), 24_002);
    assert_eq!(proportional_cap(100_000), 32_000);
    assert_eq!(proportional_cap(usize::MAX), 32_000);
}

#[test]
fn lines_split_at_every_newline() {
    let lines = split_lines_of(&chars("a\n\nbc\n"));
    assert_eq!(lines, vec![chars("a"), vec![], chars("bc"), vec![]]);
    assert_eq!(split_lines_of(&[]), vec![Vec::<char>::new()]);
    let text = "x\n\n yz \n";
    let joined: Vec<String> = split_lines_of(&chars(text))
        .iter()
        .map(|line| line.iter().collect())
        .collect();
    assert_eq!(joined.join("\n"), text);
}

#[test]
fn selection_keeps_pinned_then_ranked_lines_under_budget() {
    let lines = split_lines_of(&chars("alpha beta\nFAILED test_x\ngamma delta\nepsilon\n"));
    assert_eq!(
        select_lines(&lines, 20, &[3, 0, 2]),
        vec![false, true, false, true, false]
    );
    assert_eq!(
        select_lines(&lines, 100, &[3, 0, 2]),
        vec![true, true, true, true, false]
    );
    // Out-of-range, repeated, pinned and blank entries are skipped.
    assert_eq!(
        select_lines(&lines, 100, &[9, 3, 3, 1, 4]),
        vec![false, true, false, true, false]
    );
    assert_eq!(select_lines(&lines, 0, &[0, 2, 3]), vec![false, true, false, false, false]);
}

#[test]
fn assembly_marks_every_gap_once() {
    let lines = split_lines_of(&chars("a\nb\nc\nd\ne"));
    assert_eq!(
        assemble_kept(&lines, &vec![false, true, false, false, true]),
        "…\nb\n…\ne"
    );
    assert_eq!(assemble_kept(&lines, &vec![true, true, false, true, false]), "a\nb\n…\nd\n…");
    assert_eq!(assemble_kept(&lines, &vec![false; 5]), "…");
}

#[test]
fn extraction_on_a_small_text() {
    let text = "alpha beta\nFAILED test_x\ngamma delta\nepsilon\n";
    assert_eq!(
        extractive_compress(text, 20, &[3, 0, 2]),
        ("…\nFAILED test_x\n…\nepsilon\n…".to_string(), true)
    );
    assert_eq!(extractive_compress(text, 45, &[3, 0, 2]), (text.to_string(), false));
    // Every line pinned: the text is left alone.
    let pinned_only = "import os\nimport sys";
    assert_eq!(extractive_compress(pinned_only, 3, &[]), (pinned_only.to_string(), false));
}

#[test]
fn extraction_that_gains_nothing_leaves_the_text() {
    // Keeping the long pinned line, with its closing mark, is not shorter.
    let text = format!("FAILED {}\nx", "y".repeat(300));
    assert_eq!(extractive_compress(&text, 100, &[1]), (text.clone(), false));
}

#[test]
fn extraction_leaves_all_load_bearing_text_alone() {
    // Blank lines do not count against all-load-bearing content, even a run
    // that a single mark would shorten.
    let text = format!("import os\n{}import sys\n", "\n".repeat(40));
    assert_eq!(extractive_compress(&text, 10, &[]), (text.clone(), false));
}

#[test]
fn scoring_candidates_skip_pinned_and_blank_lines() {
    let candidates = scoring_candidates("a\nimport os\n\n  \nb");
    assert_eq!(candidates, vec![(0, "a".to_string()), (4, "b".to_string())]);
}

// ---- compress ------------------------------------------------------------------

fn sample_log() -> String {
    let mut text = String::new();
    for index in 0..600 {
        if index == 300 {
            text.push_str("FAILED test_middle\n");
        }
        text.push_str(&format!("filler line number {index:04} with some words\n"));
    }
    text
}

#[test]
fn compress_uses_the_ranking_order() {
    let text = sample_log();
    assert!(text.len() > 16_000);
    let in_order: Vec<usize> = (0..602).collect();
    let out = compress(&text, &in_order).expect("compresses");
    let body: Vec<&str> = out.lines().collect();
    assert_eq!(body[0], "[[CMP]]");
    assert_eq!(body[1], "filler line number 0000 with some words");
    assert!(body.contains(&"FAILED test_middle"));
    assert_eq!(*body.last().unwrap(), "[[/CMP]]");
    assert!(out.len() < text.len());
    assert_eq!(compress(&out, &in_order), None);

    let reversed: Vec<usize> = (0..602).rev().collect();
    let out = compress(&text, &reversed).expect("compresses");
    let body: Vec<&str> = out.lines().collect();
    assert_eq!(body[1], "…");
    assert!(body.contains(&"FAILED test_middle"));
}

#[test]
fn compress_with_no_ranking_keeps_only_pinned_lines() {
    let text = sample_log();
    let out = compress(&text, &[]).expect("compresses");
    assert_eq!(out, "[[CMP]]\n…\nFAILED test_middle\n…\n[[/CMP]]");
}

#[test]
fn compress_passes_small_marked_and_pinned_texts_through() {
    assert_eq!(compress("short", &[0]), None);
    let marked = format!("{}[[CMP]]", "word ".repeat(5_000));
    assert_eq!(compress(&marked, &[0]), None);
    let pinned_only = "import os\n".repeat(3_000);
    assert!(pinned_only.len() > 16_000);
    assert_eq!(compress(&pinned_only, &[]), None);
    assert_eq!(compress(pinned_only.trim_end_matches('\n'), &[]), None);
}

#[test]
fn grep_output_is_left_untouched() {
    let text = "src/a.rs:1\n".repeat(2_000);
    assert_eq!(text.len(), 22_000);
    assert!(pinned("src/a.rs:1"));
    assert_eq!(compress(&text, &[]), None);
    let ranking: Vec<usize> = (0..2_001).collect();
    assert_eq!(compress(&text, &ranking), None);
    let spaced = "src/a.rs:1\n\n\n\n\n\n".repeat(2_000);
    assert_eq!(compress(&spaced, &[]), None);
}

#[test]
fn compress_leaves_text_alone_when_extraction_gains_nothing() {
    let pinned_line = format!("FAILED {}", "y".repeat(20_000));
    let text = format!("{pinned_line}\nx");
    assert_eq!(compress(&text, &[1]), None);
}

#[test]
fn pinned_lines_come_out_in_input_order() {
    let mut text = String::new();
    let pinned_lines = ["FAILED test_one", "import os", "def handler(event):", "FAILED test_two"];
    for index in 0..800 {
        if index % 200 == 100 {
            text.push_str(pinned_lines[index / 200]);
            text.push('\n');
        }
        text.push_str(&format!("filler line number {index:04} with some words\n"));
    }
    let ranking: Vec<usize> = (0..804).rev().collect();
    let out = compress(&text, &ranking).expect("compresses");
    let body: Vec<&str> = out.lines().collect();
    let positions: Vec<usize> = pinned_lines
        .iter()
        .map(|line| body.iter().position(|b| b == line).expect("pinned line kept"))
        .collect();
    assert!(positions.windows(2).all(|w| w[0] < w[1]));
}
