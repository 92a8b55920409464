use soma_compress::extract::truncate_text;
use soma_compress::terms::term_statistics;
use soma_compress::{compress, scoring_candidates, MAX_KEEP_CHARS, MIN_PASSTHROUGH_CHARS};

const CMP_START: &str = "[[CMP]]";

const VARIED_PARAGRAPH: &str = "Every ordinary record describes a calm brown river under a pale morning sky.\n\
Repeated context carries durable meaning while low-value details vary by turn.\n\
Stable ordering keeps identical requests aligned with warm provider caches.\n\
Short observations join this paragraph without adding special diagnostics or paths.\n";

const MIXED_PARAGRAPH: &str = "The gateway keeps a stable account of the request and its surrounding context.\n\
A small helper reads the value, trims whitespace, and returns the same result.\n\
let normalized_value = value.trim().to_owned();\n\
2026-08-25T12:34:56Z INFO request completed with a warm cache entry\n\
The next ordinary paragraph preserves enough varied language for ranking.\n";

/// Smooth TF-IDF line scores over the candidate lines, as the ranking that
/// `compress` expects is computed by its callers.
fn line_scores(lines: &[String]) -> Vec<f64> {
    let document_count = lines.len() as f64;
    term_statistics(&lines.to_vec())
        .iter()
        .map(|row| {
            let mut weighted_sum = 0.0;
            let mut norm_squared = 0.0;
            for (_, count, frequency) in row {
                let idf = ((1.0 + document_count) / (1.0 + *frequency as f64)).ln() + 1.0;
                let weight = *count as f64 * idf;
                weighted_sum += weight;
                norm_squared += weight * weight;
            }
            if norm_squared > 0.0 {
                weighted_sum / norm_squared.sqrt()
            } else {
                0.0
            }
        })
        .collect()
}

/// Candidate line indices, highest score first, ties by index.
fn ranking(text: &str) -> Vec<usize> {
    let candidates = scoring_candidates(text);
    let lines: Vec<String> = candidates.iter().map(|(_, line)| line.clone()).collect();
    let scores = line_scores(&lines);
    let mut ranked: Vec<(usize, f64)> = candidates
        .iter()
        .map(|(index, _)| *index)
        .zip(scores)
        .collect();
    ranked.sort_by(|(left_index, left_score), (right_index, right_score)| {
        right_score
            .total_cmp(left_score)
            .then_with(|| left_index.cmp(right_index))
    });
    ranked.into_iter().map(|(index, _)| index).collect()
}

fn compress_text(text: &str) -> Option<String> {
    compress(text, &ranking(text))
}

fn floor_boundary(text: &str, index: usize) -> usize {
    let mut boundary = index.min(text.len());
    while boundary > 0 && !text.is_char_boundary(boundary) {
        boundary -= 1;
    }
    boundary
}

fn repeated_to_len(target_len: usize, paragraph: &str) -> String {
    assert!(!paragraph.is_empty());
    let mut text = String::with_capacity(target_len);
    while text.len() < target_len {
        text.push_str(paragraph);
    }
    text.truncate(floor_boundary(&text, target_len));
    text
}

fn compressed_body(output: &str) -> &str {
    let Some(body) = output.strip_prefix("[[CMP]]\n") else {
        return output;
    };
    body.strip_suffix("\n[[/CMP]]").map_or(body, |body| body)
}

#[test]
fn input_at_or_below_passthrough_floor_returns_none() {
    let text = "x".repeat(MIN_PASSTHROUGH_CHARS);
    assert!(compress_text(&text).is_none());
}

#[test]
fn lorem_input_compresses_and_is_idempotent() {
    let mut text = String::new();
    while text.len() < 60_000 {
        text.push_str(
            "Lorem ipsum dolor sit amet, consectetur adipiscing elit, sed do eiusmod tempor incididunt ut labore et dolore magna aliqua.\n",
        );
    }
    text.truncate(floor_boundary(&text, 60_000));
    assert_eq!(text.len(), 60_000);

    let compressed = compress_text(&text);
    assert!(compressed.is_some(), "60k lorem input was not compressed");
    let output = compressed.as_ref().map_or("", |value| value.as_str());
    assert!(output.len() < text.len());
    assert!(output.contains(CMP_START));
    assert!(compress_text(output).is_none());
}

#[test]
fn multibyte_input_around_byte_caps_does_not_panic() {
    let mut text = String::new();
    while text.len() <= MAX_KEEP_CHARS {
        text.push_str("😀 lorem ipsum dolor sit amet, consectetur adipiscing elit\n");
    }
    let _ = compress_text(&text);

    let emoji_text = "😀".repeat(10_000);
    let truncated = truncate_text(&emoji_text, 16_001, 16_001);
    assert!(truncated.contains(CMP_START));
    assert!(std::str::from_utf8(truncated.as_bytes()).is_ok());
}

#[test]
fn compression_is_deterministic_across_calls() {
    let text = repeated_to_len(60_000, MIXED_PARAGRAPH);
    assert!(text.len() > 53_000);
    let outputs: Vec<Option<String>> = (0..6).map(|_| compress_text(&text)).collect();
    assert!(
        outputs[0].is_some(),
        "oversized mixed input did not compress"
    );
    let expected = outputs[0].as_deref();
    assert!(outputs.iter().all(|output| output.as_deref() == expected));
}

#[test]
fn compression_never_inflates_across_size_sweep() {
    for length in [
        15_999, 16_000, 16_001, 20_000, 26_700, 40_000, 53_400, 80_000,
    ] {
        let text = repeated_to_len(length, VARIED_PARAGRAPH);
        assert_eq!(text.len(), length);
        let output = compress_text(&text);

        if length <= MIN_PASSTHROUGH_CHARS {
            assert!(output.is_none(), "{length} bytes should pass through");
        }
        if let Some(output) = output {
            assert!(
                output.len() < text.len(),
                "compressed {length}-byte input inflated to {} bytes",
                output.len()
            );
        }
    }
}

#[test]
fn pinned_lines_survive_a_large_log() {
    let mut text = String::new();
    for index in 0..4_000 {
        match index {
            137 => {
                text.push_str("Traceback (most recent call last):\n");
                text.push_str("  File \"service/worker.py\", line 42, in handler\n");
                text.push_str("  File \"service/processor.py\", line 17, in process\n");
                text.push_str("AssertionError: boom\n");
            }
            811 => text.push_str("FAILED test_alpha\n"),
            1_711 => text.push_str("tests/test_x.py::test_beta\n"),
            2_333 => text.push_str("django/utils/html.py:236\n"),
            2_811 => text.push_str("import inspect\n"),
            3_011 => text.push_str("from functools import wraps\n"),
            3_211 => text.push_str("def handler(event):\n"),
            3_511 => text.push_str("@@ -1,4 +1,6 @@\n+added line\n-removed line\n"),
            _ => {}
        }
        text.push_str(&format!(
            "INFO filler record {index:04} carries routine context words only\n"
        ));
    }
    assert!(text.len() > 53_000);

    let compressed = compress_text(&text);
    assert!(compressed.is_some(), "large log did not compress");
    let output = compressed.unwrap_or_default();
    for expected in [
        "Traceback (most recent call last):",
        "  File \"service/worker.py\", line 42, in handler",
        "  File \"service/processor.py\", line 17, in process",
        "AssertionError: boom",
        "FAILED test_alpha",
        "tests/test_x.py::test_beta",
        "django/utils/html.py:236",
        "import inspect",
        "from functools import wraps",
        "def handler(event):",
        "@@ -1,4 +1,6 @@",
        "+added line",
        "-removed line",
    ] {
        assert!(
            output.lines().any(|line| line == expected),
            "pinned line was lost: {expected}"
        );
    }
}

#[test]
fn ellipses_mark_head_middle_and_tail_elision() {
    let mut text = String::new();
    for index in 0..4_000 {
        if index == 0 {
            text.push_str("low-value filler line\n");
            continue;
        }
        match index {
            700 => text.push_str("FAILED head_anchor\n"),
            2_000 => text.push_str("django/utils/html.py:236\n"),
            3_300 => text.push_str("def handler(event):\n"),
            _ => {}
        }
        text.push_str(&format!(
            "routine filler record {index:04} contains ordinary context words and no diagnostic signal\n"
        ));
    }
    assert!(text.len() > 53_000);

    let compressed = compress_text(&text);
    assert!(compressed.is_some(), "ellipsis fixture did not compress");
    let output = compressed.unwrap_or_default();
    let body = compressed_body(&output);
    let lines: Vec<_> = body.lines().collect();

    assert_eq!(lines.first().copied(), Some("…"));
    assert!(lines
        .iter()
        .enumerate()
        .any(|(index, line)| { *line == "…" && index > 0 && index + 1 < lines.len() }));
    assert_eq!(lines.last().copied(), Some("…"));
}

#[test]
fn any_existing_compression_marker_is_a_fixed_point() {
    let inputs = [
        "prefix [[CMP]] suffix".to_owned(),
        format!("{}[[CMP]]{}", "x".repeat(50_000), "y".repeat(50_000)),
        format!("[[CMP]]{}", "z".repeat(100_000)),
    ];

    for input in inputs {
        assert!(compress_text(&input).is_none());
    }
}

/// A small deterministic generator standing in for arbitrary input.
struct Lcg(u64);

impl Lcg {
    fn next(&mut self) -> u64 {
        self.0 = self
            .0
            .wrapping_mul(6_364_136_223_846_793_005)
            .wrapping_add(1_442_695_040_888_963_407);
        self.0 >> 33
    }

    fn below(&mut self, bound: u64) -> u64 {
        self.next() % bound
    }

    fn char_in(&mut self, low: char, high: char) -> char {
        let span = high as u64 - low as u64 + 1;
        char::from_u32(low as u32 + self.below(span) as u32).unwrap_or(low)
    }

    fn character(&mut self) -> char {
        match self.below(26) {
            0..=3 => '\n',
            4..=11 => self.char_in('a', 'z'),
            12..=14 => self.char_in('0', '9'),
            15..=17 => self.char_in('\u{00c0}', '\u{024f}'),
            18..=20 => self.char_in('\u{0400}', '\u{04ff}'),
            21..=22 => self.char_in('\u{1f600}', '\u{1f64f}'),
            23..=24 => ' ',
            _ => '\t',
        }
    }
}

#[test]
fn arbitrary_unicode_input_preserves_compression_invariants() {
    let mut generator = Lcg(0x5eed);
    for case in 0..16 {
        let count = if case == 0 {
            0
        } else {
            generator.below(25_001) as usize
        };
        let input: String = (0..count).map(|_| generator.character()).collect();
        if let Some(output) = compress_text(&input) {
            assert!(output.len() < input.len());
            let round_trip = std::str::from_utf8(output.as_bytes());
            assert_eq!(round_trip.ok(), Some(output.as_str()));
            assert_eq!(compress_text(&output), None);
        }
    }
}

#[test]
fn ten_megabyte_single_line_completes() {
    let text = "x".repeat(10_000_000);
    let _ = compress_text(&text);
}

#[test]
fn ten_megabytes_across_two_hundred_thousand_lines_completes() {
    let line = "ordinary filler context words for bounded work check 1234567890\n";
    let text = line.repeat(200_000);
    assert!(text.len() >= 10_000_000);
    assert_eq!(text.lines().count(), 200_000);
    let _ = compress_text(&text);
}
