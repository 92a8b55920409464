# soma_compress

Extractive compression for oversized agent tool results, verified with Verus.

Texts at or below 16 000 bytes, and texts that already hold `[[CMP]]`, pass
through. Larger texts keep their load-bearing lines (tracebacks, error
markers, failing tests, signatures, imports, diff lines, file paths) and, in
the order of a ranking, other non-blank lines until 60% of their bytes (at
least 16 000, at most 32 000) are used; dropped runs of lines become `…` and
the result is wrapped in `[[CMP]]` … `[[/CMP]]`. Content whose every
non-blank line is load-bearing (grep output, say) is left alone, and so is a
text that extraction would not shorten. A result is returned only when it is
strictly smaller than the input.

## Layout

- `src/text.rs` — characters, UTF-8 byte lengths, character classes, runs and
  literal matching.
- `src/patterns.rs` — the detectors that pin a line.
- `src/lines.rs` — splitting into lines, choosing lines under the budget,
  joining the kept lines with `…` marks.
- `src/extract.rs` — character-boundary cuts, the `[[CMP]]` block, head and
  tail truncation, and extraction.
- `src/tokens.rs` — tokens of a line for ranking.
- `src/terms.rs` — per-line term and document frequencies, with tokens
  sorted by code point.
- `src/lib.rs` — `compress`, the budget, and the candidates to rank.
- `src/laws.rs` — properties proved for every input: pass-through, never
  inflating, idempotence, load-bearing lines surviving in order, elision
  marks, the budget, indentation and failing-test lines.
- `app/lib.rs` — the TF-IDF weighting of candidate lines, which computes in
  floating point, and `compress(text)` that ranks the candidates and then calls
  the library.
