# qalam

A deterministic Arabic morphological analyzer, verified with Verus.

The pipeline lowers text through layered stages — Unicode normalization
(NFC plus a published Arabic fold table), raw-anchored tokenization, clitic
splitting into a ranked forest, templatic pattern matching with strong and
weak roots, and lexicon-confirmed analysis forests — and every stage states
in its contract exactly what it returns.

Layout:

- `src/` — the verified library:
  - `text`, `rank` — character and UTF-8 helpers; the lexicographic order and
    stable sort every ranked list uses;
  - `conf`, `morph_ir`, `provenance`, `trace` — the IR: confidences held
    exactly as millionths, analyses and forests, BLAKE3 content hashes, trace
    events;
  - `unicode`, `tokenize`, `clitics`, `freq` — normalization, tokenization,
    clitic splitting, word frequencies;
  - `patterns`, `roots`, `lexicon`, `analyzer` — pattern table and matching,
    root extraction, the bootstrap lexicon, the analyzer;
  - `render` — the textual renderings the command line prints.
- `tests/` — tests run against the compiled library.
- `app/` — the `qalam` command line: argument parsing, I/O, JSON output, and
  the floating-point view of confidences.
