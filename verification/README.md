# spma

Unsupervised anomaly detection for discrete event sequences by grammar
induction: a hierarchical grammar of patterns is learned from normal
sequences, and a new sequence is scored by the cost of the symbols the
grammar leaves unexplained.

## Layout

- `src/` — the verified library (Verus). Every function carries a contract
  that Verus proves:
  - `intern` — string interning with dense, stable ids;
  - `model` — symbols, gap constraints, patterns, the per-level symbol index;
  - `beam` — coverage bitmask and cursors of partial alignments, and the
    shared match-history arena;
  - `induce` — maximal covered runs, gap grouping, learned (gap) patterns;
  - `ngrams` — counting and ranking of bigrams, trigrams and gap keys;
  - `levels` — pattern-id sequences and next-level patterns;
  - `training` — frequency bookkeeping, candidate pooling, grammar growth;
  - `alignment` — layout of alignment tables;
  - `report` — figures for grammar summaries;
  - `validate` — sequence length limits;
  - `symbols`, `spans`, `tally` — the annotated-symbol engine: input
    classification, symbol types and frequencies, span-tracking alignment
    states, key counting.
- `app/` — the command-line program: I/O, serialisation, and the
  floating-point scoring (MDL gate, bit costs, E_norm calibration) that
  drives the verified steps.
- `tests/` — tests of the library.
