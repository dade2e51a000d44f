# lsh_lock

The verified core of a fuzzy extractor built on locality-sensitive hashing
("LSH then lock"): lockers are sets of template bit positions, drawn
uniformly or weighted by how predictable the bits are; a template unlocks a
locker when it reads the same bits there as the template the locker was made
from. A second, cosine variant works on floating-point embeddings: a locker
is a set of random projections, and it reads the signs of a template's
projections.

Layout:

- `src/` — the library, checked by Verus.
  - `types.rs` — the analysis mode and its case-insensitive parsing.
  - `confidence.rs` — sampling methods, the weighted-sampling state machine,
    bit-pair enumeration and agreement counting, the reading and the writing
    of confidence-report lines.
  - `entropy.rs` — uniform locker generation (a sampling state machine),
    templates, cosine lockers, and the Hamming and sign distances behind the
    entropy estimates.
  - `tar.rs` — true-accept-rate decisions: what a locker reads of a template,
    which templates unlock which (bit lockers and cosine sign vectors), class
    and selection bookkeeping, and the replay of a saved selection.
  - `template_format.rs` — the comma-separated template text format.
  - `text.rs` — character-level helpers (white space, splitting, trimming,
    UTF-8 widths, decimal notation).
  - `hamming.rs` — bit-level Hamming distance (computed by simsimd).
  - `rng.rs` — the random choices (made by rand).
- `tests/` — tests of the library.
- `app/` — the command-line program: files, progress bars, serialisation,
  parallelism, the floating-point projections and all floating-point
  statistics.
