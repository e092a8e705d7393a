# khmer_tokenizer

A Khmer word segmenter whose logic is proved correct with Verus.

Written Khmer puts no spaces between words. Segmentation here runs in
passes: the text is normalized (marks typed in the wrong order are moved to
their canonical place), grouped into Khmer Character Clusters, and each run
of Khmer clusters is cut into words by a dictionary strategy (greedy forward
matching, bidirectional matching, or fewest-words dynamic programming, the
default). Runs of other scripts become their own tokens; whitespace and
`U+200B` ZERO WIDTH SPACE separate tokens without producing one. Tokens
joined with ZERO WIDTH SPACE segment back into the same tokens.

## Layout

- `src/` — the verified library.
  - `text.rs` — character-level helpers (trimming, splitting, lines,
    decimal numbers) with their specifications.
  - `kcc.rs` — cluster splitting.
  - `normalize.rs` — mark reordering to a fixed point; its termination,
    idempotence and character preservation.
  - `trie.rs`, `matching.rs`, `tokenizer.rs`, `dictionary.rs`,
    `strategy.rs` — the cluster trie, the boundary strategies and the
    segmenter, with the laws that segmentation loses no text and keeps
    dictionary words whole.
  - `marked.rs` — output marked with ZERO WIDTH SPACE, and the law that it
    reads back as the tokens it was made from.
  - `orthography.rs` — full normalization (spelling corrections and
    re-spacing).
  - `bmes.rs`, `runs.rs`, `features.rs` — the integer side of the
    statistical taggers: BMES tags, training runs, feature strings, key
    escaping, deterministic shuffling.
  - `corpus.rs`, `freq.rs`, `hmm_counts.rs`, `kh10000b.rs`, `metrics.rs`,
    `wordlist.rs`, `cli.rs` — corpus formats, counting, span scoring,
    dictionary preparation and the command-line decisions.
  - `model_text.rs` — the line format of a saved tagger model, read with
    its weights left as text.
  - `options.rs` — the option checks of the JavaScript and Python
    constructors.
- `tests/` — executable tests of the library.
- `app/` — the command-line program and development tasks, file and
  process I/O, the floating-point models (HMM, averaged perceptron, unigram
  scoring) and the Python and WebAssembly bindings (the latter built only
  for `wasm32`).
