//! Khmer word segmentation: cluster splitting, orthographic normalization,
//! dictionary-driven boundary selection, and the corpus tooling around them
//! (gold-corpus parsing, frequency and tag counting, span scoring).

pub mod text;
pub mod kcc;
pub mod normalize;
pub mod trie;
pub mod matching;
pub mod strategy;
pub mod tokenizer;
pub mod dictionary;
pub mod orthography;
pub mod bmes;
pub mod features;
pub mod runs;
pub mod wordlist;
pub mod corpus;
pub mod freq;
pub mod hmm_counts;
pub mod kh10000b;
pub mod metrics;
pub mod cli;
pub mod options;
pub mod model_text;
pub mod marked;

pub use kcc::{is_khmer, is_khmer_base, split_kcc};
pub use normalize::normalize;
pub use orthography::normalize_full;
pub use strategy::Strategy;
pub use tokenizer::KhmerTokenizer;
pub use dictionary::DEFAULT_DICT;
pub use corpus::{parse_khpos, parse_alt, Example, Split, AltSplit};
pub use freq::count_frequencies;
pub use hmm_counts::{train_hmm, HmmCounts};
pub use kh10000b::{parse_pair, LoadResult};
pub use wordlist::{clean_wordlist, render_dict_txt};
