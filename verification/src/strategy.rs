//! Selects which boundary-choosing algorithm segmentation uses.

use vstd::prelude::*;
use crate::text::str_eq;

verus! {

/// Which segmentation algorithm a tokenizer uses.
#[derive(Clone, Copy, PartialEq, Eq, Structural, Debug)]
pub enum Strategy {
    /// Greedy longest match, left to right.
    ForwardMaxMatch,
    /// Fewest-words dynamic programming over the graph of every dictionary
    /// match: fewest tokens first, then the most characters covered by
    /// dictionary words, then the longest word at the current position.
    /// Unlike greedy matching it can backtrack. The default.
    MinWordsDp,
    /// Bidirectional maximum matching: forward and backward longest match,
    /// on disagreement fewer tokens wins, then fewer single-cluster tokens,
    /// then the forward result.
    BiMaxMatch,
    /// Unigram maximum-probability path over the same match graph, scored
    /// with word frequencies. Without frequencies there is nothing to score
    /// and it segments as [`Strategy::ForwardMaxMatch`].
    UnigramDp,
    /// Full statistical BMES tagging by a trained tagger model. Without a
    /// model it segments as [`Strategy::MinWordsDp`].
    Tagger,
}

/// The strategy a command-line or binding name selects.
pub open spec fn strategy_named(name: Seq<char>) -> Option<Strategy> {
    if name == "minwords"@ {
        Some(Strategy::MinWordsDp)
    } else if name == "fmm"@ {
        Some(Strategy::ForwardMaxMatch)
    } else if name == "bimm"@ {
        Some(Strategy::BiMaxMatch)
    } else if name == "unigram"@ {
        Some(Strategy::UnigramDp)
    } else if name == "tagger"@ {
        Some(Strategy::Tagger)
    } else {
        None
    }
}

/// The strategy named `name` (`minwords`, `fmm`, `bimm`, `unigram` or
/// `tagger`), if any.
pub fn strategy_from_name(name: &str) -> (r: Option<Strategy>)
    ensures
        r == strategy_named(name@),
{
    if str_eq(name, "minwords") {
        Some(Strategy::MinWordsDp)
    } else if str_eq(name, "fmm") {
        Some(Strategy::ForwardMaxMatch)
    } else if str_eq(name, "bimm") {
        Some(Strategy::BiMaxMatch)
    } else if str_eq(name, "unigram") {
        Some(Strategy::UnigramDp)
    } else if str_eq(name, "tagger") {
        Some(Strategy::Tagger)
    } else {
        None
    }
}

impl Default for Strategy {
    fn default() -> (s: Strategy)
        ensures
            s == Strategy::MinWordsDp,
    {
        Strategy::MinWordsDp
    }
}


/// What segments a Khmer run.
#[derive(Clone, Copy, PartialEq, Eq, Structural, Debug)]
pub enum RunTier {
    /// The unigram maximum-probability path over word frequencies.
    Unigram,
    /// The statistical tagger, over the whole run.
    Tagger,
    /// The dictionary strategy.
    Dictionary,
}

/// What re-segments the stretches of a run that matched no dictionary
/// word.
#[derive(Clone, Copy, PartialEq, Eq, Structural, Debug)]
pub enum Fallback {
    /// Nothing: unmatched clusters stay one token each.
    Clusters,
    /// The statistical tagger.
    Tagger,
    /// The HMM.
    Hmm,
}

/// How a run is segmented: the tier that cuts it, and the fallback for
/// what that tier left unmatched.
pub open spec fn plan_of(
    strategy: Strategy,
    has_frequencies: bool,
    has_tagger: bool,
    has_hmm: bool,
) -> (RunTier, Fallback) {
    let tier = if strategy == Strategy::UnigramDp && has_frequencies {
        RunTier::Unigram
    } else if strategy == Strategy::Tagger && has_tagger {
        RunTier::Tagger
    } else {
        RunTier::Dictionary
    };
    let fallback = if tier == RunTier::Tagger {
        Fallback::Clusters
    } else if has_tagger {
        Fallback::Tagger
    } else if has_hmm {
        Fallback::Hmm
    } else {
        Fallback::Clusters
    };
    (tier, fallback)
}

/// Choose how a Khmer run is segmented. `UnigramDp` scores with
/// frequencies when there are any and `Tagger` tags the whole run when a
/// model is attached; otherwise the dictionary strategy cuts the run
/// (forward max-match for `UnigramDp`, fewest words for `Tagger`). What a dictionary or unigram cut leaves
/// unmatched goes to the tagger when one is attached, else to the HMM when
/// one is, else stays one token per cluster.
pub fn run_plan(strategy: Strategy, has_frequencies: bool, has_tagger: bool, has_hmm: bool) -> (r:
    (RunTier, Fallback))
    ensures
        r == plan_of(strategy, has_frequencies, has_tagger, has_hmm),
{
    let tier = if strategy == Strategy::UnigramDp && has_frequencies {
        RunTier::Unigram
    } else if strategy == Strategy::Tagger && has_tagger {
        RunTier::Tagger
    } else {
        RunTier::Dictionary
    };
    let fallback = if tier == RunTier::Tagger {
        Fallback::Clusters
    } else if has_tagger {
        Fallback::Tagger
    } else if has_hmm {
        Fallback::Hmm
    } else {
        Fallback::Clusters
    };
    (tier, fallback)
}

} // verus!
