//! The dictionary-backed Khmer word segmenter.
//!
//! Text is split into clusters; whitespace and `U+200B` ZERO WIDTH SPACE
//! separate tokens without producing one, and no word is assembled across
//! them; each maximal run of non-Khmer clusters becomes one
//! token; each maximal run of Khmer clusters is handed to the configured
//! [`Strategy`].

use vstd::prelude::*;
use crate::kcc::{
    kcc, khmer, is_khmer, split_kcc, split_kcc_chars, law_clusters_rejoin, cluster_shaped,
    lemma_kcc_shape,
};
use crate::matching::{
    Run,
    Dict,
    tviews,
    fmm,
    bmm,
    bimm,
    singles,
    minwords,
    char_len,
    lemma_char_len_split,
    forward_match,
    bimm_match,
    min_words,
    match_graph,
    graph_row,
    ints,
    unmatched_runs,
    gather_from,
    pviews,
    all_nonempty,
    law_tokens_rejoin_run,
};
use crate::normalize::{normalize, normal_form};
use crate::strategy::Strategy;
use crate::text::{
    views, str_chars, trim, trimmed, string_of, concat_strings, without, Sep, is_ws,
    lemma_trimmed_nonempty, lemma_without_keeps_all,
};
use crate::trie::{TrieNode, has_word, dict_of};

verus! {

/// The dictionary with every word read backwards.
pub open spec fn rev_dict(d: Dict) -> Dict {
    Set::new(|w: Run| d.contains(w.reverse()))
}

/// The tokens a strategy makes of one Khmer run, each a cluster sequence.
/// The dictionary holds no frequencies and no tagger model, so
/// `UnigramDp` falls back to forward max-match and `Tagger` to fewest
/// words.
pub open spec fn run_tokens(strategy: Strategy, run: Run, d: Dict) -> Seq<Run> {
    match strategy {
        Strategy::ForwardMaxMatch => fmm(run, d),
        Strategy::UnigramDp => fmm(run, d),
        Strategy::BiMaxMatch => bimm(run, d, rev_dict(d)),
        _ => minwords(run, d),
    }
}

/// A cluster that separates words and is never emitted: whitespace only,
/// or `U+200B` ZERO WIDTH SPACE, the Khmer word-boundary marker.
pub open spec fn sep_cluster(c: Seq<char>) -> bool {
    trimmed(c).len() == 0 || c == seq!['\u{200B}']
}

/// A cluster starting with a Khmer-block character.
pub open spec fn khmer_cluster(c: Seq<char>) -> bool {
    c.len() > 0 && khmer(c[0])
}

/// The end of the maximal run of non-space, non-Khmer clusters at `i`.
pub open spec fn other_end(cl: Seq<Seq<char>>, i: int) -> int
    decreases cl.len() - i,
{
    if 0 <= i < cl.len() && !sep_cluster(cl[i]) && !khmer_cluster(cl[i]) {
        other_end(cl, i + 1)
    } else {
        i
    }
}

/// The end of the maximal run of Khmer clusters at `i`.
pub open spec fn khmer_end(cl: Seq<Seq<char>>, i: int) -> int
    decreases cl.len() - i,
{
    if 0 <= i < cl.len() && khmer_cluster(cl[i]) {
        khmer_end(cl, i + 1)
    } else {
        i
    }
}

pub proof fn lemma_other_end(cl: Seq<Seq<char>>, i: int)
    requires
        0 <= i <= cl.len(),
    ensures
        i <= other_end(cl, i) <= cl.len(),
    decreases cl.len() - i,
{
    if i < cl.len() && !sep_cluster(cl[i]) && !khmer_cluster(cl[i]) {
        lemma_other_end(cl, i + 1);
    }
}

pub proof fn lemma_khmer_end(cl: Seq<Seq<char>>, i: int)
    requires
        0 <= i <= cl.len(),
    ensures
        i <= khmer_end(cl, i) <= cl.len(),
    decreases cl.len() - i,
{
    if i < cl.len() && khmer_cluster(cl[i]) {
        lemma_khmer_end(cl, i + 1);
    }
}

/// The joined text of each token.
pub open spec fn joined(toks: Seq<Run>) -> Seq<Seq<char>> {
    toks.map_values(|t: Run| t.flatten())
}

/// The tokens of the clusters `cl[i..]`.
pub open spec fn segment_from(cl: Seq<Seq<char>>, i: int, strategy: Strategy, d: Dict) -> Seq<
    Seq<char>,
>
    decreases cl.len() - i,
{
    if i < 0 || i >= cl.len() {
        Seq::empty()
    } else if sep_cluster(cl[i]) {
        segment_from(cl, i + 1, strategy, d)
    } else if !khmer_cluster(cl[i]) {
        let e = other_end(cl, i);
        proof {
            lemma_other_end(cl, i + 1);
        }
        seq![cl.subrange(i, e).flatten()] + segment_from(cl, e, strategy, d)
    } else {
        let e = khmer_end(cl, i);
        proof {
            lemma_khmer_end(cl, i + 1);
        }
        joined(run_tokens(strategy, cl.subrange(i, e), d)) + segment_from(cl, e, strategy, d)
    }
}

/// The text a tokenizer segments: the normal form of its input when it
/// normalizes, else the input itself.
pub open spec fn segment_input(text: Seq<char>, normalizes: bool) -> Seq<char> {
    if normalizes {
        normal_form(text)
    } else {
        text
    }
}

/// The tokens of `text` under `strategy` with dictionary `d`.
pub open spec fn segmented(text: Seq<char>, strategy: Strategy, d: Dict) -> Seq<Seq<char>> {
    segment_from(kcc(text), 0, strategy, d)
}

/// A stretch of text between separators: a non-Khmer token (`false`) or a
/// run of Khmer clusters for a strategy (`true`).
pub open spec fn stretches_from(cl: Seq<Seq<char>>, i: int) -> Seq<(bool, Run)>
    decreases cl.len() - i,
{
    if i < 0 || i >= cl.len() {
        Seq::empty()
    } else if sep_cluster(cl[i]) {
        stretches_from(cl, i + 1)
    } else if !khmer_cluster(cl[i]) {
        let e = other_end(cl, i);
        proof {
            lemma_other_end(cl, i + 1);
        }
        seq![(false, cl.subrange(i, e))] + stretches_from(cl, e)
    } else {
        let e = khmer_end(cl, i);
        proof {
            lemma_khmer_end(cl, i + 1);
        }
        seq![(true, cl.subrange(i, e))] + stretches_from(cl, e)
    }
}

/// The stretches of a text.
pub open spec fn stretches(text: Seq<char>) -> Seq<(bool, Run)> {
    stretches_from(kcc(text), 0)
}

/// Dictionary-backed Khmer word segmenter.
pub struct KhmerTokenizer {
    root: TrieNode,
    /// Every dictionary word's clusters in reverse order, so backward
    /// matching reuses the forward walk over a reversed cluster stream.
    rev_root: TrieNode,
    word_count: usize,
    strategy: Strategy,
    normalization: bool,
    words: Ghost<Seq<Run>>,
}

impl KhmerTokenizer {
    /// The tries, the word list and the count agree.
    pub closed spec fn wf(&self) -> bool {
        &&& self.words@.no_duplicates()
        &&& forall|w: Run| has_word(self.root, w) <==> self.words@.contains(w)
        &&& forall|w: Run| has_word(self.rev_root, w) <==> self.words@.contains(w.reverse())
        &&& self.word_count == self.words@.len()
        &&& forall|i: int| 0 <= i < self.words@.len() ==> #[trigger] self.words@[i].len() > 0
    }

    /// The dictionary: the set of words, each as its cluster sequence.
    pub closed spec fn dict(&self) -> Dict {
        self.words@.to_set()
    }

    /// The segmentation strategy.
    pub closed spec fn strategy_of(&self) -> Strategy {
        self.strategy
    }

    /// Whether text is normalized before it is segmented.
    pub closed spec fn normalizes(&self) -> bool {
        self.normalization
    }

    /// The dictionary of a well-formed tokenizer is finite, so its size
    /// after an insertion follows from its size before.
    pub proof fn lemma_dict_finite(&self)
        requires
            self.wf(),
        ensures
            self.dict().finite(),
    {
        self.lemma_dicts();
    }

    proof fn lemma_dicts(&self)
        requires
            self.wf(),
        ensures
            dict_of(self.root) == self.dict(),
            dict_of(self.rev_root) == rev_dict(self.dict()),
            self.dict().finite(),
            self.dict().len() == self.word_count,
            !self.dict().contains(Seq::<Seq<char>>::empty()),
    {
        assert(dict_of(self.root) =~= self.dict());
        assert(dict_of(self.rev_root) =~= rev_dict(self.dict()));
        self.words@.unique_seq_to_set();
        vstd::seq_lib::seq_to_set_is_finite(self.words@);
        if self.dict().contains(Seq::<Seq<char>>::empty()) {
            let i = self.words@.index_of(Seq::<Seq<char>>::empty());
            assert(self.words@[i].len() > 0);
        }
    }

    /// Create an empty tokenizer with no dictionary. Segmentation falls
    /// back to one token per cluster until words are inserted.
    pub fn empty() -> (t: Self)
        ensures
            t.wf(),
            t.dict() == Set::<Run>::empty(),
            t.strategy_of() == Strategy::MinWordsDp,
            t.normalizes(),
    {
        let t = KhmerTokenizer {
            root: TrieNode::new(),
            rev_root: TrieNode::new(),
            word_count: 0,
            strategy: Strategy::MinWordsDp,
            normalization: true,
            words: Ghost(Seq::empty()),
        };
        assert(t.dict() =~= Set::<Run>::empty());
        t
    }

    /// Insert one word given as characters. Surrounding whitespace is
    /// trimmed; an empty word is ignored.
    pub fn insert_chars(&mut self, word: &[char])
        requires
            old(self).wf(),
            old(self).dict().len() < usize::MAX,
        ensures
            final(self).wf(),
            old(self).dict().finite(),
            final(self).dict().finite(),
            final(self).strategy_of() == old(self).strategy_of(),
            final(self).normalizes() == old(self).normalizes(),
            final(self).dict() == (if trimmed(word@).len() == 0 {
                old(self).dict()
            } else {
                old(self).dict().insert(kcc(trimmed(word@)))
            }),
    {
        proof {
            self.lemma_dicts();
        }
        let w = trim(word);
        if w.len() == 0 {
            return;
        }
        let clusters = split_kcc_chars(w.as_slice());
        let ghost cw = views(clusters@);
        proof {
            law_clusters_rejoin(w@);
            if cw.len() == 0 {
                assert(cw.flatten() =~= Seq::<char>::empty());
            }
        }
        let mut rev: Vec<String> = Vec::new();
        let mut k = clusters.len();
        while k > 0
            invariant
                k <= clusters.len(),
                cw == views(clusters@),
                views(rev@) == cw.reverse().take(clusters.len() - k),
            decreases k,
        {
            k = k - 1;
            let ghost before = views(rev@);
            let c = clusters[k].clone();
            rev.push(c);
            assert(views(rev@) =~= before.push(cw[k as int]));
            assert(cw.reverse().take(clusters.len() - k) =~= cw.reverse().take(
                clusters.len() - k - 1,
            ).push(cw[k as int]));
        }
        assert(cw.reverse().take(clusters.len() as int) =~= cw.reverse());
        assert(views(clusters@).skip(0) =~= cw);
        assert(views(rev@).skip(0) =~= cw.reverse());
        let is_new = self.root.insert_path(clusters.as_slice(), 0);
        self.rev_root.insert_path(rev.as_slice(), 0);
        if is_new {
            self.word_count = self.word_count + 1;
            proof {
                self.words@ = self.words@.push(cw);
            }
        }
        proof {
            let ws = self.words@;
            let ows = old(self).words@;
            let orev = old(self).rev_root;
            let oroot = old(self).root;
            assert(is_new == !ows.contains(cw));
            assert(ws == (if is_new {
                ows.push(cw)
            } else {
                ows
            }));
            assert forall|v: Run| ws.contains(v) <==> (ows.contains(v) || v == cw) by {
                if is_new {
                    if v == cw {
                        assert(ws[ws.len() - 1] == cw);
                    }
                    if ws.contains(v) {
                        let j = ws.index_of(v);
                        if j < ows.len() {
                            assert(ows[j] == v);
                        }
                    }
                    if ows.contains(v) {
                        let j = ows.index_of(v);
                        assert(ws[j] == v);
                    }
                }
            }
            assert forall|v: Run| has_word(self.root, v) <==> ws.contains(v) by {
                assert(has_word(self.root, v) <==> (has_word(oroot, v) || v == cw));
            }
            assert forall|v: Run| has_word(self.rev_root, v) <==> ws.contains(v.reverse()) by {
                assert(has_word(self.rev_root, v) <==> (has_word(orev, v) || v == cw.reverse()));
                assert(has_word(orev, v) <==> ows.contains(v.reverse()));
                if v == cw.reverse() {
                    assert(v.reverse() =~= cw);
                }
                if v.reverse() == cw {
                    assert(v =~= cw.reverse());
                }
            }
            if is_new {
                assert(ws.no_duplicates()) by {
                    assert forall|a: int, b: int|
                        0 <= a < ws.len() && 0 <= b < ws.len() && a != b implies ws[a]
                        != ws[b] by {
                        if a == ws.len() - 1 && b < ows.len() {
                            assert(ows[b] == ws[b]);
                        }
                        if b == ws.len() - 1 && a < ows.len() {
                            assert(ows[a] == ws[a]);
                        }
                    }
                }
            }
            assert forall|i: int| 0 <= i < ws.len() implies #[trigger] ws[i].len() > 0 by {
                if i < ows.len() {
                    assert(ws[i] == ows[i]);
                }
            }
            assert(self.dict() =~= old(self).dict().insert(cw));
        }
    }

    /// Insert a single word into the dictionary. Surrounding whitespace is
    /// trimmed; empty words are ignored.
    pub fn insert(&mut self, word: &str)
        requires
            old(self).wf(),
            old(self).dict().len() < usize::MAX,
        ensures
            final(self).wf(),
            old(self).dict().finite(),
            final(self).dict().finite(),
            final(self).strategy_of() == old(self).strategy_of(),
            final(self).normalizes() == old(self).normalizes(),
            final(self).dict() == (if trimmed(word@).len() == 0 {
                old(self).dict()
            } else {
                old(self).dict().insert(kcc(trimmed(word@)))
            }),
    {
        let cs = str_chars(word);
        self.insert_chars(cs.as_slice());
    }

    /// Number of distinct words in the dictionary.
    pub fn len(&self) -> (n: usize)
        requires
            self.wf(),
        ensures
            self.dict().finite(),
            n == self.dict().len(),
    {
        proof {
            self.lemma_dicts();
        }
        self.word_count
    }

    /// True if the dictionary is empty.
    pub fn is_empty(&self) -> (b: bool)
        requires
            self.wf(),
        ensures
            self.dict().finite(),
            b == (self.dict().len() == 0),
    {
        proof {
            self.lemma_dicts();
        }
        self.word_count == 0
    }

    /// True if `word` is an exact entry in the dictionary.
    pub fn contains(&self, word: &str) -> (b: bool)
        requires
            self.wf(),
        ensures
            b == self.dict().contains(kcc(word@)),
    {
        proof {
            self.lemma_dicts();
        }
        let clusters = split_kcc(word);
        self.root.lookup(clusters.as_slice())
    }

    /// Use a different segmentation algorithm. Chains onto any constructor.
    pub fn with_strategy(self, strategy: Strategy) -> (t: Self)
        requires
            self.wf(),
        ensures
            t.wf(),
            t.dict() == self.dict(),
            t.strategy_of() == strategy,
            t.normalizes() == self.normalizes(),
    {
        let mut t = self;
        t.strategy = strategy;
        t
    }

    /// Segment text exactly as given, without normalizing it first.
    pub fn without_normalization(self) -> (t: Self)
        requires
            self.wf(),
        ensures
            t.wf(),
            t.dict() == self.dict(),
            t.strategy_of() == self.strategy_of(),
            !t.normalizes(),
    {
        let mut t = self;
        t.normalization = false;
        t
    }

    /// Segment one run of Khmer clusters with the configured strategy.
    pub fn segment_run(&self, run: &[String]) -> (tokens: Vec<Vec<String>>)
        requires
            self.wf(),
            char_len(views(run@)) <= usize::MAX,
        ensures
            tviews(tokens@) == run_tokens(self.strategy_of(), views(run@), self.dict()),
    {
        proof {
            self.lemma_dicts();
        }
        match self.strategy {
            Strategy::ForwardMaxMatch => forward_match(run, &self.root),
            Strategy::UnigramDp => forward_match(run, &self.root),
            Strategy::BiMaxMatch => bimm_match(run, &self.root, &self.rev_root),
            _ => min_words(run, &self.root),
        }
    }

    /// The match graph of a run against this dictionary (for a
    /// probabilistic scorer): for each position, every edge's end.
    pub fn match_graph(&self, run: &[String]) -> (rows: Vec<Vec<usize>>)
        requires
            self.wf(),
        ensures
            rows@.len() == run.len(),
            forall|k: int|
                0 <= k < run.len() ==> ints(#[trigger] rows@[k]@) == graph_row(
                    views(run@),
                    k,
                    self.dict(),
                ),
    {
        proof {
            self.lemma_dicts();
        }
        match_graph(run, &self.root)
    }

    /// Gather the runs of unmatched single clusters in a strategy's output
    /// (for a statistical fallback); other tokens pass through.
    pub fn unmatched_runs(&self, tokens: Vec<Vec<String>>) -> (out: Vec<(bool, Vec<String>)>)
        requires
            self.wf(),
        ensures
            pviews(out@) == gather_from(tviews(tokens@), 0, Seq::empty(), self.dict()),
    {
        proof {
            self.lemma_dicts();
        }
        unmatched_runs(tokens, &self.root)
    }

    /// Segment a continuous string of Khmer text into tokens.
    ///
    /// The text is first normalized (unless the tokenizer was built
    /// [`without_normalization`](KhmerTokenizer::without_normalization));
    /// normalization only reorders characters, so token offsets stay valid.
    /// Non-Khmer runs (Latin, digits, punctuation) are grouped into their
    /// own tokens; whitespace and ZERO WIDTH SPACE (the Khmer word-boundary
    /// marker) separate tokens without producing one, and are trusted as
    /// boundaries even where a dictionary word spans them.
    /// Khmer runs are segmented with the tokenizer's [`Strategy`].
    pub fn segment(&self, text: &str) -> (tokens: Vec<String>)
        requires
            self.wf(),
        ensures
            views(tokens@) == segmented(
                segment_input(text@, self.normalizes()),
                self.strategy_of(),
                self.dict(),
            ),
    {
        if self.normalization {
            let canonical = normalize(text);
            self.segment_text(canonical.as_str())
        } else {
            self.segment_text(text)
        }
    }

    /// Segment text exactly as given.
    fn segment_text(&self, text: &str) -> (tokens: Vec<String>)
        requires
            self.wf(),
        ensures
            views(tokens@) == segmented(text@, self.strategy_of(), self.dict()),
    {
        let pieces = split_stretches(text);
        let mut tokens: Vec<String> = Vec::new();
        let mut k: usize = 0;
        proof {
            lemma_stretches_segmented(kcc(text@), 0, self.strategy_of(), self.dict());
            assert(pviews(pieces@).skip(0) =~= pviews(pieces@));
            assert(views(tokens@) =~= Seq::<Seq<char>>::empty());
            assert(views(tokens@) + render(pviews(pieces@).skip(0), self.strategy_of(), self.dict())
                =~= render(pviews(pieces@), self.strategy_of(), self.dict()));
        }
        while k < pieces.len()
            invariant
                self.wf(),
                k <= pieces.len(),
                forall|q: int|
                    0 <= q < pieces.len() ==> char_len(#[trigger] pviews(pieces@)[q].1)
                        <= usize::MAX,
                views(tokens@) + render(pviews(pieces@).skip(k as int), self.strategy_of(), self.dict())
                    == segmented(text@, self.strategy_of(), self.dict()),
            decreases pieces.len() - k,
        {
            let ghost rest = pviews(pieces@).skip(k as int);
            assert(rest[0] == pviews(pieces@)[k as int]);
            assert(rest.drop_first() =~= pviews(pieces@).skip(k + 1));
            let ghost before = views(tokens@);
            if !pieces[k].0 {
                let joined_text = concat_strings(&pieces[k].1);
                tokens.push(joined_text);
                assert(views(tokens@) =~= before.push(rest[0].1.flatten()));
            } else {
                assert(char_len(pviews(pieces@)[k as int].1) <= usize::MAX);
                let toks = self.segment_run(pieces[k].1.as_slice());
                let mut t: usize = 0;
                while t < toks.len()
                    invariant
                        t <= toks.len(),
                        views(tokens@) == before + joined(tviews(toks@)).take(t as int),
                    decreases toks.len() - t,
                {
                    let s = concat_strings(&toks[t]);
                    let ghost b2 = views(tokens@);
                    tokens.push(s);
                    assert(views(tokens@) =~= b2.push(tviews(toks@)[t as int].flatten()));
                    assert(joined(tviews(toks@)).take(t + 1) =~= joined(tviews(toks@)).take(
                        t as int,
                    ).push(tviews(toks@)[t as int].flatten()));
                    t = t + 1;
                }
                assert(joined(tviews(toks@)).take(t as int) =~= joined(tviews(toks@)));
            }
            assert(views(tokens@) + render(rest.drop_first(), self.strategy_of(), self.dict())
                =~= before + render(rest, self.strategy_of(), self.dict()));
            k = k + 1;
        }
        assert(pviews(pieces@).skip(k as int) =~= Seq::<(bool, Run)>::empty());
        assert(views(tokens@) =~= views(tokens@) + render(
            pviews(pieces@).skip(k as int),
            self.strategy_of(),
            self.dict(),
        ));
        tokens
    }
}

/// The tokens of a list of stretches: a non-Khmer stretch is one token, a
/// Khmer stretch is segmented by the strategy.
pub open spec fn render(ps: Seq<(bool, Run)>, strategy: Strategy, d: Dict) -> Seq<Seq<char>>
    decreases ps.len(),
{
    if ps.len() == 0 {
        Seq::empty()
    } else {
        (if ps[0].0 {
            joined(run_tokens(strategy, ps[0].1, d))
        } else {
            seq![ps[0].1.flatten()]
        }) + render(ps.drop_first(), strategy, d)
    }
}

proof fn lemma_stretches_segmented(cl: Seq<Seq<char>>, i: int, strategy: Strategy, d: Dict)
    requires
        0 <= i <= cl.len(),
    ensures
        render(stretches_from(cl, i), strategy, d) == segment_from(cl, i, strategy, d),
    decreases cl.len() - i,
{
    if i < cl.len() {
        lemma_other_end(cl, i + 1);
        lemma_khmer_end(cl, i + 1);
        if sep_cluster(cl[i]) {
            lemma_stretches_segmented(cl, i + 1, strategy, d);
        } else if !khmer_cluster(cl[i]) {
            let e = other_end(cl, i);
            lemma_stretches_segmented(cl, e, strategy, d);
            let ps = stretches_from(cl, i);
            assert(ps.drop_first() =~= stretches_from(cl, e));
        } else {
            let e = khmer_end(cl, i);
            lemma_stretches_segmented(cl, e, strategy, d);
            let ps = stretches_from(cl, i);
            assert(ps.drop_first() =~= stretches_from(cl, e));
        }
    }
}

/// Whether a cluster separates words: only whitespace, or a ZERO WIDTH
/// SPACE.
fn is_sep_cluster(c: &String) -> (b: bool)
    ensures
        b == sep_cluster(c@),
{
    let cs = str_chars(c.as_str());
    let t = trim(cs.as_slice());
    if t.len() == 0 {
        return true;
    }
    let zwsp = cs.len() == 1 && cs[0] == '\u{200B}';
    assert(zwsp <==> cs@ =~= seq!['\u{200B}']);
    zwsp
}

/// Whether a cluster starts with a Khmer-block character.
fn is_khmer_cluster(c: &String) -> (b: bool)
    ensures
        b == khmer_cluster(c@),
{
    let cs = str_chars(c.as_str());
    cs.len() > 0 && is_khmer(cs[0])
}

/// Split `text` into its stretches: non-Khmer tokens and Khmer runs, with
/// whitespace and zero-width spaces dropped.
pub fn split_stretches(text: &str) -> (out: Vec<(bool, Vec<String>)>)
    ensures
        pviews(out@) == stretches(text@),
        forall|q: int| 0 <= q < out@.len() ==> char_len(#[trigger] pviews(out@)[q].1) <= usize::MAX,
{
    let chars = str_chars(text);
    let clusters = split_kcc_chars(chars.as_slice());
    let ghost cl = views(clusters@);
    proof {
        law_clusters_rejoin(text@);
        assert(text@.len() == chars.len());
    }
    let n = clusters.len();
    let mut out: Vec<(bool, Vec<String>)> = Vec::new();
    let mut i: usize = 0;
    while i < n
        invariant
            i <= n == clusters.len(),
            cl == views(clusters@),
            cl == kcc(text@),
            char_len(cl) <= usize::MAX,
            pviews(out@) + stretches_from(cl, i as int) == stretches(text@),
            forall|q: int| 0 <= q < out@.len() ==> char_len(#[trigger] pviews(out@)[q].1) <= usize::MAX,
        decreases n - i,
    {
        let ghost before = pviews(out@);
        if is_sep_cluster(&clusters[i]) {
            i = i + 1;
        } else {
            let start = i;
            let kh = is_khmer_cluster(&clusters[i]);
            if !kh {
                while i < n && !is_sep_cluster(&clusters[i]) && !is_khmer_cluster(&clusters[i])
                    invariant
                        start <= i <= n == clusters.len(),
                        cl == views(clusters@),
                        other_end(cl, start as int) == other_end(cl, i as int),
                    decreases n - i,
                {
                    i = i + 1;
                }
            } else {
                while i < n && is_khmer_cluster(&clusters[i])
                    invariant
                        start <= i <= n == clusters.len(),
                        cl == views(clusters@),
                        khmer_end(cl, start as int) == khmer_end(cl, i as int),
                    decreases n - i,
                {
                    i = i + 1;
                }
            }
            let run = crate::matching::clone_range(clusters.as_slice(), start, i);
            proof {
                lemma_char_len_split(cl, 0, start as int, n as int);
                lemma_char_len_split(cl, start as int, i as int, n as int);
                assert(cl.subrange(0, n as int) =~= cl);
            }
            out.push((kh, run));
            assert(pviews(out@) =~= before.push((kh, cl.subrange(start as int, i as int))));
        }
    }
    assert(stretches_from(cl, i as int) =~= Seq::<(bool, Run)>::empty());
    assert(pviews(out@) =~= pviews(out@) + stretches_from(cl, i as int));
    out
}


// ---------------------------------------------------------------------------
// Segmentation loses and invents no text
// ---------------------------------------------------------------------------

proof fn lemma_cluster_without(c: Seq<char>)
    requires
        cluster_shaped(c),
    ensures
        without(c, Sep::WhitespaceOrZwsp) == (if sep_cluster(c) {
            Seq::<char>::empty()
        } else {
            c
        }),
        !sep_cluster(c) ==> c.len() > 0,
{
    reveal_with_fuel(Seq::filter, 2);
    if c.len() == 1 {
        if is_ws(c[0]) || c[0] == '\u{200B}' {
            assert(c.drop_last() =~= Seq::<char>::empty());
            if is_ws(c[0]) {
                assert(c.drop_first() =~= Seq::<char>::empty());
                assert(crate::text::trim_start(c.drop_first()) =~= Seq::<char>::empty());
                assert(crate::text::trim_start(c) =~= Seq::<char>::empty());
                assert(crate::text::trim_end(Seq::<char>::empty()) =~= Seq::<char>::empty());
            } else {
                assert(c =~= seq!['\u{200B}']);
            }
        } else {
            lemma_trimmed_nonempty(c, 0);
            lemma_without_keeps_all(c, Sep::WhitespaceOrZwsp);
            assert(c != seq!['\u{200B}']);
        }
    } else {
        assert forall|m: int| 0 <= m < c.len() implies !crate::text::sep_holds(
            Sep::WhitespaceOrZwsp,
            #[trigger] c[m],
        ) by {
            if m > 0 {
                assert(crate::kcc::attached(c[m]));
            }
        }
        lemma_without_keeps_all(c, Sep::WhitespaceOrZwsp);
        lemma_trimmed_nonempty(c, 0);
        assert(c.len() != 1);
    }
}

proof fn lemma_flatten_push(a: Seq<Seq<char>>, x: Seq<char>)
    ensures
        a.push(x).flatten() == a.flatten() + x,
{
    assert(a.push(x) =~= a + seq![x]);
    vstd::seq_lib::lemma_flatten_concat(a, seq![x]);
    seq![x].lemma_flatten_one_element();
}

proof fn lemma_range_kept(cl: Seq<Seq<char>>, i: int, e: int)
    requires
        0 <= i <= e <= cl.len(),
        forall|k: int| i <= k < e ==> cluster_shaped(#[trigger] cl[k]) && !sep_cluster(cl[k]),
    ensures
        without(cl.subrange(i, e).flatten(), Sep::WhitespaceOrZwsp) == cl.subrange(i, e).flatten(),
    decreases e - i,
{
    if e > i {
        lemma_range_kept(cl, i, e - 1);
        assert(cl.subrange(i, e) =~= cl.subrange(i, e - 1).push(cl[e - 1]));
        lemma_flatten_push(cl.subrange(i, e - 1), cl[e - 1]);
        assert(cluster_shaped(cl[e - 1]) && !sep_cluster(cl[e - 1]));
        lemma_cluster_without(cl[e - 1]);
        broadcast use Seq::filter_distributes_over_add;

    } else {
        reveal_with_fuel(Seq::filter, 1);
        assert(cl.subrange(i, e) =~= Seq::<Seq<char>>::empty());
    }
}

proof fn lemma_cut_split(cl: Seq<Seq<char>>, i: int, e: int)
    requires
        0 <= i <= e <= cl.len(),
    ensures
        cl.subrange(i, cl.len() as int).flatten() == cl.subrange(i, e).flatten() + cl.subrange(
            e,
            cl.len() as int,
        ).flatten(),
{
    assert(cl.subrange(i, cl.len() as int) =~= cl.subrange(i, e) + cl.subrange(e, cl.len() as int));
    vstd::seq_lib::lemma_flatten_concat(cl.subrange(i, e), cl.subrange(e, cl.len() as int));
}

proof fn lemma_joined_flatten(toks: Seq<Run>)
    ensures
        joined(toks).flatten() == toks.flatten().flatten(),
    decreases toks.len(),
{
    if toks.len() > 0 {
        lemma_joined_flatten(toks.drop_first());
        assert(joined(toks).drop_first() =~= joined(toks.drop_first()));
        vstd::seq_lib::lemma_flatten_concat(toks[0], toks.drop_first().flatten());
    }
}

proof fn lemma_flatten_elems(toks: Seq<Run>)
    requires
        forall|m: int| 0 <= m < toks.flatten().len() ==> (#[trigger] toks.flatten()[m]).len() > 0,
    ensures
        forall|k: int, j: int|
            0 <= k < toks.len() && 0 <= j < toks[k].len() ==> (#[trigger] toks[k][j]).len() > 0,
    decreases toks.len(),
{
    if toks.len() > 0 {
        let rest = toks.drop_first();
        assert(toks.flatten() == toks[0] + rest.flatten());
        assert forall|m: int| 0 <= m < rest.flatten().len() implies (#[trigger] rest.flatten()[
            m]).len() > 0 by {
            assert(toks.flatten()[toks[0].len() + m] == rest.flatten()[m]);
        }
        lemma_flatten_elems(rest);
        assert forall|k: int, j: int| 0 <= k < toks.len() && 0 <= j < toks[k].len() implies (
        #[trigger] toks[k][j]).len() > 0 by {
            if k == 0 {
                assert(toks.flatten()[j] == toks[0][j]);
            } else {
                assert(toks[k] == rest[k - 1]);
            }
        }
    }
}

proof fn lemma_combine(
    cl: Seq<Seq<char>>,
    i: int,
    e: int,
    pieces: Seq<Seq<char>>,
    rest: Seq<Seq<char>>,
)
    requires
        0 <= i <= e <= cl.len(),
        forall|k: int| i <= k < e ==> cluster_shaped(#[trigger] cl[k]) && !sep_cluster(cl[k]),
        pieces.flatten() == cl.subrange(i, e).flatten(),
        forall|k: int| 0 <= k < pieces.len() ==> (#[trigger] pieces[k]).len() > 0,
        rest.flatten() == without(cl.subrange(e, cl.len() as int).flatten(), Sep::WhitespaceOrZwsp),
        forall|k: int| 0 <= k < rest.len() ==> (#[trigger] rest[k]).len() > 0,
    ensures
        (pieces + rest).flatten() == without(
            cl.subrange(i, cl.len() as int).flatten(),
            Sep::WhitespaceOrZwsp,
        ),
        forall|k: int| 0 <= k < (pieces + rest).len() ==> (#[trigger] (pieces + rest)[k]).len() > 0,
{
    broadcast use Seq::filter_distributes_over_add;

    lemma_cut_split(cl, i, e);
    lemma_range_kept(cl, i, e);
    vstd::seq_lib::lemma_flatten_concat(pieces, rest);
    assert forall|k: int| 0 <= k < (pieces + rest).len() implies (#[trigger] (pieces + rest)[
        k]).len() > 0 by {
        if k < pieces.len() {
            assert((pieces + rest)[k] == pieces[k]);
        } else {
            assert((pieces + rest)[k] == rest[k - pieces.len()]);
        }
    }
}

proof fn lemma_khmer_pieces(cl: Seq<Seq<char>>, i: int, e: int, strategy: Strategy, d: Dict)
    requires
        0 <= i < e <= cl.len(),
        forall|k: int| i <= k < e ==> cluster_shaped(#[trigger] cl[k]) && !sep_cluster(cl[k]),
    ensures
        joined(run_tokens(strategy, cl.subrange(i, e), d)).flatten() == cl.subrange(i, e).flatten(),
        forall|k: int|
            0 <= k < joined(run_tokens(strategy, cl.subrange(i, e), d)).len() ==> (
            #[trigger] joined(run_tokens(strategy, cl.subrange(i, e), d))[k]).len() > 0,
{
    let run = cl.subrange(i, e);
    let toks = run_tokens(strategy, run, d);
    law_tokens_rejoin_run(run, d, rev_dict(d));
    assert(toks.flatten() == run && all_nonempty(toks));
    lemma_joined_flatten(toks);
    assert forall|m: int| 0 <= m < toks.flatten().len() implies (#[trigger] toks.flatten()[
        m]).len() > 0 by {
        assert(toks.flatten()[m] == cl[i + m]);
        lemma_cluster_without(cl[i + m]);
    }
    lemma_flatten_elems(toks);
    let js = joined(toks);
    assert forall|k: int| 0 <= k < js.len() implies (#[trigger] js[k]).len() > 0 by {
        assert(js[k] == toks[k].flatten());
        assert(toks[k].len() > 0);
        assert(toks[k].flatten() == toks[k][0] + toks[k].drop_first().flatten());
        assert(toks[k][0].len() > 0);
    }
}

proof fn lemma_other_piece(cl: Seq<Seq<char>>, i: int, e: int)
    requires
        0 <= i < e <= cl.len(),
        cluster_shaped(cl[i]),
        !sep_cluster(cl[i]),
    ensures
        seq![cl.subrange(i, e).flatten()].flatten() == cl.subrange(i, e).flatten(),
        cl.subrange(i, e).flatten().len() > 0,
{
    let run = cl.subrange(i, e);
    seq![run.flatten()].lemma_flatten_one_element();
    assert(run[0] == cl[i]);
    assert(run.flatten() == run[0] + run.drop_first().flatten());
    lemma_cluster_without(cl[i]);
}

proof fn lemma_segment_from_rejoin(cl: Seq<Seq<char>>, i: int, strategy: Strategy, d: Dict)
    requires
        0 <= i <= cl.len(),
        forall|k: int| 0 <= k < cl.len() ==> cluster_shaped(#[trigger] cl[k]),
    ensures
        segment_from(cl, i, strategy, d).flatten() == without(
            cl.subrange(i, cl.len() as int).flatten(),
            Sep::WhitespaceOrZwsp,
        ),
        forall|k: int|
            0 <= k < segment_from(cl, i, strategy, d).len() ==> (#[trigger] segment_from(
                cl,
                i,
                strategy,
                d,
            )[k]).len() > 0,
    decreases cl.len() - i,
{
    let n = cl.len() as int;
    if i >= n {
        reveal_with_fuel(Seq::filter, 1);
        assert(cl.subrange(i, n) =~= Seq::<Seq<char>>::empty());
    } else if sep_cluster(cl[i]) {
        lemma_segment_from_rejoin(cl, i + 1, strategy, d);
        lemma_cut_split(cl, i, i + 1);
        assert(cl.subrange(i, i + 1) =~= seq![cl[i]]);
        seq![cl[i]].lemma_flatten_one_element();
        lemma_cluster_without(cl[i]);
        broadcast use Seq::filter_distributes_over_add;

    } else if !khmer_cluster(cl[i]) {
        let e = other_end(cl, i);
        lemma_other_end(cl, i + 1);
        lemma_other_range(cl, i);
        lemma_segment_from_rejoin(cl, e, strategy, d);
        lemma_other_piece(cl, i, e);
        let pieces = seq![cl.subrange(i, e).flatten()];
        lemma_combine(cl, i, e, pieces, segment_from(cl, e, strategy, d));
    } else {
        let e = khmer_end(cl, i);
        lemma_khmer_end(cl, i + 1);
        lemma_khmer_range(cl, i);
        assert forall|k: int| i <= k < e implies !sep_cluster(#[trigger] cl[k]) by {
            assert(khmer_cluster(cl[k]));
            lemma_trimmed_nonempty(cl[k], 0);
        }
        lemma_segment_from_rejoin(cl, e, strategy, d);
        lemma_khmer_pieces(cl, i, e, strategy, d);
        let pieces = joined(run_tokens(strategy, cl.subrange(i, e), d));
        lemma_combine(cl, i, e, pieces, segment_from(cl, e, strategy, d));
    }
}

pub proof fn lemma_other_range(cl: Seq<Seq<char>>, i: int)
    requires
        0 <= i <= cl.len(),
    ensures
        forall|k: int| i <= k < other_end(cl, i) ==> !sep_cluster(#[trigger] cl[k]) && !khmer_cluster(
            cl[k],
        ),
    decreases cl.len() - i,
{
    if i < cl.len() && !sep_cluster(cl[i]) && !khmer_cluster(cl[i]) {
        lemma_other_range(cl, i + 1);
    }
}

pub proof fn lemma_khmer_range(cl: Seq<Seq<char>>, i: int)
    requires
        0 <= i <= cl.len(),
    ensures
        forall|k: int| i <= k < khmer_end(cl, i) ==> #[trigger] khmer_cluster(cl[k]),
    decreases cl.len() - i,
{
    if i < cl.len() && khmer_cluster(cl[i]) {
        lemma_khmer_range(cl, i + 1);
    }
}

/// Segmentation loses and invents no text: the tokens are non-empty and,
/// joined in order, give back the text with its whitespace and zero-width
/// spaces removed. Every
/// strategy and every dictionary keep this.
pub proof fn law_segment_rejoins(text: Seq<char>, strategy: Strategy, d: Dict)
    ensures
        segmented(text, strategy, d).flatten() == without(text, Sep::WhitespaceOrZwsp),
        forall|k: int|
            0 <= k < segmented(text, strategy, d).len() ==> (#[trigger] segmented(
                text,
                strategy,
                d,
            )[k]).len() > 0,
{
    let cl = kcc(text);
    lemma_kcc_shape(text);
    law_clusters_rejoin(text);
    lemma_segment_from_rejoin(cl, 0, strategy, d);
    assert(cl.subrange(0, cl.len() as int) =~= cl);
}


// ---------------------------------------------------------------------------
// Tokens are whole clusters
// ---------------------------------------------------------------------------

/// The tokens of the clusters `cl[i..]`, each kept as its clusters.
pub open spec fn groups_from(cl: Seq<Seq<char>>, i: int, strategy: Strategy, d: Dict) -> Seq<Run>
    decreases cl.len() - i,
{
    if i < 0 || i >= cl.len() {
        Seq::empty()
    } else if sep_cluster(cl[i]) {
        groups_from(cl, i + 1, strategy, d)
    } else if !khmer_cluster(cl[i]) {
        let e = other_end(cl, i);
        proof {
            lemma_other_end(cl, i + 1);
        }
        seq![cl.subrange(i, e)] + groups_from(cl, e, strategy, d)
    } else {
        let e = khmer_end(cl, i);
        proof {
            lemma_khmer_end(cl, i + 1);
        }
        run_tokens(strategy, cl.subrange(i, e), d) + groups_from(cl, e, strategy, d)
    }
}

/// The tokens of `text`, each kept as the clusters it is made of.
pub open spec fn token_groups(text: Seq<char>, strategy: Strategy, d: Dict) -> Seq<Run> {
    groups_from(kcc(text), 0, strategy, d)
}

/// The clusters of a text that are not separators, in order.
pub open spec fn word_clusters(cl: Seq<Seq<char>>) -> Seq<Seq<char>> {
    cl.filter(|c: Seq<char>| !sep_cluster(c))
}

proof fn lemma_joined_append(a: Seq<Run>, b: Seq<Run>)
    ensures
        joined(a + b) == joined(a) + joined(b),
{
    assert(joined(a + b) =~= joined(a) + joined(b));
}

proof fn lemma_kept_range(cl: Seq<Seq<char>>, i: int, e: int)
    requires
        0 <= i <= e <= cl.len(),
        forall|k: int| i <= k < e ==> !sep_cluster(#[trigger] cl[k]),
    ensures
        word_clusters(cl.subrange(i, e)) == cl.subrange(i, e),
    decreases e - i,
{
    reveal_with_fuel(Seq::filter, 1);
    if e > i {
        lemma_kept_range(cl, i, e - 1);
        assert(cl.subrange(i, e).drop_last() =~= cl.subrange(i, e - 1));
        assert(cl.subrange(i, e) =~= cl.subrange(i, e - 1).push(cl[e - 1]));
    } else {
        assert(cl.subrange(i, e) =~= Seq::<Seq<char>>::empty());
    }
}

#[verifier::spinoff_prover]
#[verifier::rlimit(40)]
proof fn lemma_groups_combine(
    cl: Seq<Seq<char>>,
    i: int,
    e: int,
    pieces: Seq<Run>,
    rest: Seq<Run>,
)
    requires
        0 <= i <= e <= cl.len(),
        forall|k: int| i <= k < e ==> !sep_cluster(#[trigger] cl[k]),
        pieces.flatten() == cl.subrange(i, e),
        all_nonempty(pieces),
        rest.flatten() == word_clusters(cl.subrange(e, cl.len() as int)),
        all_nonempty(rest),
    ensures
        (pieces + rest).flatten() == word_clusters(cl.subrange(i, cl.len() as int)),
        all_nonempty(pieces + rest),
        joined(pieces + rest) == joined(pieces) + joined(rest),
{
    broadcast use Seq::filter_distributes_over_add;

    let n = cl.len() as int;
    lemma_joined_append(pieces, rest);
    vstd::seq_lib::lemma_flatten_concat(pieces, rest);
    lemma_kept_range(cl, i, e);
    assert(cl.subrange(i, n) =~= cl.subrange(i, e) + cl.subrange(e, n));
    assert forall|k: int| 0 <= k < (pieces + rest).len() implies (#[trigger] (pieces + rest)[
        k]).len() > 0 by {
        if k < pieces.len() {
            assert((pieces + rest)[k] == pieces[k]);
        } else {
            assert((pieces + rest)[k] == rest[k - pieces.len()]);
        }
    }
}

proof fn lemma_groups_ws(cl: Seq<Seq<char>>, i: int)
    requires
        0 <= i < cl.len(),
        sep_cluster(cl[i]),
    ensures
        word_clusters(cl.subrange(i, cl.len() as int)) == word_clusters(
            cl.subrange(i + 1, cl.len() as int),
        ),
{
    broadcast use Seq::filter_distributes_over_add;

    let n = cl.len() as int;
    reveal_with_fuel(Seq::filter, 2);
    assert(cl.subrange(i, n) =~= cl.subrange(i, i + 1) + cl.subrange(i + 1, n));
    assert(cl.subrange(i, i + 1) =~= seq![cl[i]]);
    assert(seq![cl[i]].drop_last() =~= Seq::<Seq<char>>::empty());
    assert(word_clusters(cl.subrange(i, i + 1)) =~= Seq::<Seq<char>>::empty());
}

proof fn lemma_groups_from(cl: Seq<Seq<char>>, i: int, strategy: Strategy, d: Dict)
    requires
        0 <= i <= cl.len(),
    ensures
        joined(groups_from(cl, i, strategy, d)) == segment_from(cl, i, strategy, d),
        groups_from(cl, i, strategy, d).flatten() == word_clusters(
            cl.subrange(i, cl.len() as int),
        ),
        all_nonempty(groups_from(cl, i, strategy, d)),
    decreases cl.len() - i,
{
    let n = cl.len() as int;
    if i >= n {
        reveal_with_fuel(Seq::filter, 1);
        assert(cl.subrange(i, n) =~= Seq::<Seq<char>>::empty());
        assert(joined(groups_from(cl, i, strategy, d)) =~= Seq::<Seq<char>>::empty());
    } else if sep_cluster(cl[i]) {
        lemma_groups_from(cl, i + 1, strategy, d);
        lemma_groups_ws(cl, i);
    } else if !khmer_cluster(cl[i]) {
        let e = other_end(cl, i);
        lemma_other_end(cl, i + 1);
        lemma_other_range(cl, i);
        lemma_groups_from(cl, e, strategy, d);
        let run = cl.subrange(i, e);
        seq![run].lemma_flatten_one_element();
        assert(joined(seq![run]) =~= seq![run.flatten()]);
        assert(run[0] == cl[i]);
        lemma_groups_combine(cl, i, e, seq![run], groups_from(cl, e, strategy, d));
    } else {
        let e = khmer_end(cl, i);
        lemma_khmer_end(cl, i + 1);
        lemma_khmer_range(cl, i);
        assert forall|k: int| i <= k < e implies !sep_cluster(#[trigger] cl[k]) by {
            assert(khmer_cluster(cl[k]));
            lemma_trimmed_nonempty(cl[k], 0);
        }
        lemma_groups_from(cl, e, strategy, d);
        let run = cl.subrange(i, e);
        law_tokens_rejoin_run(run, d, rev_dict(d));
        lemma_groups_combine(
            cl,
            i,
            e,
            run_tokens(strategy, run, d),
            groups_from(cl, e, strategy, d),
        );
    }
}

/// Segmentation never splits inside a cluster: every token is a run of
/// whole clusters, and those runs, in order, are exactly the text's
/// clusters that are not separators.
pub proof fn law_tokens_are_whole_clusters(text: Seq<char>, strategy: Strategy, d: Dict)
    ensures
        joined(token_groups(text, strategy, d)) == segmented(text, strategy, d),
        token_groups(text, strategy, d).flatten() == word_clusters(kcc(text)),
        all_nonempty(token_groups(text, strategy, d)),
{
    let cl = kcc(text);
    lemma_groups_from(cl, 0, strategy, d);
    assert(cl.subrange(0, cl.len() as int) =~= cl);
}


/// Bidirectional matching chooses between the forward and the backward
/// longest-match segmentations of a run: its tokens are one of the two,
/// never more than either, and on a tie in count the one with fewer
/// single-cluster tokens, the forward one when that ties too.
pub proof fn law_bidirectional_choice(run: Run, d: Dict)
    ensures
        ({
            let b = run_tokens(Strategy::BiMaxMatch, run, d);
            let f = run_tokens(Strategy::ForwardMaxMatch, run, d);
            let k = bmm(run, rev_dict(d));
            &&& b == f || b == k
            &&& b.len() <= f.len()
            &&& b.len() <= k.len()
            &&& f.len() == k.len() ==> (b == f <==> singles(f) <= singles(k) || f == k)
        }),
{
}

} // verus!
