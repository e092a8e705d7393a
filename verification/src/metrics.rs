//! Token-span scoring in the SIGHAN convention: a predicted word is right
//! only if both its start and end offsets match a gold word exactly. The
//! counts are kept as integers; the ratios are taken by the caller.

use vstd::prelude::*;
use crate::normalize::byte_len;
use crate::text::views;

verus! {

/// The total UTF-8 length of a list of tokens.
pub open spec fn total_bytes(toks: Seq<Seq<char>>) -> nat
    decreases toks.len(),
{
    if toks.len() == 0 {
        0
    } else {
        total_bytes(toks.drop_last()) + byte_len(toks.last())
    }
}

/// The byte spans of a list of tokens laid end to end: each token starts
/// where the one before it ends.
pub open spec fn spans_of(toks: Seq<Seq<char>>) -> Seq<(int, int)>
    decreases toks.len(),
{
    if toks.len() == 0 {
        Seq::empty()
    } else {
        let start = total_bytes(toks.drop_last()) as int;
        spans_of(toks.drop_last()).push((start, start + byte_len(toks.last())))
    }
}

proof fn lemma_spans_len(toks: Seq<Seq<char>>)
    ensures
        spans_of(toks).len() == toks.len(),
    decreases toks.len(),
{
    if toks.len() > 0 {
        lemma_spans_len(toks.drop_last());
    }
}

proof fn lemma_total_prefix(toks: Seq<Seq<char>>, i: int)
    requires
        0 <= i <= toks.len(),
    ensures
        total_bytes(toks.take(i)) <= total_bytes(toks),
    decreases toks.len() - i,
{
    if i < toks.len() {
        lemma_total_prefix(toks, i + 1);
        assert(toks.take(i + 1).drop_last() =~= toks.take(i));
    } else {
        assert(toks.take(i) =~= toks);
    }
}

/// Cumulative-length `(start, end)` byte spans for a token sequence, in
/// token order.
pub fn spans(tokens: &[String]) -> (out: Vec<(usize, usize)>)
    requires
        total_bytes(views(tokens@)) <= usize::MAX,
    ensures
        out@.len() == tokens@.len(),
        forall|k: int|
            0 <= k < out@.len() ==> (#[trigger] out@[k]).0 as int == spans_of(views(tokens@))[k].0
                && out@[k].1 as int == spans_of(views(tokens@))[k].1,
{
    let ghost ts = views(tokens@);
    let mut out: Vec<(usize, usize)> = Vec::new();
    let mut pos: usize = 0;
    let mut i: usize = 0;
    while i < tokens.len()
        invariant
            i <= tokens@.len(),
            ts == views(tokens@),
            total_bytes(ts) <= usize::MAX,
            pos as int == total_bytes(ts.take(i as int)),
            out@.len() == i,
            forall|k: int|
                0 <= k < i ==> (#[trigger] out@[k]).0 as int == spans_of(ts.take(i as int))[k].0
                    && out@[k].1 as int == spans_of(ts.take(i as int))[k].1,
        decreases tokens.len() - i,
    {
        proof {
            lemma_total_prefix(ts, i + 1);
            assert(ts.take(i + 1).drop_last() =~= ts.take(i as int));
            assert(ts.take(i + 1).last() == tokens@[i as int]@);
            lemma_spans_len(ts.take(i as int));
        }
        let len = tokens[i].as_str().len();
        assert(len as int == byte_len(tokens@[i as int]@));
        let end = pos + len;
        out.push((pos, end));
        i = i + 1;
        pos = end;
    }
    assert(ts.take(i as int) =~= ts);
    out
}

/// How many of the positions `0..n` satisfy `p`.
pub open spec fn count_where(n: int, p: spec_fn(int) -> bool) -> nat
    decreases n,
{
    if n <= 0 {
        0
    } else {
        count_where(n - 1, p) + if p(n - 1) {
            1nat
        } else {
            0nat
        }
    }
}

proof fn lemma_count_where_bound(n: int, p: spec_fn(int) -> bool)
    requires
        n >= 0,
    ensures
        count_where(n, p) <= n,
    decreases n,
{
    if n > 0 {
        lemma_count_where_bound(n - 1, p);
    }
}

/// The scores of one sentence.
#[derive(Clone, Copy, PartialEq, Eq, Structural, Debug)]
pub struct SentenceScore {
    /// Predicted tokens.
    pub predicted: usize,
    /// Gold tokens.
    pub gold: usize,
    /// Gold tokens whose span is also a predicted span.
    pub correct: usize,
    /// Gold tokens that are dictionary words.
    pub gold_iv: usize,
    /// Of those, the ones predicted right.
    pub correct_iv: usize,
    /// Gold tokens that are not dictionary words.
    pub gold_oov: usize,
    /// Of those, the ones predicted right.
    pub correct_oov: usize,
    /// The whole sentence was segmented right.
    pub exact: bool,
}

/// Whether the `k`-th gold span is among the predicted spans.
pub open spec fn hit(pred: Seq<Seq<char>>, gold: Seq<Seq<char>>, k: int) -> bool {
    spans_of(pred).contains(spans_of(gold)[k])
}

/// The score a sentence earns: `pred` the predicted tokens, `gold` the
/// gold tokens, `iv[k]` whether the `k`-th gold token is a dictionary
/// word.
pub open spec fn sentence_score(pred: Seq<Seq<char>>, gold: Seq<Seq<char>>, iv: Seq<bool>) -> SentenceScore {
    let n = gold.len() as int;
    let correct = count_where(n, |k: int| hit(pred, gold, k));
    SentenceScore {
        predicted: pred.len() as usize,
        gold: gold.len() as usize,
        correct: correct as usize,
        gold_iv: count_where(n, |k: int| iv[k]) as usize,
        correct_iv: count_where(n, |k: int| iv[k] && hit(pred, gold, k)) as usize,
        gold_oov: count_where(n, |k: int| !iv[k]) as usize,
        correct_oov: count_where(n, |k: int| !iv[k] && hit(pred, gold, k)) as usize,
        exact: pred.len() == gold.len() && correct == n,
    }
}

fn span_in(ps: &Vec<(usize, usize)>, s: (usize, usize)) -> (b: bool)
    ensures
        b == exists|k: int| 0 <= k < ps@.len() && ps@[k] == s,
{
    let mut k: usize = 0;
    while k < ps.len()
        invariant
            k <= ps@.len(),
            forall|j: int| 0 <= j < k ==> ps@[j] != s,
        decreases ps.len() - k,
    {
        if ps[k].0 == s.0 && ps[k].1 == s.1 {
            return true;
        }
        k = k + 1;
    }
    false
}

/// Score one sentence: compare the predicted tokens' spans with the gold
/// tokens' spans, split by whether each gold word is in the dictionary.
pub fn score_sentence(predicted: &Vec<String>, gold: &Vec<String>, in_vocab: &Vec<bool>) -> (r:
    SentenceScore)
    requires
        in_vocab@.len() == gold@.len(),
        total_bytes(views(predicted@)) <= usize::MAX,
        total_bytes(views(gold@)) <= usize::MAX,
    ensures
        r == sentence_score(views(predicted@), views(gold@), in_vocab@),
{
    let ghost pv = views(predicted@);
    let ghost gv = views(gold@);
    let ps = spans(predicted.as_slice());
    let gs = spans(gold.as_slice());
    proof {
        lemma_spans_len(pv);
        lemma_spans_len(gv);
    }
    let n = gold.len();
    let mut correct: usize = 0;
    let mut gold_iv: usize = 0;
    let mut correct_iv: usize = 0;
    let mut gold_oov: usize = 0;
    let mut correct_oov: usize = 0;
    let mut i: usize = 0;
    while i < n
        invariant
            n == gold@.len(),
            in_vocab@.len() == n,
            i <= n,
            pv == views(predicted@),
            gv == views(gold@),
            ps@.len() == pv.len(),
            spans_of(pv).len() == pv.len(),
            spans_of(gv).len() == gv.len(),
            gs@.len() == n,
            forall|k: int|
                0 <= k < ps@.len() ==> (#[trigger] ps@[k]).0 as int == spans_of(pv)[k].0
                    && ps@[k].1 as int == spans_of(pv)[k].1,
            forall|k: int|
                0 <= k < gs@.len() ==> (#[trigger] gs@[k]).0 as int == spans_of(gv)[k].0
                    && gs@[k].1 as int == spans_of(gv)[k].1,
            correct == count_where(i as int, |k: int| hit(pv, gv, k)),
            gold_iv == count_where(i as int, |k: int| in_vocab@[k]),
            correct_iv == count_where(i as int, |k: int| in_vocab@[k] && hit(pv, gv, k)),
            gold_oov == count_where(i as int, |k: int| !in_vocab@[k]),
            correct_oov == count_where(i as int, |k: int| !in_vocab@[k] && hit(pv, gv, k)),
        decreases n - i,
    {
        let ok = span_in(&ps, gs[i]);
        proof {
            let g = spans_of(gv)[i as int];
            if ok {
                let k = choose|k: int| 0 <= k < ps@.len() && ps@[k] == gs@[i as int];
                assert(spans_of(pv)[k] == g);
            } else {
                if spans_of(pv).contains(g) {
                    let k = spans_of(pv).index_of(g);
                    assert(ps@[k] == gs@[i as int]);
                }
            }
            assert(ok == hit(pv, gv, i as int));
            lemma_count_where_bound(i as int, |k: int| hit(pv, gv, k));
            lemma_count_where_bound(i as int, |k: int| in_vocab@[k]);
            lemma_count_where_bound(i as int, |k: int| in_vocab@[k] && hit(pv, gv, k));
            lemma_count_where_bound(i as int, |k: int| !in_vocab@[k]);
            lemma_count_where_bound(i as int, |k: int| !in_vocab@[k] && hit(pv, gv, k));
        }
        if ok {
            correct = correct + 1;
        }
        if in_vocab[i] {
            gold_iv = gold_iv + 1;
            if ok {
                correct_iv = correct_iv + 1;
            }
        } else {
            gold_oov = gold_oov + 1;
            if ok {
                correct_oov = correct_oov + 1;
            }
        }
        i = i + 1;
    }
    let exact = predicted.len() == n && correct == n;
    SentenceScore {
        predicted: predicted.len(),
        gold: n,
        correct,
        gold_iv,
        correct_iv,
        gold_oov,
        correct_oov,
        exact,
    }
}

/// Scores summed over sentences.
#[derive(Clone, Copy, PartialEq, Eq, Structural, Debug)]
pub struct EvalCounts {
    pub predicted: usize,
    pub gold: usize,
    pub correct: usize,
    pub gold_iv: usize,
    pub correct_iv: usize,
    pub gold_oov: usize,
    pub correct_oov: usize,
    pub exact_sentences: usize,
    pub sentences: usize,
}

/// `a` with the scores of one more sentence added.
pub open spec fn with_sentence(a: EvalCounts, s: SentenceScore) -> EvalCounts {
    EvalCounts {
        predicted: (a.predicted + s.predicted) as usize,
        gold: (a.gold + s.gold) as usize,
        correct: (a.correct + s.correct) as usize,
        gold_iv: (a.gold_iv + s.gold_iv) as usize,
        correct_iv: (a.correct_iv + s.correct_iv) as usize,
        gold_oov: (a.gold_oov + s.gold_oov) as usize,
        correct_oov: (a.correct_oov + s.correct_oov) as usize,
        exact_sentences: (a.exact_sentences + if s.exact {
            1usize
        } else {
            0usize
        }) as usize,
        sentences: (a.sentences + 1) as usize,
    }
}

/// Adding `s` to `a` overflows no count.
pub open spec fn fits(a: EvalCounts, s: SentenceScore) -> bool {
    &&& a.predicted + s.predicted <= usize::MAX
    &&& a.gold + s.gold <= usize::MAX
    &&& a.correct + s.correct <= usize::MAX
    &&& a.gold_iv + s.gold_iv <= usize::MAX
    &&& a.correct_iv + s.correct_iv <= usize::MAX
    &&& a.gold_oov + s.gold_oov <= usize::MAX
    &&& a.correct_oov + s.correct_oov <= usize::MAX
    &&& a.exact_sentences < usize::MAX
    &&& a.sentences < usize::MAX
}

impl EvalCounts {
    /// No sentence scored yet.
    pub fn new() -> (c: Self)
        ensures
            c == (EvalCounts {
                predicted: 0,
                gold: 0,
                correct: 0,
                gold_iv: 0,
                correct_iv: 0,
                gold_oov: 0,
                correct_oov: 0,
                exact_sentences: 0,
                sentences: 0,
            }),
    {
        EvalCounts {
            predicted: 0,
            gold: 0,
            correct: 0,
            gold_iv: 0,
            correct_iv: 0,
            gold_oov: 0,
            correct_oov: 0,
            exact_sentences: 0,
            sentences: 0,
        }
    }

    /// Whether the scores of `s` can be added without overflow.
    pub fn can_add(&self, s: &SentenceScore) -> (b: bool)
        ensures
            b == fits(*self, *s),
    {
        s.predicted <= usize::MAX - self.predicted && s.gold <= usize::MAX - self.gold
            && s.correct <= usize::MAX - self.correct && s.gold_iv <= usize::MAX - self.gold_iv
            && s.correct_iv <= usize::MAX - self.correct_iv && s.gold_oov <= usize::MAX
            - self.gold_oov && s.correct_oov <= usize::MAX - self.correct_oov
            && self.exact_sentences < usize::MAX && self.sentences < usize::MAX
    }

    /// Add the scores of one more sentence.
    pub fn add(&mut self, s: &SentenceScore)
        requires
            fits(*old(self), *s),
        ensures
            *final(self) == with_sentence(*old(self), *s),
    {
        self.predicted = self.predicted + s.predicted;
        self.gold = self.gold + s.gold;
        self.correct = self.correct + s.correct;
        self.gold_iv = self.gold_iv + s.gold_iv;
        self.correct_iv = self.correct_iv + s.correct_iv;
        self.gold_oov = self.gold_oov + s.gold_oov;
        self.correct_oov = self.correct_oov + s.correct_oov;
        if s.exact {
            self.exact_sentences = self.exact_sentences + 1;
        }
        self.sentences = self.sentences + 1;
    }
}

/// A sentence's counts stay within its sizes: right ones at most the gold
/// ones, and the in- and out-of-vocabulary gold counts add up to all gold
/// tokens.
pub proof fn law_score_bounds(pred: Seq<Seq<char>>, gold: Seq<Seq<char>>, iv: Seq<bool>)
    requires
        iv.len() == gold.len(),
        gold.len() <= usize::MAX,
        pred.len() <= usize::MAX,
    ensures
        sentence_score(pred, gold, iv).correct <= sentence_score(pred, gold, iv).gold,
        sentence_score(pred, gold, iv).correct_iv <= sentence_score(pred, gold, iv).gold_iv,
        sentence_score(pred, gold, iv).correct_oov <= sentence_score(pred, gold, iv).gold_oov,
        sentence_score(pred, gold, iv).gold_iv + sentence_score(pred, gold, iv).gold_oov
            == sentence_score(pred, gold, iv).gold,
        sentence_score(pred, gold, iv).correct_iv + sentence_score(pred, gold, iv).correct_oov
            == sentence_score(pred, gold, iv).correct,
{
    let n = gold.len() as int;
    lemma_split_counts(n, pred, gold, iv);
    lemma_count_where_bound(n, |k: int| hit(pred, gold, k));
}

proof fn lemma_split_counts(n: int, pred: Seq<Seq<char>>, gold: Seq<Seq<char>>, iv: Seq<bool>)
    requires
        n >= 0,
    ensures
        count_where(n, |k: int| iv[k]) + count_where(n, |k: int| !iv[k]) == n,
        count_where(n, |k: int| iv[k] && hit(pred, gold, k)) + count_where(
            n,
            |k: int| !iv[k] && hit(pred, gold, k),
        ) == count_where(n, |k: int| hit(pred, gold, k)),
        count_where(n, |k: int| iv[k] && hit(pred, gold, k)) <= count_where(n, |k: int| iv[k]),
        count_where(n, |k: int| !iv[k] && hit(pred, gold, k)) <= count_where(n, |k: int| !iv[k]),
    decreases n,
{
    if n > 0 {
        lemma_split_counts(n - 1, pred, gold, iv);
    }
}

} // verus!
