//! Training runs: gold-segmented sentences cut into maximal runs of
//! consecutive Khmer words, each run's clusters tagged word by word.

use vstd::prelude::*;
use crate::bmes::{
    word_tags, words_tags, words_clusters, tag_word, bmes_tokens, lemma_words_clusters_append,
    lemma_words_clusters_one, lemma_words_tags_append, lemma_words_tags_one,
    law_tagged_words_decode,
};
use crate::kcc::{kcc, khmer, khmer_base, is_khmer, is_khmer_base, split_kcc, law_clusters_rejoin};
use crate::matching::Run;
use crate::text::{views, str_chars};

verus! {

/// Which words continue a training run.
#[derive(Clone, Copy, PartialEq, Eq, Structural, Debug)]
pub enum RunWords {
    /// Words starting with a Khmer letter; digits, punctuation and other
    /// scripts break the run.
    KhmerLetters,
    /// Words starting with any character of the Khmer block.
    KhmerScript,
}

/// Whether `w` continues a run.
pub open spec fn run_word(w: Seq<char>, mode: RunWords) -> bool {
    w.len() > 0 && match mode {
        RunWords::KhmerLetters => khmer_base(w[0]),
        RunWords::KhmerScript => khmer(w[0]),
    }
}

/// The group `cur`, if it holds a word.
pub open spec fn close(cur: Seq<Seq<char>>) -> Seq<Seq<Seq<char>>> {
    if cur.len() > 0 {
        seq![cur]
    } else {
        Seq::empty()
    }
}

/// The maximal groups of consecutive run words in `ws[i..]`, with the
/// words `cur` of an open group carried in.
pub open spec fn groups_from(ws: Seq<Seq<char>>, i: int, cur: Seq<Seq<char>>, mode: RunWords) -> Seq<
    Seq<Seq<char>>,
>
    decreases ws.len() - i,
{
    if i < 0 || i >= ws.len() {
        close(cur)
    } else if run_word(ws[i], mode) {
        groups_from(ws, i + 1, cur.push(ws[i]), mode)
    } else {
        close(cur) + groups_from(ws, i + 1, Seq::empty(), mode)
    }
}

/// The maximal groups of consecutive run words of a sentence.
pub open spec fn word_groups(ws: Seq<Seq<char>>, mode: RunWords) -> Seq<Seq<Seq<char>>> {
    groups_from(ws, 0, Seq::empty(), mode)
}

/// The words of a group, each as its clusters.
pub open spec fn group_words(g: Seq<Seq<char>>) -> Seq<Run> {
    g.map_values(|w: Seq<char>| kcc(w))
}

/// A group as a training run: its clusters and their tags.
pub open spec fn tagged(g: Seq<Seq<char>>) -> (Run, Seq<usize>) {
    (words_clusters(group_words(g)), words_tags(group_words(g)))
}

/// The training runs of one sentence.
pub open spec fn sentence_runs(ws: Seq<Seq<char>>, mode: RunWords) -> Seq<(Run, Seq<usize>)> {
    word_groups(ws, mode).map_values(|g: Seq<Seq<char>>| tagged(g))
}

/// The training runs of a list of sentences, sentence after sentence.
pub open spec fn corpus_runs(ss: Seq<Seq<Seq<char>>>, mode: RunWords) -> Seq<(Run, Seq<usize>)>
    decreases ss.len(),
{
    if ss.len() == 0 {
        Seq::empty()
    } else {
        corpus_runs(ss.drop_last(), mode) + sentence_runs(ss.last(), mode)
    }
}

/// The plain view of produced runs.
pub open spec fn run_views(rs: Seq<(Vec<String>, Vec<usize>)>) -> Seq<(Run, Seq<usize>)> {
    rs.map_values(|r: (Vec<String>, Vec<usize>)| (views(r.0@), r.1@))
}

/// The word lists of a list of sentences.
pub open spec fn sentence_views(ss: Seq<Vec<String>>) -> Seq<Seq<Seq<char>>> {
    ss.map_values(|s: Vec<String>| views(s@))
}

/// Whether the word `w` continues a run.
pub fn continues_run(w: &str, mode: RunWords) -> (b: bool)
    ensures
        b == run_word(w@, mode),
{
    let cs = str_chars(w);
    if cs.len() == 0 {
        return false;
    }
    match mode {
        RunWords::KhmerLetters => is_khmer_base(cs[0]),
        RunWords::KhmerScript => is_khmer(cs[0]),
    }
}

pub proof fn lemma_group_push(cur: Seq<Seq<char>>, w: Seq<char>)
    ensures
        tagged(cur.push(w)).0 == tagged(cur).0 + kcc(w),
        tagged(cur.push(w)).1 == tagged(cur).1 + word_tags(kcc(w).len()),
{
    assert(group_words(cur.push(w)) =~= group_words(cur) + seq![kcc(w)]);
    lemma_words_clusters_append(group_words(cur), seq![kcc(w)]);
    lemma_words_clusters_one(kcc(w));
    lemma_words_tags_append(group_words(cur), seq![kcc(w)]);
    lemma_words_tags_one(kcc(w));
}

proof fn lemma_group_nonempty(cur: Seq<Seq<char>>, mode: RunWords)
    requires
        forall|k: int| 0 <= k < cur.len() ==> #[trigger] run_word(cur[k], mode),
    ensures
        cur.len() > 0 <==> tagged(cur).0.len() > 0,
    decreases cur.len(),
{
    if cur.len() > 0 {
        let init = cur.drop_last();
        assert forall|k: int| 0 <= k < init.len() implies #[trigger] run_word(init[k], mode) by {
            assert(run_word(cur[k], mode));
        }
        lemma_group_nonempty(init, mode);
        assert(init.push(cur.last()) =~= cur);
        lemma_group_push(init, cur.last());
        assert(run_word(cur[cur.len() - 1], mode));
        law_clusters_rejoin(cur.last());
        if kcc(cur.last()).len() == 0 {
            assert(kcc(cur.last()).flatten() =~= Seq::<char>::empty());
        }
    } else {
        assert(group_words(cur) =~= Seq::<Run>::empty());
    }
}

/// Append the training runs of one sentence to `out`.
pub fn sentence_runs_into(
    words: &Vec<String>,
    mode: RunWords,
    out: &mut Vec<(Vec<String>, Vec<usize>)>,
)
    ensures
        run_views(final(out)@) == run_views(old(out)@) + sentence_runs(views(words@), mode),
{
    let ghost ws = views(words@);
    let ghost base = run_views(out@);
    let mut clusters: Vec<String> = Vec::new();
    let mut tags: Vec<usize> = Vec::new();
    let ghost mut cur: Seq<Seq<char>> = Seq::empty();
    let n = words.len();
    let mut i: usize = 0;
    proof {
        assert(group_words(cur) =~= Seq::<Run>::empty());
        assert(views(clusters@) =~= tagged(cur).0);
        assert(tags@ =~= tagged(cur).1);
        assert(run_views(out@) + sentence_runs(ws, mode) =~= base + sentence_runs(ws, mode));
    }
    while i < n
        invariant
            n == words@.len(),
            ws == views(words@),
            i <= n,
            views(clusters@) == tagged(cur).0,
            tags@ == tagged(cur).1,
            forall|k: int| 0 <= k < cur.len() ==> #[trigger] run_word(cur[k], mode),
            run_views(out@) + groups_from(ws, i as int, cur, mode).map_values(
                |g: Seq<Seq<char>>| tagged(g),
            ) == base + sentence_runs(ws, mode),
        decreases n - i,
    {
        let w = words[i].as_str();
        assert(w@ == ws[i as int]);
        let ghost before = run_views(out@);
        if continues_run(w, mode) {
            let wc = split_kcc(w);
            let wt = tag_word(wc.as_slice());
            let ghost old_cl = clusters@;
            let ghost old_tags = tags@;
            let mut k: usize = 0;
            while k < wc.len()
                invariant
                    k <= wc@.len(),
                    views(wc@) == kcc(w@),
                    wt@.len() == wc@.len(),
                    wt@ == word_tags(kcc(w@).len()),
                    views(clusters@) == views(old_cl) + views(wc@).take(k as int),
                    tags@ == old_tags + wt@.take(k as int),
                decreases wc.len() - k,
            {
                let ghost prev = clusters@;
                let c = wc[k].clone();
                assert(c@ == views(wc@)[k as int]);
                clusters.push(c);
                tags.push(wt[k]);
                assert(views(clusters@) =~= views(prev).push(c@));
                assert(views(wc@).take(k + 1) =~= views(wc@).take(k as int).push(c@));
                k = k + 1;
                assert(views(clusters@) =~= views(old_cl) + views(wc@).take(k as int));
                assert(tags@ =~= old_tags + wt@.take(k as int));
            }
            proof {
                assert(views(wc@).take(k as int) =~= views(wc@));
                assert(wt@.take(k as int) =~= wt@);
                lemma_group_push(cur, w@);
                cur = cur.push(w@);
            }
        } else {
            let ghost closing = close(cur);
            proof {
                lemma_group_nonempty(cur, mode);
            }
            if clusters.len() > 0 {
                let done_clusters = clusters;
                let done_tags = tags;
                out.push((done_clusters, done_tags));
                clusters = Vec::new();
                tags = Vec::new();
                assert(run_views(out@) =~= before + closing.map_values(
                    |g: Seq<Seq<char>>| tagged(g),
                ));
            } else {
                assert(closing =~= Seq::<Seq<Seq<char>>>::empty());
                assert(before + closing.map_values(|g: Seq<Seq<char>>| tagged(g)) =~= before);
            }
            proof {
                let rest = groups_from(ws, i + 1, Seq::empty(), mode);
                assert((closing + rest).map_values(|g: Seq<Seq<char>>| tagged(g)) =~= closing.map_values(
                    |g: Seq<Seq<char>>| tagged(g),
                ) + rest.map_values(|g: Seq<Seq<char>>| tagged(g)));
                cur = Seq::empty();
                assert(group_words(cur) =~= Seq::<Run>::empty());
                assert(views(clusters@) =~= tagged(cur).0);
                assert(tags@ =~= tagged(cur).1);
            }
        }
        i = i + 1;
    }
    let ghost before = run_views(out@);
    let ghost closing = close(cur);
    proof {
        lemma_group_nonempty(cur, mode);
    }
    if clusters.len() > 0 {
        out.push((clusters, tags));
        assert(run_views(out@) =~= before + closing.map_values(|g: Seq<Seq<char>>| tagged(g)));
    } else {
        assert(closing =~= Seq::<Seq<Seq<char>>>::empty());
        assert(before + closing.map_values(|g: Seq<Seq<char>>| tagged(g)) =~= before);
    }
}

/// Split gold-segmented sentences into maximal runs of consecutive Khmer
/// letter words, tagging every word's clusters. A run breaks at any word
/// that does not start with a Khmer letter: other scripts, but also
/// Khmer digits and punctuation.
pub fn extract_runs(sentences: &[Vec<String>]) -> (runs: Vec<(Vec<String>, Vec<usize>)>)
    ensures
        run_views(runs@) == corpus_runs(sentence_views(sentences@), RunWords::KhmerLetters),
{
    let mut runs: Vec<(Vec<String>, Vec<usize>)> = Vec::new();
    let mut i: usize = 0;
    while i < sentences.len()
        invariant
            i <= sentences@.len(),
            run_views(runs@) == corpus_runs(
                sentence_views(sentences@).take(i as int),
                RunWords::KhmerLetters,
            ),
        decreases sentences.len() - i,
    {
        sentence_runs_into(&sentences[i], RunWords::KhmerLetters, &mut runs);
        proof {
            let ss = sentence_views(sentences@);
            assert(ss.take(i + 1).drop_last() =~= ss.take(i as int));
        }
        i = i + 1;
    }
    assert(sentence_views(sentences@).take(i as int) =~= sentence_views(sentences@));
    runs
}

/// Every training run decodes back into its words: the tags of a run,
/// read by the BMES decoder, give exactly the cluster lists of the words
/// of its group.
pub proof fn law_runs_decode_to_words(ws: Seq<Seq<char>>, mode: RunWords, k: int)
    requires
        0 <= k < word_groups(ws, mode).len(),
    ensures
        bmes_tokens(sentence_runs(ws, mode)[k].0, sentence_runs(ws, mode)[k].1) == group_words(
            word_groups(ws, mode)[k],
        ),
{
    let g = word_groups(ws, mode)[k];
    lemma_groups_words(ws, 0, Seq::empty(), mode);
    assert(forall|j: int| 0 <= j < g.len() ==> #[trigger] run_word(g[j], mode));
    assert forall|j: int| 0 <= j < group_words(g).len() implies #[trigger] group_words(g)[j].len()
        > 0 by {
        assert(run_word(g[j], mode));
        law_clusters_rejoin(g[j]);
        if kcc(g[j]).len() == 0 {
            assert(kcc(g[j]).flatten() =~= Seq::<char>::empty());
        }
    }
    law_tagged_words_decode(group_words(g));
}

proof fn lemma_groups_words(ws: Seq<Seq<char>>, i: int, cur: Seq<Seq<char>>, mode: RunWords)
    requires
        0 <= i,
        forall|j: int| 0 <= j < cur.len() ==> #[trigger] run_word(cur[j], mode),
    ensures
        forall|k: int, j: int|
            0 <= k < groups_from(ws, i, cur, mode).len() && 0 <= j < groups_from(
                ws,
                i,
                cur,
                mode,
            )[k].len() ==> #[trigger] run_word(groups_from(ws, i, cur, mode)[k][j], mode),
    decreases ws.len() - i,
{
    let all = groups_from(ws, i, cur, mode);
    if i >= ws.len() {
        assert(all == close(cur));
        assert forall|k: int, j: int| 0 <= k < all.len() && 0 <= j < all[k].len() implies #[trigger] run_word(
            all[k][j],
            mode,
        ) by {
            assert(all[k] == cur);
        }
    } else if run_word(ws[i], mode) {
        let next = cur.push(ws[i]);
        assert forall|j: int| 0 <= j < next.len() implies #[trigger] run_word(next[j], mode) by {
            if j < cur.len() {
                assert(next[j] == cur[j]);
            }
        }
        lemma_groups_words(ws, i + 1, next, mode);
        assert(all == groups_from(ws, i + 1, next, mode));
    } else {
        lemma_groups_words(ws, i + 1, Seq::empty(), mode);
        let rest = groups_from(ws, i + 1, Seq::empty(), mode);
        assert(all == close(cur) + rest);
        assert forall|k: int, j: int| 0 <= k < all.len() && 0 <= j < all[k].len() implies #[trigger] run_word(
            all[k][j],
            mode,
        ) by {
            if k < close(cur).len() {
                assert(all[k] == cur);
            } else {
                assert(all[k] == rest[k - close(cur).len()]);
            }
        }
    }
}


/// The number of characters of a list of words.
pub open spec fn word_chars(ws: Seq<Seq<char>>) -> nat
    decreases ws.len(),
{
    if ws.len() == 0 {
        0
    } else {
        ws[0].len() + word_chars(ws.drop_first())
    }
}

/// The number of clusters of a list of runs.
pub open spec fn run_sizes(rs: Seq<(Run, Seq<usize>)>) -> nat
    decreases rs.len(),
{
    if rs.len() == 0 {
        0
    } else {
        rs[0].0.len() + run_sizes(rs.drop_first())
    }
}

pub proof fn lemma_run_sizes_append(a: Seq<(Run, Seq<usize>)>, b: Seq<(Run, Seq<usize>)>)
    ensures
        run_sizes(a + b) == run_sizes(a) + run_sizes(b),
    decreases a.len(),
{
    if a.len() == 0 {
        assert(a + b =~= b);
    } else {
        lemma_run_sizes_append(a.drop_first(), b);
        assert((a + b).drop_first() =~= a.drop_first() + b);
    }
}

/// A text has at most as many clusters as characters.
pub proof fn lemma_kcc_len(w: Seq<char>)
    ensures
        kcc(w).len() <= w.len(),
{
    law_clusters_rejoin(w);
    lemma_nonempty_flatten(kcc(w));
}

proof fn lemma_nonempty_flatten(ss: Seq<Seq<char>>)
    requires
        forall|k: int| 0 <= k < ss.len() ==> #[trigger] ss[k].len() > 0,
    ensures
        ss.len() <= ss.flatten().len(),
    decreases ss.len(),
{
    if ss.len() > 0 {
        assert forall|k: int| 0 <= k < ss.drop_first().len() implies #[trigger] ss.drop_first()[
            k].len() > 0 by {
            assert(ss[k + 1].len() > 0);
        }
        lemma_nonempty_flatten(ss.drop_first());
        assert(ss[0].len() > 0);
    }
}

proof fn lemma_groups_size(ws: Seq<Seq<char>>, i: int, cur: Seq<Seq<char>>, mode: RunWords)
    requires
        0 <= i <= ws.len(),
    ensures
        run_sizes(groups_from(ws, i, cur, mode).map_values(|g: Seq<Seq<char>>| tagged(g)))
            <= tagged(cur).0.len() + word_chars(ws.subrange(i, ws.len() as int)),
    decreases ws.len() - i,
{
    let n = ws.len() as int;
    let all = groups_from(ws, i, cur, mode);
    if i >= n {
        if cur.len() > 0 {
            assert(all.map_values(|g: Seq<Seq<char>>| tagged(g)) =~= seq![tagged(cur)]);
            assert(seq![tagged(cur)].drop_first() =~= Seq::<(Run, Seq<usize>)>::empty());
            let one: Seq<(Run, Seq<usize>)> = seq![tagged(cur)];
            assert(one[0] == tagged(cur));
            assert(run_sizes(one.drop_first()) == 0);
            assert(run_sizes(one) == tagged(cur).0.len());
        } else {
            assert(all.map_values(|g: Seq<Seq<char>>| tagged(g)) =~= Seq::<(Run, Seq<usize>)>::empty());
        }
        assert(run_sizes(all.map_values(|g: Seq<Seq<char>>| tagged(g))) <= tagged(cur).0.len());
    } else {
        let w = ws[i];
        assert(ws.subrange(i, n).drop_first() =~= ws.subrange(i + 1, n));
        assert(ws.subrange(i, n)[0] == w);
        if run_word(w, mode) {
            lemma_groups_size(ws, i + 1, cur.push(w), mode);
            lemma_group_push(cur, w);
            lemma_kcc_len(w);
            assert(all == groups_from(ws, i + 1, cur.push(w), mode));
            assert(tagged(cur.push(w)).0.len() <= tagged(cur).0.len() + w.len());
            assert(word_chars(ws.subrange(i, n)) == w.len() + word_chars(ws.subrange(i + 1, n)));
            assert(run_sizes(all.map_values(|g: Seq<Seq<char>>| tagged(g))) <= tagged(cur).0.len() + word_chars(ws.subrange(i, n)));
        } else {
            lemma_groups_size(ws, i + 1, Seq::empty(), mode);
            assert(group_words(Seq::<Seq<char>>::empty()) =~= Seq::<Run>::empty());
            let rest = groups_from(ws, i + 1, Seq::empty(), mode);
            assert(all.map_values(|g: Seq<Seq<char>>| tagged(g)) =~= close(cur).map_values(|g: Seq<Seq<char>>| tagged(g)) + rest.map_values(|g: Seq<Seq<char>>| tagged(g)));
            lemma_run_sizes_append(close(cur).map_values(|g: Seq<Seq<char>>| tagged(g)), rest.map_values(|g: Seq<Seq<char>>| tagged(g)));
            assert(word_chars(ws.subrange(i, n)) == w.len() + word_chars(ws.subrange(i + 1, n)));
            assert(tagged(Seq::<Seq<char>>::empty()).0.len() == 0);
            if cur.len() > 0 {
                assert(close(cur).map_values(|g: Seq<Seq<char>>| tagged(g)) =~= seq![tagged(cur)]);
                let one: Seq<(Run, Seq<usize>)> = seq![tagged(cur)];
                assert(one.drop_first() =~= Seq::<(Run, Seq<usize>)>::empty());
                assert(one[0] == tagged(cur));
                assert(run_sizes(one.drop_first()) == 0);
                assert(run_sizes(one) == tagged(cur).0.len());
            } else {
                assert(close(cur).map_values(|g: Seq<Seq<char>>| tagged(g)) =~= Seq::<(Run, Seq<usize>)>::empty());
            }
        }
    }
}

/// The runs of a sentence hold at most as many clusters as the sentence
/// has characters.
pub proof fn lemma_sentence_runs_size(ws: Seq<Seq<char>>, mode: RunWords)
    ensures
        run_sizes(sentence_runs(ws, mode)) <= word_chars(ws),
{
    lemma_groups_size(ws, 0, Seq::empty(), mode);
    assert(ws.subrange(0, ws.len() as int) =~= ws);
    assert(group_words(Seq::<Seq<char>>::empty()) =~= Seq::<Run>::empty());
}

/// Every run has one tag per cluster, each a valid tag.
pub proof fn lemma_sentence_runs_tagged(ws: Seq<Seq<char>>, mode: RunWords, k: int)
    requires
        0 <= k < sentence_runs(ws, mode).len(),
    ensures
        sentence_runs(ws, mode)[k].1.len() == sentence_runs(ws, mode)[k].0.len(),
        crate::bmes::valid_tags(sentence_runs(ws, mode)[k].1),
{
    let g = word_groups(ws, mode)[k];
    crate::bmes::lemma_words_lengths(group_words(g));
    lemma_words_tags_valid(group_words(g));
}

proof fn lemma_words_tags_valid(ws: Seq<Run>)
    ensures
        crate::bmes::valid_tags(words_tags(ws)),
    decreases ws.len(),
{
    if ws.len() > 0 {
        lemma_words_tags_valid(ws.drop_first());
        let a = word_tags(ws[0].len());
        let b = words_tags(ws.drop_first());
        assert forall|i: int| 0 <= i < (a + b).len() implies #[trigger] (a + b)[i]
            < crate::bmes::NUM_STATES by {
            if i >= a.len() {
                assert((a + b)[i] == b[i - a.len()]);
            }
        }
    }
}

} // verus!
