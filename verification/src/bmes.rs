//! The Begin/Middle/End/Single tag set shared by the statistical
//! segmenters: tagging a word's clusters, and turning a decoded tag
//! sequence back into tokens.

use vstd::prelude::*;
use crate::matching::{Run, tviews};
use crate::text::views;

verus! {

/// Number of BMES tags.
pub const NUM_STATES: usize = 4;
/// First cluster of a multi-cluster word.
pub const BEGIN: usize = 0;
/// Inner cluster of a multi-cluster word.
pub const MIDDLE: usize = 1;
/// Last cluster of a multi-cluster word.
pub const END: usize = 2;
/// A one-cluster word.
pub const SINGLE: usize = 3;

/// The tags of a word of `n` clusters: `SINGLE` for one cluster; otherwise
/// `BEGIN`, then `MIDDLE`s, then `END`.
pub open spec fn word_tags(n: nat) -> Seq<usize> {
    Seq::new(
        n,
        |i: int|
            if n == 1 {
                SINGLE
            } else if i == 0 {
                BEGIN
            } else if i == n - 1 {
                END
            } else {
                MIDDLE
            },
    )
}

/// BMES tags for one gold word's clusters.
pub fn tag_word(clusters: &[String]) -> (tags: Vec<usize>)
    ensures
        tags@ == word_tags(clusters@.len()),
{
    let n = clusters.len();
    let mut tags: Vec<usize> = Vec::new();
    let mut i: usize = 0;
    while i < n
        invariant
            i <= n,
            n == clusters@.len(),
            tags@ == word_tags(n as nat).take(i as int),
        decreases n - i,
    {
        let t = if n == 1 {
            SINGLE
        } else if i == 0 {
            BEGIN
        } else if i == n - 1 {
            END
        } else {
            MIDDLE
        };
        tags.push(t);
        i = i + 1;
        assert(tags@ =~= word_tags(n as nat).take(i as int));
    }
    assert(word_tags(n as nat).take(n as int) =~= word_tags(n as nat));
    tags
}

/// The tokens pending `cur`, if any.
pub open spec fn flush(cur: Run) -> Seq<Run> {
    if cur.len() > 0 {
        seq![cur]
    } else {
        Seq::empty()
    }
}

/// The tokens that the tags `tags[i..]` make of `cl[i..]`, with the
/// clusters `cur` of an unfinished token carried in.
pub open spec fn bmes_from(cl: Run, tags: Seq<usize>, i: int, cur: Run) -> Seq<Run>
    decreases cl.len() - i,
{
    if i < 0 || i >= cl.len() {
        flush(cur)
    } else if tags[i] == BEGIN {
        flush(cur) + bmes_from(cl, tags, i + 1, seq![cl[i]])
    } else if tags[i] == MIDDLE {
        bmes_from(cl, tags, i + 1, cur.push(cl[i]))
    } else if tags[i] == END {
        seq![cur.push(cl[i])] + bmes_from(cl, tags, i + 1, Seq::empty())
    } else {
        flush(cur) + seq![seq![cl[i]]] + bmes_from(cl, tags, i + 1, Seq::empty())
    }
}

/// The tokens a BMES tag sequence makes of its clusters: a token ends
/// after `END` or `SINGLE`, before `BEGIN` or `SINGLE`, and at the end.
pub open spec fn bmes_tokens(cl: Run, tags: Seq<usize>) -> Seq<Run> {
    bmes_from(cl, tags, 0, Seq::empty())
}

/// Every tag is one of the four.
pub open spec fn valid_tags(tags: Seq<usize>) -> bool {
    forall|i: int| 0 <= i < tags.len() ==> #[trigger] tags[i] < NUM_STATES
}

/// Convert a BMES tag sequence over `clusters` into tokens, each the list
/// of its clusters.
pub fn bmes_to_tokens(clusters: &[String], tags: &[usize]) -> (tokens: Vec<Vec<String>>)
    requires
        tags@.len() == clusters@.len(),
        valid_tags(tags@),
    ensures
        tviews(tokens@) == bmes_tokens(views(clusters@), tags@),
{
    let ghost cl = views(clusters@);
    let mut tokens: Vec<Vec<String>> = Vec::new();
    let mut current: Vec<String> = Vec::new();
    let n = clusters.len();
    let mut i: usize = 0;
    assert(views(current@) =~= Seq::<Seq<char>>::empty());
    assert(tviews(tokens@) + bmes_tokens(cl, tags@) =~= bmes_tokens(cl, tags@));
    while i < n
        invariant
            n == clusters@.len(),
            tags@.len() == n,
            cl == views(clusters@),
            valid_tags(tags@),
            i <= n,
            tviews(tokens@) + bmes_from(cl, tags@, i as int, views(current@)) == bmes_tokens(
                cl,
                tags@,
            ),
        decreases n - i,
    {
        let tag = tags[i];
        let c = clusters[i].clone();
        assert(c@ == cl[i as int]);
        let ghost before = tviews(tokens@);
        let ghost cur = views(current@);
        if tag == BEGIN {
            if current.len() > 0 {
                tokens.push(current);
                assert(tviews(tokens@) =~= before + flush(cur));
            } else {
                assert(flush(cur) =~= Seq::<Run>::empty());
                assert(before + flush(cur) =~= before);
            }
            current = Vec::new();
            current.push(c);
            assert(views(current@) =~= seq![cl[i as int]]);
            assert(before + (flush(cur) + bmes_from(cl, tags@, i + 1, seq![cl[i as int]])) =~= (
            before + flush(cur)) + bmes_from(cl, tags@, i + 1, seq![cl[i as int]]));
        } else if tag == MIDDLE {
            current.push(c);
            assert(views(current@) =~= cur.push(cl[i as int]));
        } else if tag == END {
            current.push(c);
            assert(views(current@) =~= cur.push(cl[i as int]));
            tokens.push(current);
            current = Vec::new();
            assert(views(current@) =~= Seq::<Seq<char>>::empty());
            assert(tviews(tokens@) =~= before + seq![cur.push(cl[i as int])]);
            assert(before + (seq![cur.push(cl[i as int])] + bmes_from(
                cl,
                tags@,
                i + 1,
                Seq::empty(),
            )) =~= (before + seq![cur.push(cl[i as int])]) + bmes_from(
                cl,
                tags@,
                i + 1,
                Seq::empty(),
            ));
        } else {
            if current.len() > 0 {
                tokens.push(current);
                assert(tviews(tokens@) =~= before + flush(cur));
            } else {
                assert(flush(cur) =~= Seq::<Run>::empty());
                assert(before + flush(cur) =~= before);
            }
            let mut single: Vec<String> = Vec::new();
            single.push(c);
            assert(views(single@) =~= seq![cl[i as int]]);
            let ghost mid = tviews(tokens@);
            tokens.push(single);
            assert(tviews(tokens@) =~= mid + seq![seq![cl[i as int]]]);
            current = Vec::new();
            assert(views(current@) =~= Seq::<Seq<char>>::empty());
            assert(before + (flush(cur) + seq![seq![cl[i as int]]] + bmes_from(
                cl,
                tags@,
                i + 1,
                Seq::empty(),
            )) =~= (before + flush(cur) + seq![seq![cl[i as int]]]) + bmes_from(
                cl,
                tags@,
                i + 1,
                Seq::empty(),
            ));
        }
        i = i + 1;
    }
    let ghost before = tviews(tokens@);
    let ghost cur = views(current@);
    if current.len() > 0 {
        tokens.push(current);
        assert(tviews(tokens@) =~= before + flush(cur));
    } else {
        assert(before + flush(cur) =~= before);
    }
    tokens
}


/// The tags of a sequence of words, word after word.
pub open spec fn words_tags(ws: Seq<Run>) -> Seq<usize>
    decreases ws.len(),
{
    if ws.len() == 0 {
        Seq::empty()
    } else {
        word_tags(ws[0].len()) + words_tags(ws.drop_first())
    }
}

/// The clusters of a sequence of words, word after word.
pub open spec fn words_clusters(ws: Seq<Run>) -> Run
    decreases ws.len(),
{
    if ws.len() == 0 {
        Seq::empty()
    } else {
        ws[0] + words_clusters(ws.drop_first())
    }
}

proof fn lemma_bmes_flat(cl: Run, tags: Seq<usize>, i: int, cur: Run)
    requires
        0 <= i <= cl.len(),
        tags.len() == cl.len(),
        valid_tags(tags),
    ensures
        words_clusters(bmes_from(cl, tags, i, cur)) == cur + cl.subrange(i, cl.len() as int),
        forall|k: int|
            0 <= k < bmes_from(cl, tags, i, cur).len() ==> #[trigger] bmes_from(
                cl,
                tags,
                i,
                cur,
            )[k].len() > 0,
    decreases cl.len() - i,
{
    let n = cl.len() as int;
    if i >= n {
        assert(cl.subrange(i, n) =~= Seq::<Seq<char>>::empty());
        if cur.len() > 0 {
            lemma_words_clusters_one(cur);
        }
        assert(cur + cl.subrange(i, n) =~= cur);
    } else {
        let c = cl[i];
        let rest = cl.subrange(i + 1, n);
        assert(cl.subrange(i, n) =~= seq![c] + rest);
        if tags[i] == BEGIN {
            lemma_bmes_flat(cl, tags, i + 1, seq![c]);
            lemma_words_clusters_append(flush(cur), bmes_from(cl, tags, i + 1, seq![c]));
            if cur.len() > 0 {
                lemma_words_clusters_one(cur);
            }
            assert(words_clusters(flush(cur)) =~= cur);
            assert(cur + (seq![c] + rest) =~= cur + cl.subrange(i, n));
        } else if tags[i] == MIDDLE {
            lemma_bmes_flat(cl, tags, i + 1, cur.push(c));
            assert(cur.push(c) + rest =~= cur + cl.subrange(i, n));
        } else if tags[i] == END {
            lemma_bmes_flat(cl, tags, i + 1, Seq::empty());
            lemma_words_clusters_append(
                seq![cur.push(c)],
                bmes_from(cl, tags, i + 1, Seq::empty()),
            );
            lemma_words_clusters_one(cur.push(c));
            assert(cur.push(c) + (Seq::<Seq<char>>::empty() + rest) =~= cur + cl.subrange(i, n));
        } else {
            lemma_bmes_flat(cl, tags, i + 1, Seq::empty());
            let tail = bmes_from(cl, tags, i + 1, Seq::empty());
            lemma_words_clusters_append(flush(cur), seq![seq![c]]);
            lemma_words_clusters_append(flush(cur) + seq![seq![c]], tail);
            if cur.len() > 0 {
                lemma_words_clusters_one(cur);
            }
            assert(words_clusters(flush(cur)) =~= cur);
            lemma_words_clusters_one(seq![c]);
            assert(cur + seq![c] + (Seq::<Seq<char>>::empty() + rest) =~= cur + cl.subrange(
                i,
                n,
            ));
        }
    }
}

pub proof fn lemma_words_clusters_one(w: Run)
    ensures
        words_clusters(seq![w]) == w,
{
    let one: Seq<Run> = seq![w];
    assert(one.drop_first() =~= Seq::<Run>::empty());
    assert(words_clusters(one.drop_first()) =~= Seq::<Seq<char>>::empty());
    assert(one[0] == w);
    assert(w + Seq::<Seq<char>>::empty() =~= w);
}

pub proof fn lemma_words_clusters_append(a: Seq<Run>, b: Seq<Run>)
    ensures
        words_clusters(a + b) == words_clusters(a) + words_clusters(b),
    decreases a.len(),
{
    if a.len() == 0 {
        assert(a + b =~= b);
    } else {
        lemma_words_clusters_append(a.drop_first(), b);
        assert((a + b).drop_first() =~= a.drop_first() + b);
        assert(words_clusters(a) + words_clusters(b) =~= a[0] + (words_clusters(a.drop_first())
            + words_clusters(b)));
    }
}

/// Decoding never loses or invents a cluster: the tokens of a BMES tag
/// sequence are non-empty and, joined in order, give back the clusters.
pub proof fn law_bmes_tokens_rejoin(cl: Run, tags: Seq<usize>)
    requires
        tags.len() == cl.len(),
        valid_tags(tags),
    ensures
        words_clusters(bmes_tokens(cl, tags)) == cl,
        forall|k: int|
            0 <= k < bmes_tokens(cl, tags).len() ==> #[trigger] bmes_tokens(cl, tags)[k].len() > 0,
{
    lemma_bmes_flat(cl, tags, 0, Seq::empty());
    assert(Seq::<Seq<char>>::empty() + cl.subrange(0, cl.len() as int) =~= cl);
}

proof fn lemma_inside_word(cl: Run, tags: Seq<usize>, i: int, w: Run, j: int)
    requires
        w.len() >= 2,
        1 <= j <= w.len() - 1,
        0 <= i,
        i + w.len() <= cl.len(),
        tags.len() == cl.len(),
        cl.subrange(i, i + w.len()) == w,
        tags.subrange(i, i + w.len()) == word_tags(w.len()),
    ensures
        bmes_from(cl, tags, i + j, w.take(j)) == seq![w] + bmes_from(
            cl,
            tags,
            i + w.len(),
            Seq::empty(),
        ),
    decreases w.len() - j,
{
    assert(cl[i + j] == cl.subrange(i, i + w.len())[j]);
    assert(tags[i + j] == tags.subrange(i, i + w.len())[j]);
    if j == w.len() - 1 {
        assert(tags[i + j] == END);
        assert(w.take(j).push(cl[i + j]) =~= w);
    } else {
        assert(tags[i + j] == MIDDLE);
        lemma_inside_word(cl, tags, i, w, j + 1);
        assert(w.take(j).push(cl[i + j]) =~= w.take(j + 1));
    }
}

proof fn lemma_one_word(cl: Run, tags: Seq<usize>, i: int, w: Run)
    requires
        w.len() >= 1,
        0 <= i,
        i + w.len() <= cl.len(),
        tags.len() == cl.len(),
        cl.subrange(i, i + w.len()) == w,
        tags.subrange(i, i + w.len()) == word_tags(w.len()),
    ensures
        bmes_from(cl, tags, i, Seq::empty()) == seq![w] + bmes_from(
            cl,
            tags,
            i + w.len(),
            Seq::empty(),
        ),
{
    assert(cl[i] == cl.subrange(i, i + w.len())[0]);
    assert(tags[i] == tags.subrange(i, i + w.len())[0]);
    let rest = bmes_from(cl, tags, i + w.len(), Seq::empty());
    if w.len() == 1 {
        assert(tags[i] == SINGLE);
        assert(seq![cl[i]] =~= w);
        assert(flush(Seq::<Seq<char>>::empty()) =~= Seq::<Run>::empty());
        assert(Seq::<Run>::empty() + seq![w] + rest =~= seq![w] + rest);
    } else {
        assert(tags[i] == BEGIN);
        lemma_inside_word(cl, tags, i, w, 1);
        assert(w.take(1) =~= seq![cl[i]]);
        assert(flush(Seq::<Seq<char>>::empty()) =~= Seq::<Run>::empty());
        assert(Seq::<Run>::empty() + (seq![w] + rest) =~= seq![w] + rest);
    }
}

proof fn lemma_words_decode(cl: Run, tags: Seq<usize>, i: int, ws: Seq<Run>)
    requires
        0 <= i <= cl.len(),
        tags.len() == cl.len(),
        cl.subrange(i, cl.len() as int) == words_clusters(ws),
        tags.subrange(i, cl.len() as int) == words_tags(ws),
        forall|k: int| 0 <= k < ws.len() ==> #[trigger] ws[k].len() > 0,
    ensures
        bmes_from(cl, tags, i, Seq::empty()) == ws,
    decreases ws.len(),
{
    let n = cl.len() as int;
    if ws.len() == 0 {
        assert(cl.subrange(i, n).len() == 0);
        assert(flush(Seq::<Seq<char>>::empty()) =~= Seq::<Run>::empty());
    } else {
        let w = ws[0];
        assert(ws[0].len() > 0);
        let m = w.len() as int;
        assert(words_clusters(ws) == w + words_clusters(ws.drop_first()));
        assert(words_tags(ws) == word_tags(w.len()) + words_tags(ws.drop_first()));
        assert(i + m <= n);
        assert(cl.subrange(i, i + m) =~= cl.subrange(i, n).subrange(0, m));
        assert(cl.subrange(i, n).subrange(0, m) =~= w);
        assert(tags.subrange(i, i + m) =~= tags.subrange(i, n).subrange(0, m));
        assert(tags.subrange(i, n).subrange(0, m) =~= word_tags(w.len()));
        lemma_one_word(cl, tags, i, w);
        assert(cl.subrange(i + m, n) =~= cl.subrange(i, n).subrange(m, n - i));
        assert(cl.subrange(i, n).subrange(m, n - i) =~= words_clusters(ws.drop_first()));
        assert(tags.subrange(i + m, n) =~= tags.subrange(i, n).subrange(m, n - i));
        assert(tags.subrange(i, n).subrange(m, n - i) =~= words_tags(ws.drop_first()));
        assert forall|k: int| 0 <= k < ws.drop_first().len() implies #[trigger] ws.drop_first()[
            k].len() > 0 by {
            assert(ws[k + 1].len() > 0);
        }
        lemma_words_decode(cl, tags, i + m, ws.drop_first());
        assert(seq![w] + ws.drop_first() =~= ws);
    }
}

/// Tagging gold words and decoding the tags gives the words back: the
/// tags training is read from and the decoder that turns tags into tokens
/// agree.
pub proof fn law_tagged_words_decode(ws: Seq<Run>)
    requires
        forall|k: int| 0 <= k < ws.len() ==> #[trigger] ws[k].len() > 0,
    ensures
        bmes_tokens(words_clusters(ws), words_tags(ws)) == ws,
{
    lemma_words_lengths(ws);
    let cl = words_clusters(ws);
    assert(cl.subrange(0, cl.len() as int) =~= cl);
    assert(words_tags(ws).subrange(0, cl.len() as int) =~= words_tags(ws));
    lemma_words_decode(cl, words_tags(ws), 0, ws);
}

pub proof fn lemma_words_lengths(ws: Seq<Run>)
    ensures
        words_tags(ws).len() == words_clusters(ws).len(),
    decreases ws.len(),
{
    if ws.len() > 0 {
        lemma_words_lengths(ws.drop_first());
    }
}


pub proof fn lemma_words_tags_append(a: Seq<Run>, b: Seq<Run>)
    ensures
        words_tags(a + b) == words_tags(a) + words_tags(b),
    decreases a.len(),
{
    if a.len() == 0 {
        assert(a + b =~= b);
        assert(words_tags(a) + words_tags(b) =~= words_tags(b));
    } else {
        lemma_words_tags_append(a.drop_first(), b);
        assert((a + b).drop_first() =~= a.drop_first() + b);
        assert(words_tags(a) + words_tags(b) =~= word_tags(a[0].len()) + (words_tags(
            a.drop_first(),
        ) + words_tags(b)));
    }
}

pub proof fn lemma_words_tags_one(w: Run)
    ensures
        words_tags(seq![w]) == word_tags(w.len()),
{
    let one: Seq<Run> = seq![w];
    assert(one.drop_first() =~= Seq::<Run>::empty());
    assert(words_tags(one.drop_first()) =~= Seq::<usize>::empty());
    assert(word_tags(w.len()) + Seq::<usize>::empty() =~= word_tags(w.len()));
}

} // verus!
