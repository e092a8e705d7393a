//! Text whose word boundaries are marked with `U+200B` ZERO WIDTH SPACE:
//! segmented tokens joined by the marker render like the text they came
//! from and segment back into the same tokens.

use vstd::prelude::*;
use crate::matching::{
    Run, Dict, fmm, fmm_from, bmm, minwords, minwords_from, greedy_end, best_from, is_edge,
    rev_tokens, lemma_longest_end_bounds, lemma_best_from, law_word_kept_whole,
    law_tokens_rejoin_run, all_nonempty,
};
use crate::kcc::{
    COENG, khmer_base, khmer_combining, attach_end, cluster_end, clusters_from, kcc,
    lemma_attach_end_bounds, lemma_cluster_end_bounds,
};
use crate::strategy::Strategy;
use crate::tokenizer::{
    run_tokens, rev_dict, segment_input, sep_cluster, khmer_cluster, other_end, khmer_end, segment_from,
    segmented, joined, groups_from, token_groups, lemma_other_end, lemma_khmer_end,
    lemma_other_range, lemma_khmer_range, law_tokens_are_whole_clusters,
};
use crate::text::{lemma_trimmed_nonempty, views, str_chars, push_all, string_of};
use crate::normalize::{
    reorderable, mark_rank, rule_at, order_at, sweep, order_sweep, pass, settled, iterate,
    normal_form, normal_form_of, lemma_normal_form, law_normal_form_exists,
};

verus! {

// ---------------------------------------------------------------------------
// A token alone
// ---------------------------------------------------------------------------

/// Every token is a dictionary word or a single cluster.
pub open spec fn words_or_singles(toks: Seq<Run>, d: Dict) -> bool {
    forall|k: int| 0 <= k < toks.len() ==> d.contains(#[trigger] toks[k]) || toks[k].len() == 1
}

proof fn lemma_fmm_from_words(run: Run, i: int, d: Dict)
    requires
        0 <= i <= run.len(),
    ensures
        words_or_singles(fmm_from(run, i, d), d),
    decreases run.len() - i,
{
    let n = run.len() as int;
    if i < n {
        lemma_longest_end_bounds(run, i, n, d);
        let e = greedy_end(run, i, d);
        lemma_fmm_from_words(run, e, d);
        let rest = fmm_from(run, e, d);
        let all = fmm_from(run, i, d);
        assert(all == seq![run.subrange(i, e)] + rest);
        assert forall|k: int| 0 <= k < all.len() implies d.contains(#[trigger] all[k])
            || all[k].len() == 1 by {
            if k > 0 {
                assert(all[k] == rest[k - 1]);
            }
        }
    }
}

proof fn lemma_minwords_from_words(run: Run, i: int, d: Dict)
    requires
        0 <= i <= run.len(),
    ensures
        words_or_singles(minwords_from(run, i, d), d),
    decreases run.len() - i,
{
    let n = run.len() as int;
    if i < n {
        lemma_best_from(run, i, d);
        let e = best_from(run, i, d).2;
        lemma_minwords_from_words(run, e, d);
        let rest = minwords_from(run, e, d);
        let all = minwords_from(run, i, d);
        assert(all == seq![run.subrange(i, e)] + rest);
        assert(is_edge(run, i, e, d));
        assert forall|k: int| 0 <= k < all.len() implies d.contains(#[trigger] all[k])
            || all[k].len() == 1 by {
            if k > 0 {
                assert(all[k] == rest[k - 1]);
            }
        }
    }
}

proof fn lemma_bmm_words(run: Run, d: Dict)
    ensures
        words_or_singles(bmm(run, rev_dict(d)), d),
{
    let rd = rev_dict(d);
    let f = fmm(run.reverse(), rd);
    lemma_fmm_from_words(run.reverse(), 0, rd);
    let b = bmm(run, rd);
    assert(b == rev_tokens(f));
    assert forall|k: int| 0 <= k < b.len() implies d.contains(#[trigger] b[k]) || b[k].len()
        == 1 by {
        let u = f[f.len() - 1 - k];
        assert(f.reverse()[k] == u);
        assert(b[k] == u.reverse());
        assert(u.reverse().reverse() =~= u);
    }
}

proof fn lemma_run_tokens_words(strategy: Strategy, run: Run, d: Dict)
    ensures
        words_or_singles(run_tokens(strategy, run, d), d),
{
    lemma_fmm_from_words(run, 0, d);
    lemma_minwords_from_words(run, 0, d);
    lemma_bmm_words(run, d);
}

proof fn lemma_single_cluster(strategy: Strategy, c: Seq<char>, d: Dict)
    ensures
        run_tokens(strategy, seq![c], d) == seq![seq![c]],
{
    let run = seq![c];
    let rd = rev_dict(d);
    assert(run.subrange(0, 1) =~= run);
    lemma_longest_end_bounds(run, 0, 1, d);
    assert(greedy_end(run, 0, d) == 1);
    assert(fmm_from(run, 1, d) =~= Seq::<Run>::empty());
    assert(fmm(run, d) =~= seq![run]);
    lemma_best_from(run, 0, d);
    assert(minwords_from(run, 1, d) =~= Seq::<Run>::empty());
    assert(minwords(run, d) =~= seq![run]);
    assert(run.reverse() =~= run);
    lemma_longest_end_bounds(run, 0, 1, rd);
    assert(greedy_end(run, 0, rd) == 1);
    assert(fmm_from(run, 1, rd) =~= Seq::<Run>::empty());
    assert(fmm(run, rd) =~= seq![run]);
    assert(rev_tokens(seq![run]) =~= seq![run.reverse()]);
    assert(bmm(run, rd) == seq![run]);
}

/// A single token, a dictionary word or one cluster, is segmented by every
/// strategy into just itself.
proof fn lemma_token_alone(strategy: Strategy, t: Run, d: Dict)
    requires
        t.len() > 0,
        d.contains(t) || t.len() == 1,
    ensures
        run_tokens(strategy, t, d) == seq![t],
{
    if d.contains(t) {
        assert(t.reverse().reverse() =~= t);
        assert(rev_dict(d).contains(t.reverse()));
        law_word_kept_whole(t, d, rev_dict(d));
    } else {
        assert(t =~= seq![t[0]]);
        lemma_single_cluster(strategy, t[0], d);
    }
}

/// Segmentation is stable on its own tokens: each token that a strategy
/// makes of a run, segmented alone by the same strategy, stays one token.
pub proof fn law_token_segments_to_itself(strategy: Strategy, run: Run, d: Dict)
    ensures
        forall|k: int|
            0 <= k < run_tokens(strategy, run, d).len() ==> run_tokens(
                strategy,
                #[trigger] run_tokens(strategy, run, d)[k],
                d,
            ) == seq![run_tokens(strategy, run, d)[k]],
{
    let toks = run_tokens(strategy, run, d);
    law_tokens_rejoin_run(run, d, rev_dict(d));
    lemma_run_tokens_words(strategy, run, d);
    assert forall|k: int| 0 <= k < toks.len() implies run_tokens(strategy, #[trigger] toks[k], d)
        == seq![toks[k]] by {
        assert(all_nonempty(toks));
        assert(toks[k].len() > 0);
        lemma_token_alone(strategy, toks[k], d);
    }
}

// ---------------------------------------------------------------------------
// Clusters around a ZERO WIDTH SPACE
// ---------------------------------------------------------------------------

/// `U+200B` ZERO WIDTH SPACE.
pub open spec fn zwsp() -> char {
    '\u{200B}'
}

/// Tokens joined with a ZERO WIDTH SPACE between each two.
pub open spec fn zwsp_joined(toks: Seq<Seq<char>>) -> Seq<char>
    decreases toks.len(),
{
    if toks.len() == 0 {
        Seq::empty()
    } else if toks.len() == 1 {
        toks[0]
    } else {
        toks[0] + seq![zwsp()] + zwsp_joined(toks.drop_first())
    }
}

/// Where cluster scanning stops: the end of the text or a ZERO WIDTH SPACE.
pub open spec fn stops_at(t: Seq<char>, k: int) -> bool {
    k == t.len() || (0 <= k < t.len() && t[k] == zwsp())
}

/// `t` holds `s[lo..hi]` shifted by `off`.
pub open spec fn agrees(s: Seq<char>, t: Seq<char>, lo: int, hi: int, off: int) -> bool {
    &&& 0 <= lo <= hi <= s.len()
    &&& 0 <= lo + off
    &&& hi + off <= t.len()
    &&& forall|m: int| lo <= m < hi ==> t[m + off] == #[trigger] s[m]
}

proof fn lemma_attach_agree(s: Seq<char>, t: Seq<char>, j: int, off: int, hi: int)
    requires
        agrees(s, t, j, hi, off),
        attach_end(s, j) <= hi,
        stops_at(t, hi + off),
    ensures
        attach_end(t, j + off) == attach_end(s, j) + off,
    decreases s.len() - j,
{
    lemma_attach_end_bounds(s, j);
    if j >= s.len() || j == hi {
        if j < s.len() {
            if s[j] == COENG {
                if j + 1 < s.len() && khmer_base(s[j + 1]) {
                    lemma_attach_end_bounds(s, j + 2);
                } else {
                    lemma_attach_end_bounds(s, j + 1);
                }
            } else if khmer_combining(s[j]) {
                lemma_attach_end_bounds(s, j + 1);
            }
        }
    } else {
        assert(t[j + off] == s[j]);
        if s[j] == COENG {
            if j + 1 < s.len() && khmer_base(s[j + 1]) {
                lemma_attach_end_bounds(s, j + 2);
                assert(t[j + 1 + off] == s[j + 1]);
                lemma_attach_agree(s, t, j + 2, off, hi);
                assert(j + off + 2 == j + 2 + off);
            } else {
                if j + 1 < hi {
                    assert(t[j + 1 + off] == s[j + 1]);
                }
                lemma_attach_agree(s, t, j + 1, off, hi);
                assert(j + off + 1 == j + 1 + off);
            }
        } else if khmer_combining(s[j]) {
            lemma_attach_agree(s, t, j + 1, off, hi);
            assert(j + off + 1 == j + 1 + off);
        }
    }
}

proof fn lemma_cluster_agree(s: Seq<char>, t: Seq<char>, i: int, off: int, hi: int)
    requires
        agrees(s, t, i, hi, off),
        i < hi,
        cluster_end(s, i) <= hi,
        stops_at(t, hi + off),
    ensures
        cluster_end(t, i + off) == cluster_end(s, i) + off,
{
    assert(t[i + off] == s[i]);
    if khmer_base(s[i]) {
        lemma_attach_agree(s, t, i + 1, off, hi);
        assert(i + off + 1 == i + 1 + off);
    }
}

/// Whether the clusters of `s` from `i` on end exactly at `hi`.
pub open spec fn reaches(s: Seq<char>, i: int, hi: int) -> bool
    decreases hi - i,
{
    if i == hi {
        0 <= i <= s.len()
    } else if 0 <= i < hi <= s.len() {
        let e = cluster_end(s, i);
        if i < e <= hi {
            reaches(s, e, hi)
        } else {
            false
        }
    } else {
        false
    }
}

/// The clusters of `s` from `i` up to `hi`.
pub open spec fn clusters_between(s: Seq<char>, i: int, hi: int) -> Seq<Seq<char>>
    decreases hi - i,
{
    if 0 <= i < hi <= s.len() {
        let e = cluster_end(s, i);
        if i < e <= hi {
            seq![s.subrange(i, e)] + clusters_between(s, e, hi)
        } else {
            Seq::empty()
        }
    } else {
        Seq::empty()
    }
}

proof fn lemma_reaches_split(s: Seq<char>, i: int, hi: int)
    requires
        reaches(s, i, hi),
    ensures
        clusters_from(s, i) == clusters_between(s, i, hi) + clusters_from(s, hi),
        clusters_between(s, i, hi).flatten() == s.subrange(i, hi),
    decreases hi - i,
{
    if i == hi {
        assert(clusters_between(s, i, hi) =~= Seq::<Seq<char>>::empty());
        assert(s.subrange(i, hi) =~= Seq::<char>::empty());
    } else {
        let e = cluster_end(s, i);
        lemma_reaches_split(s, e, hi);
        let c = s.subrange(i, e);
        let rest = clusters_between(s, e, hi);
        assert(clusters_between(s, i, hi) == seq![c] + rest);
        assert(seq![c] + rest + clusters_from(s, hi) =~= seq![c] + (rest + clusters_from(s, hi)));
        vstd::seq_lib::lemma_flatten_concat(seq![c], rest);
        seq![c].lemma_flatten_one_element();
        assert(s.subrange(i, hi) =~= c + s.subrange(e, hi));
    }
}

proof fn lemma_reaches_agree(s: Seq<char>, t: Seq<char>, i: int, off: int, hi: int)
    requires
        reaches(s, i, hi),
        agrees(s, t, i, hi, off),
        stops_at(t, hi + off),
    ensures
        reaches(t, i + off, hi + off),
        clusters_between(t, i + off, hi + off) == clusters_between(s, i, hi),
    decreases hi - i,
{
    if i == hi {
        assert(clusters_between(t, i + off, hi + off) =~= Seq::<Seq<char>>::empty());
    } else {
        let e = cluster_end(s, i);
        lemma_cluster_agree(s, t, i, off, hi);
        assert(agrees(s, t, e, hi, off));
        lemma_reaches_agree(s, t, e, off, hi);
        assert(t.subrange(i + off, e + off) =~= s.subrange(i, e));
        assert(e + off == cluster_end(t, i + off));
    }
}

proof fn lemma_reaches_end(s: Seq<char>, i: int)
    requires
        0 <= i <= s.len(),
    ensures
        reaches(s, i, s.len() as int),
        clusters_between(s, i, s.len() as int) == clusters_from(s, i),
    decreases s.len() - i,
{
    if i < s.len() {
        lemma_cluster_end_bounds(s, i);
        lemma_reaches_end(s, cluster_end(s, i));
    } else {
        assert(clusters_between(s, i, s.len() as int) =~= Seq::<Seq<char>>::empty());
    }
}

/// The position after the first `m` clusters from `i`.
proof fn lemma_reaches_after(s: Seq<char>, i: int, m: int) -> (p: int)
    requires
        0 <= i <= s.len(),
        0 <= m <= clusters_from(s, i).len(),
    ensures
        reaches(s, i, p),
        clusters_between(s, i, p) == clusters_from(s, i).take(m),
        clusters_from(s, p) == clusters_from(s, i).skip(m),
    decreases s.len() - i,
{
    if m == 0 {
        assert(clusters_between(s, i, i) =~= Seq::<Seq<char>>::empty());
        assert(clusters_from(s, i).take(0) =~= Seq::<Seq<char>>::empty());
        assert(clusters_from(s, i).skip(0) =~= clusters_from(s, i));
        i
    } else {
        lemma_cluster_end_bounds(s, i);
        let e = cluster_end(s, i);
        let rest = clusters_from(s, e);
        assert(clusters_from(s, i) == seq![s.subrange(i, e)] + rest);
        let p = lemma_reaches_after(s, e, m - 1);
        lemma_reaches_split(s, e, p);
        assert(clusters_from(s, i).take(m) =~= seq![s.subrange(i, e)] + rest.take(m - 1));
        assert(clusters_from(s, i).skip(m) =~= rest.skip(m - 1));
        if e == p {
            assert(e <= s.len());
        }
        p
    }
}

/// A text, a ZERO WIDTH SPACE, and another text cluster as the two texts
/// do, with the space as a cluster of its own between them.
proof fn lemma_kcc_around_zwsp(x: Seq<char>, y: Seq<char>)
    ensures
        kcc(x + seq![zwsp()] + y) == kcc(x) + seq![seq![zwsp()]] + kcc(y),
{
    let s = x + seq![zwsp()] + y;
    let n = x.len() as int;
    lemma_reaches_end(x, 0);
    assert(agrees(x, s, 0, n, 0));
    lemma_reaches_agree(x, s, 0, 0, n);
    lemma_reaches_split(s, 0, n);
    assert(s[n] == zwsp());
    assert(cluster_end(s, n) == n + 1);
    assert(s.subrange(n, n + 1) =~= seq![zwsp()]);
    assert(clusters_from(s, n) == seq![seq![zwsp()]] + clusters_from(s, n + 1));
    lemma_reaches_end(y, 0);
    assert(agrees(y, s, 0, y.len() as int, n + 1));
    lemma_reaches_agree(y, s, 0, n + 1, y.len() as int);
    lemma_reaches_end(s, n + 1);
    assert(y.len() + n + 1 == s.len());
    assert(kcc(x) + seq![seq![zwsp()]] + kcc(y) =~= kcc(x) + (seq![seq![zwsp()]] + kcc(y)));
}

/// Any block of consecutive clusters of a text, read alone, clusters into
/// exactly those clusters.
proof fn lemma_block_clusters(s: Seq<char>, a: int, b: int)
    requires
        0 <= a <= b <= kcc(s).len(),
    ensures
        kcc(kcc(s).subrange(a, b).flatten()) == kcc(s).subrange(a, b),
{
    let cl = kcc(s);
    let pa = lemma_reaches_after(s, 0, a);
    lemma_reaches_split(s, 0, pa);
    assert(clusters_from(s, pa) == cl.skip(a));
    let pb = lemma_reaches_after(s, pa, b - a);
    assert(cl.skip(a).take(b - a) =~= cl.subrange(a, b));
    lemma_reaches_split(s, pa, pb);
    let u = s.subrange(pa, pb);
    assert(cl.subrange(a, b).flatten() == u);
    assert(agrees(s, u, pa, pb, -pa));
    lemma_reaches_agree(s, u, pa, -pa, pb);
    lemma_reaches_end(u, 0);
    assert(pb + -pa == u.len());
}

// ---------------------------------------------------------------------------
// Segmenting tokens joined by ZERO WIDTH SPACE
// ---------------------------------------------------------------------------

proof fn lemma_other_end_shift(p: Seq<Seq<char>>, q: Seq<Seq<char>>, i: int)
    requires
        0 <= i <= q.len(),
    ensures
        other_end(p + q, p.len() + i) == p.len() + other_end(q, i),
    decreases q.len() - i,
{
    if i < q.len() {
        assert((p + q)[p.len() + i] == q[i]);
        lemma_other_end_shift(p, q, i + 1);
        assert(p.len() + i + 1 == p.len() + (i + 1));
    }
}

proof fn lemma_khmer_end_shift(p: Seq<Seq<char>>, q: Seq<Seq<char>>, i: int)
    requires
        0 <= i <= q.len(),
    ensures
        khmer_end(p + q, p.len() + i) == p.len() + khmer_end(q, i),
    decreases q.len() - i,
{
    if i < q.len() {
        assert((p + q)[p.len() + i] == q[i]);
        lemma_khmer_end_shift(p, q, i + 1);
        assert(p.len() + i + 1 == p.len() + (i + 1));
    }
}

/// Segmentation only looks ahead: what comes before a position does not
/// change the tokens after it.
proof fn lemma_segment_shift(
    p: Seq<Seq<char>>,
    q: Seq<Seq<char>>,
    i: int,
    strategy: Strategy,
    d: Dict,
)
    requires
        0 <= i <= q.len(),
    ensures
        segment_from(p + q, p.len() + i, strategy, d) == segment_from(q, i, strategy, d),
    decreases q.len() - i,
{
    let cl = p + q;
    let n = p.len() as int;
    if i < q.len() {
        assert(cl[n + i] == q[i]);
        if sep_cluster(q[i]) {
            lemma_segment_shift(p, q, i + 1, strategy, d);
            assert(n + i + 1 == n + (i + 1));
        } else if !khmer_cluster(q[i]) {
            lemma_other_end_shift(p, q, i);
            lemma_other_end(q, i + 1);
            let e = other_end(q, i);
            lemma_segment_shift(p, q, e, strategy, d);
            assert(cl.subrange(n + i, n + e) =~= q.subrange(i, e));
        } else {
            lemma_khmer_end_shift(p, q, i);
            lemma_khmer_end(q, i + 1);
            let e = khmer_end(q, i);
            lemma_segment_shift(p, q, e, strategy, d);
            assert(cl.subrange(n + i, n + e) =~= q.subrange(i, e));
        }
    } else {
        assert(n + i == cl.len());
    }
}

proof fn lemma_khmer_not_sep(c: Seq<char>)
    requires
        khmer_cluster(c),
    ensures
        !sep_cluster(c),
{
    lemma_trimmed_nonempty(c, 0);
    assert(c != seq![zwsp()]) by {
        if c == seq![zwsp()] {
            assert(c[0] == zwsp());
        }
    }
}

/// A group of clusters that segments back into one token: a block of a
/// text's clusters that is either a token of a Khmer run, which its
/// strategy keeps whole, or a run of non-Khmer clusters.
pub open spec fn group_ok(g: Run, strategy: Strategy, d: Dict) -> bool {
    &&& g.len() > 0
    &&& kcc(g.flatten()) == g
    &&& ((forall|m: int| 0 <= m < g.len() ==> #[trigger] khmer_cluster(g[m])) && run_tokens(
        strategy,
        g,
        d,
    ) == seq![g]) || (forall|m: int|
        0 <= m < g.len() ==> !sep_cluster(#[trigger] g[m]) && !khmer_cluster(g[m]))
}

/// The first group's token, then whatever follows the clusters `rest`.
proof fn lemma_first_group(
    g: Run,
    rest: Seq<Seq<char>>,
    strategy: Strategy,
    d: Dict,
)
    requires
        group_ok(g, strategy, d),
        rest.len() == 0 || rest[0] == seq![zwsp()],
    ensures
        segment_from(g + rest, 0, strategy, d) == seq![g.flatten()] + segment_from(
            g + rest,
            g.len() as int,
            strategy,
            d,
        ),
{
    let cl = g + rest;
    let n = g.len() as int;
    assert(cl[0] == g[0]);
    if rest.len() > 0 {
        assert(cl[n] == seq![zwsp()]);
        assert(seq![zwsp()][0] == zwsp());
        assert(sep_cluster(cl[n]));
        assert(!khmer_cluster(cl[n]));
    }
    if forall|m: int| 0 <= m < g.len() ==> #[trigger] khmer_cluster(g[m]) {
        lemma_khmer_not_sep(g[0]);
        assert(khmer_end(cl, 0) == n) by {
            lemma_khmer_prefix(cl, 0, n);
        }
        assert(cl.subrange(0, n) =~= g);
        assert(run_tokens(strategy, g, d) == seq![g]);
        assert(joined(seq![g]) =~= seq![g.flatten()]);
    } else {
        assert(!khmer_cluster(g[0]) && !sep_cluster(g[0]));
        assert(other_end(cl, 0) == n) by {
            lemma_other_prefix(cl, 0, n);
        }
        assert(cl.subrange(0, n) =~= g);
    }
}

proof fn lemma_khmer_prefix(cl: Seq<Seq<char>>, i: int, n: int)
    requires
        0 <= i <= n <= cl.len(),
        forall|m: int| i <= m < n ==> #[trigger] khmer_cluster(cl[m]),
        n == cl.len() || !khmer_cluster(cl[n]),
    ensures
        khmer_end(cl, i) == n,
    decreases n - i,
{
    if i < n {
        lemma_khmer_prefix(cl, i + 1, n);
    }
}

proof fn lemma_other_prefix(cl: Seq<Seq<char>>, i: int, n: int)
    requires
        0 <= i <= n <= cl.len(),
        forall|m: int| i <= m < n ==> !sep_cluster(#[trigger] cl[m]) && !khmer_cluster(cl[m]),
        n == cl.len() || sep_cluster(cl[n]),
    ensures
        other_end(cl, i) == n,
    decreases n - i,
{
    if i < n {
        lemma_other_prefix(cl, i + 1, n);
    }
}

proof fn lemma_joined_groups(w: Seq<Run>, strategy: Strategy, d: Dict)
    requires
        forall|k: int| 0 <= k < w.len() ==> group_ok(#[trigger] w[k], strategy, d),
    ensures
        segmented(zwsp_joined(joined(w)), strategy, d) == joined(w),
    decreases w.len(),
{
    if w.len() == 0 {
        assert(joined(w) =~= Seq::<Seq<char>>::empty());
        assert(kcc(Seq::<char>::empty()) =~= Seq::<Seq<char>>::empty());
    } else {
        let g = w[0];
        let rest = w.drop_first();
        assert(group_ok(w[0], strategy, d));
        assert(joined(w) =~= seq![g.flatten()] + joined(rest));
        if w.len() == 1 {
            assert(zwsp_joined(joined(w)) == g.flatten());
            assert(g + Seq::<Seq<char>>::empty() =~= g);
            lemma_first_group(g, Seq::empty(), strategy, d);
            assert(segment_from(g, g.len() as int, strategy, d) =~= Seq::<Seq<char>>::empty());
            assert(joined(rest) =~= Seq::<Seq<char>>::empty());
        } else {
            assert forall|k: int| 0 <= k < rest.len() implies group_ok(
                #[trigger] rest[k],
                strategy,
                d,
            ) by {
                assert(rest[k] == w[k + 1]);
            }
            lemma_joined_groups(rest, strategy, d);
            let jr = zwsp_joined(joined(rest));
            assert(joined(w).drop_first() =~= joined(rest));
            assert(zwsp_joined(joined(w)) == g.flatten() + seq![zwsp()] + jr);
            lemma_kcc_around_zwsp(g.flatten(), jr);
            let tail = seq![seq![zwsp()]] + kcc(jr);
            let cl = g + tail;
            assert(kcc(g.flatten()) + seq![seq![zwsp()]] + kcc(jr) =~= cl);
            lemma_first_group(g, tail, strategy, d);
            let n = g.len() as int;
            assert(cl[n] == seq![zwsp()]);
            assert(seq![zwsp()][0] == zwsp());
            assert(sep_cluster(cl[n]));
            assert(segment_from(cl, n, strategy, d) == segment_from(cl, n + 1, strategy, d));
            assert(cl =~= (g + seq![seq![zwsp()]]) + kcc(jr));
            lemma_segment_shift(g + seq![seq![zwsp()]], kcc(jr), 0, strategy, d);
            assert((g + seq![seq![zwsp()]]).len() + 0 == n + 1);
        }
    }
}

/// Where token `k` of `toks` starts in the clusters it rejoins to.
proof fn lemma_token_in_run(toks: Seq<Run>, k: int) -> (x: int)
    requires
        0 <= k < toks.len(),
    ensures
        x == toks.take(k).flatten().len(),
        x + toks[k].len() <= toks.flatten().len(),
        toks[k] == toks.flatten().subrange(x, x + toks[k].len()),
{
    let t = toks[k];
    let a = toks.take(k);
    let b = toks.skip(k + 1);
    assert(toks =~= a + (seq![t] + b));
    vstd::seq_lib::lemma_flatten_concat(a, seq![t] + b);
    vstd::seq_lib::lemma_flatten_concat(seq![t], b);
    seq![t].lemma_flatten_one_element();
    let x = a.flatten().len() as int;
    assert(toks.flatten() == a.flatten() + (t + b.flatten()));
    assert(toks.flatten().subrange(x, x + t.len()) =~= t);
    x
}

proof fn lemma_groups_ok(text: Seq<char>, i: int, strategy: Strategy, d: Dict)
    requires
        0 <= i <= kcc(text).len(),
    ensures
        forall|k: int|
            0 <= k < groups_from(kcc(text), i, strategy, d).len() ==> group_ok(
                #[trigger] groups_from(kcc(text), i, strategy, d)[k],
                strategy,
                d,
            ),
    decreases kcc(text).len() - i,
{
    let cl = kcc(text);
    let n = cl.len() as int;
    if i < n {
        if sep_cluster(cl[i]) {
            lemma_groups_ok(text, i + 1, strategy, d);
            assert(groups_from(cl, i, strategy, d) == groups_from(cl, i + 1, strategy, d));
        } else if !khmer_cluster(cl[i]) {
            let e = other_end(cl, i);
            lemma_other_end(cl, i + 1);
            lemma_other_range(cl, i);
            lemma_groups_ok(text, e, strategy, d);
            let g = cl.subrange(i, e);
            lemma_block_clusters(text, i, e);
            assert forall|m: int| 0 <= m < g.len() implies !sep_cluster(#[trigger] g[m])
                && !khmer_cluster(g[m]) by {
                assert(g[m] == cl[i + m]);
            }
            assert(group_ok(g, strategy, d));
            let rest = groups_from(cl, e, strategy, d);
            let all = groups_from(cl, i, strategy, d);
            assert(all == seq![g] + rest);
            assert forall|k: int| 0 <= k < all.len() implies group_ok(
                #[trigger] all[k],
                strategy,
                d,
            ) by {
                if k > 0 {
                    assert(all[k] == rest[k - 1]);
                }
            }
        } else {
            let e = khmer_end(cl, i);
            lemma_khmer_end(cl, i + 1);
            lemma_khmer_range(cl, i);
            lemma_groups_ok(text, e, strategy, d);
            let run = cl.subrange(i, e);
            let toks = run_tokens(strategy, run, d);
            law_tokens_rejoin_run(run, d, rev_dict(d));
            assert(toks.flatten() == run);
            assert(all_nonempty(toks));
            law_token_segments_to_itself(strategy, run, d);
            assert forall|k: int| 0 <= k < toks.len() implies group_ok(
                #[trigger] toks[k],
                strategy,
                d,
            ) by {
                let t = toks[k];
                let x = lemma_token_in_run(toks, k);
                assert(t =~= cl.subrange(i + x, i + x + t.len()));
                lemma_block_clusters(text, i + x, i + x + t.len());
                assert(t.len() > 0);
                assert forall|m: int| 0 <= m < t.len() implies #[trigger] khmer_cluster(t[m]) by {
                    assert(t[m] == cl[i + x + m]);
                }
                assert(run_tokens(strategy, t, d) == seq![t]);
            }
            let rest = groups_from(cl, e, strategy, d);
            let all = groups_from(cl, i, strategy, d);
            assert(all == toks + rest);
            assert forall|k: int| 0 <= k < all.len() implies group_ok(
                #[trigger] all[k],
                strategy,
                d,
            ) by {
                if k < toks.len() {
                    assert(all[k] == toks[k]);
                } else {
                    assert(all[k] == rest[k - toks.len()]);
                }
            }
        }
    }
}

/// No token mixes scripts: every token is made of clusters that all start
/// with a Khmer character, or of clusters none of which does (and none of
/// which is a separator).
pub proof fn law_tokens_are_one_script(text: Seq<char>, strategy: Strategy, d: Dict)
    ensures
        forall|k: int|
            0 <= k < token_groups(text, strategy, d).len() ==> {
                let g = #[trigger] token_groups(text, strategy, d)[k];
                (forall|m: int| 0 <= m < g.len() ==> #[trigger] khmer_cluster(g[m])) || (forall|
                    m: int,
                | 0 <= m < g.len() ==> !sep_cluster(#[trigger] g[m]) && !khmer_cluster(g[m]))
            },
{
    lemma_groups_ok(text, 0, strategy, d);
}

/// Output marked with ZERO WIDTH SPACE reads back: joining the tokens of
/// any text with `U+200B` between each two, and segmenting the result with
/// the same strategy and dictionary, gives back exactly those tokens.
pub proof fn law_marked_tokens_resegment(text: Seq<char>, strategy: Strategy, d: Dict)
    ensures
        segmented(zwsp_joined(segmented(text, strategy, d)), strategy, d) == segmented(
            text,
            strategy,
            d,
        ),
{
    law_tokens_are_whole_clusters(text, strategy, d);
    lemma_groups_ok(text, 0, strategy, d);
    lemma_joined_groups(token_groups(text, strategy, d), strategy, d);
}

// ---------------------------------------------------------------------------
// Marked tokens of normalized text are normalized
// ---------------------------------------------------------------------------

/// No normalization rule applies anywhere in `s`.
pub open spec fn clean(s: Seq<char>) -> bool {
    &&& forall|i: int| !(#[trigger] rule_at(s, i)).1
    &&& forall|i: int| !(#[trigger] order_at(s, i)).1
}

proof fn lemma_sweep_quiet(s: Seq<char>, i: int)
    requires
        !sweep(s, i).1,
        0 <= i,
    ensures
        forall|j: int| i <= j ==> !(#[trigger] rule_at(s, j)).1,
    decreases s.len() - i,
{
    if i + 2 < s.len() {
        assert(rule_at(s, i).0 == s);
        lemma_sweep_quiet(s, i + 1);
    }
}

proof fn lemma_order_sweep_quiet(s: Seq<char>, i: int)
    requires
        !order_sweep(s, i).1,
        1 <= i,
    ensures
        forall|j: int| i <= j ==> !(#[trigger] order_at(s, j)).1,
    decreases s.len() - i,
{
    if i < s.len() {
        assert(order_at(s, i).0 == s);
        lemma_order_sweep_quiet(s, i + 1);
    }
}

proof fn lemma_settled_clean(s: Seq<char>)
    requires
        settled(s),
    ensures
        clean(s),
{
    assert(!sweep(s, 0).1);
    lemma_sweep_quiet(s, 0);
    assert(sweep(s, 0).0 == s) by {
        lemma_sweep_unchanged(s, 0);
    }
    lemma_order_sweep_quiet(s, 1);
}

proof fn lemma_sweep_unchanged(s: Seq<char>, i: int)
    requires
        !sweep(s, i).1,
    ensures
        sweep(s, i).0 == s,
    decreases s.len() - i,
{
    if 0 <= i && i + 2 < s.len() {
        assert(rule_at(s, i).0 == s);
        lemma_sweep_unchanged(s, i + 1);
    }
}

proof fn lemma_clean_sweeps(s: Seq<char>, i: int)
    requires
        clean(s),
    ensures
        sweep(s, i) == (s, false),
        order_sweep(s, i + 1) == (s, false),
    decreases s.len() - i,
{
    if 0 <= i && i + 2 < s.len() {
        assert(!rule_at(s, i).1);
    }
    if 1 <= i + 1 < s.len() {
        assert(!order_at(s, i + 1).1);
    }
    if i < s.len() {
        lemma_clean_sweeps(s, i + 1);
    }
}

proof fn lemma_clean_settled(s: Seq<char>)
    requires
        clean(s),
    ensures
        settled(s),
        normal_form(s) == s,
{
    lemma_clean_sweeps(s, 0);
    assert(pass(s) == (s, false));
    assert(iterate(s, 0) == s);
    assert(normal_form_of(s, s));
    lemma_normal_form(s, s);
}

/// A piece of a clean text is clean.
proof fn lemma_clean_piece(s: Seq<char>, p: int, q: int)
    requires
        clean(s),
        0 <= p <= q <= s.len(),
    ensures
        clean(s.subrange(p, q)),
{
    let u = s.subrange(p, q);
    assert forall|i: int| !(#[trigger] rule_at(u, i)).1 by {
        if 0 <= i && i + 2 < u.len() {
            assert(u[i] == s[p + i]);
            assert(u[i + 1] == s[p + i + 1]);
            assert(u[i + 2] == s[p + i + 2]);
            if i + 3 < u.len() {
                assert(u[i + 3] == s[p + i + 3]);
            }
            assert(!rule_at(s, p + i).1);
        }
    }
    assert forall|i: int| !(#[trigger] order_at(u, i)).1 by {
        if 1 <= i < u.len() {
            assert(u[i - 1] == s[p + i - 1]);
            assert(u[i] == s[p + i]);
            assert(!order_at(s, p + i).1);
        }
    }
}

/// Two clean texts around a ZERO WIDTH SPACE stay clean: no rule applies
/// across the space.
proof fn lemma_clean_join(x: Seq<char>, y: Seq<char>)
    requires
        clean(x),
        clean(y),
    ensures
        clean(x + seq![zwsp()] + y),
{
    let s = x + seq![zwsp()] + y;
    let n = x.len() as int;
    assert(s[n] == zwsp());
    assert(!reorderable(zwsp()));
    assert(mark_rank(zwsp()) is None);
    assert(!khmer_base(zwsp()));
    assert forall|i: int| !(#[trigger] rule_at(s, i)).1 by {
        if 0 <= i && i + 2 < s.len() {
            if i + 1 < n {
                assert(s[i] == x[i]);
                assert(s[i + 1] == x[i + 1]);
                if i + 2 < n {
                    assert(s[i + 2] == x[i + 2]);
                    if i + 3 < n {
                        assert(s[i + 3] == x[i + 3]);
                    }
                    if i + 3 == n {
                        assert(s[i + 3] == zwsp());
                    }
                    assert(!rule_at(x, i).1);
                } else {
                    assert(s[i + 2] == zwsp());
                }
            } else if i > n {
                let j = i - n - 1;
                assert(s[i] == y[j]);
                assert(s[i + 1] == y[j + 1]);
                assert(s[i + 2] == y[j + 2]);
                if i + 3 < s.len() {
                    assert(s[i + 3] == y[j + 3]);
                }
                assert(!rule_at(y, j).1);
            } else if i == n - 1 {
                assert(s[i + 1] == zwsp());
            }
        }
    }
    assert forall|i: int| !(#[trigger] order_at(s, i)).1 by {
        if 1 <= i < s.len() {
            if i < n {
                assert(s[i - 1] == x[i - 1]);
                assert(s[i] == x[i]);
                assert(!order_at(x, i).1);
            } else if i > n + 1 {
                let j = i - n - 1;
                assert(s[i - 1] == y[j - 1]);
                assert(s[i] == y[j]);
                assert(!order_at(y, j).1);
            }
        }
    }
}

/// The characters of a block of a text's clusters are a piece of the text.
proof fn lemma_block_chars(s: Seq<char>, a: int, b: int) -> (pq: (int, int))
    requires
        0 <= a <= b <= kcc(s).len(),
    ensures
        0 <= pq.0 <= pq.1 <= s.len(),
        kcc(s).subrange(a, b).flatten() == s.subrange(pq.0, pq.1),
{
    let cl = kcc(s);
    let pa = lemma_reaches_after(s, 0, a);
    let pb = lemma_reaches_after(s, pa, b - a);
    lemma_reaches_split(s, pa, pb);
    assert(cl.skip(a).take(b - a) =~= cl.subrange(a, b));
    (pa, pb)
}

/// A block of the clusters of a clean text is clean.
proof fn lemma_block_clean(s: Seq<char>, a: int, b: int)
    requires
        clean(s),
        0 <= a <= b <= kcc(s).len(),
    ensures
        clean(kcc(s).subrange(a, b).flatten()),
{
    let pq = lemma_block_chars(s, a, b);
    lemma_clean_piece(s, pq.0, pq.1);
}

/// Every token of a clean text is clean.
proof fn lemma_groups_clean(text: Seq<char>, i: int, strategy: Strategy, d: Dict)
    requires
        clean(text),
        0 <= i <= kcc(text).len(),
    ensures
        forall|k: int|
            0 <= k < groups_from(kcc(text), i, strategy, d).len() ==> clean(
                (#[trigger] groups_from(kcc(text), i, strategy, d)[k]).flatten(),
            ),
    decreases kcc(text).len() - i,
{
    let cl = kcc(text);
    let n = cl.len() as int;
    if i < n {
        if sep_cluster(cl[i]) {
            lemma_groups_clean(text, i + 1, strategy, d);
            assert(groups_from(cl, i, strategy, d) == groups_from(cl, i + 1, strategy, d));
        } else if !khmer_cluster(cl[i]) {
            let e = other_end(cl, i);
            lemma_other_end(cl, i + 1);
            lemma_groups_clean(text, e, strategy, d);
            let g = cl.subrange(i, e);
            lemma_block_clean(text, i, e);
            let rest = groups_from(cl, e, strategy, d);
            let all = groups_from(cl, i, strategy, d);
            assert(all == seq![g] + rest);
            assert forall|k: int| 0 <= k < all.len() implies clean(
                (#[trigger] all[k]).flatten(),
            ) by {
                if k > 0 {
                    assert(all[k] == rest[k - 1]);
                }
            }
        } else {
            let e = khmer_end(cl, i);
            lemma_khmer_end(cl, i + 1);
            lemma_groups_clean(text, e, strategy, d);
            let run = cl.subrange(i, e);
            let toks = run_tokens(strategy, run, d);
            law_tokens_rejoin_run(run, d, rev_dict(d));
            assert(toks.flatten() == run);
            let rest = groups_from(cl, e, strategy, d);
            let all = groups_from(cl, i, strategy, d);
            assert(all == toks + rest);
            assert forall|k: int| 0 <= k < toks.len() implies clean(
                (#[trigger] toks[k]).flatten(),
            ) by {
                let t = toks[k];
                let x = lemma_token_in_run(toks, k);
                assert(t =~= cl.subrange(i + x, i + x + t.len()));
                lemma_block_clean(text, i + x, i + x + t.len());
            }
            assert forall|k: int| 0 <= k < all.len() implies clean(
                (#[trigger] all[k]).flatten(),
            ) by {
                if k < toks.len() {
                    assert(all[k] == toks[k]);
                } else {
                    assert(all[k] == rest[k - toks.len()]);
                }
            }
        }
    }
}

proof fn lemma_joined_clean(w: Seq<Run>)
    requires
        forall|k: int| 0 <= k < w.len() ==> clean((#[trigger] w[k]).flatten()),
    ensures
        clean(zwsp_joined(joined(w))),
    decreases w.len(),
{
    if w.len() == 0 {
        assert(zwsp_joined(joined(w)) =~= Seq::<char>::empty());
    } else {
        let rest = w.drop_first();
        assert(joined(w)[0] == w[0].flatten());
        assert(clean(w[0].flatten()));
        if w.len() > 1 {
            assert forall|k: int| 0 <= k < rest.len() implies clean(
                (#[trigger] rest[k]).flatten(),
            ) by {
                assert(rest[k] == w[k + 1]);
            }
            lemma_joined_clean(rest);
            assert(joined(w).drop_first() =~= joined(rest));
            lemma_clean_join(w[0].flatten(), zwsp_joined(joined(rest)));
        }
    }
}

/// What a tokenizer's `--zwsp`-style output reads back as: the tokens of a
/// text joined with `U+200B`, segmented again by a tokenizer with the same
/// strategy, dictionary and normalization setting, are the same tokens.
/// With normalization on, the joined tokens of normalized text are already
/// normalized, so normalizing them again changes nothing.
pub proof fn law_marked_output_reads_back(
    text: Seq<char>,
    strategy: Strategy,
    d: Dict,
    normalizes: bool,
)
    ensures
        segmented(
            segment_input(zwsp_joined(segmented(segment_input(text, normalizes), strategy, d)), normalizes),
            strategy,
            d,
        ) == segmented(segment_input(text, normalizes), strategy, d),
{
    let t = segment_input(text, normalizes);
    let j = zwsp_joined(segmented(t, strategy, d));
    law_marked_tokens_resegment(t, strategy, d);
    if normalizes {
        law_normal_form_exists(text);
        assert(settled(t));
        lemma_settled_clean(t);
        law_tokens_are_whole_clusters(t, strategy, d);
        lemma_groups_clean(t, 0, strategy, d);
        lemma_joined_clean(token_groups(t, strategy, d));
        lemma_clean_settled(j);
    }
}

// ---------------------------------------------------------------------------
// Writing marked output
// ---------------------------------------------------------------------------

#[verifier::spinoff_prover]
#[verifier::rlimit(40)]
proof fn lemma_zwsp_joined_push(ts: Seq<Seq<char>>, t: Seq<char>)
    ensures
        zwsp_joined(ts.push(t)) == if ts.len() == 0 {
            t
        } else {
            zwsp_joined(ts) + seq![zwsp()] + t
        },
    decreases ts.len(),
{
    let z = seq![zwsp()];
    if ts.len() == 0 {
        assert(ts.push(t)[0] == t);
    } else if ts.len() == 1 {
        assert(ts.push(t).drop_first() =~= seq![t]);
        assert(zwsp_joined(seq![t]) == t);
        assert(ts.push(t)[0] == ts[0]);
    } else {
        let r = ts.drop_first();
        assert(ts.push(t).drop_first() =~= r.push(t));
        lemma_zwsp_joined_push(r, t);
        assert(ts.push(t)[0] == ts[0]);
        assert(zwsp_joined(ts.push(t)) == ts[0] + z + (zwsp_joined(r) + z + t));
        assert(ts[0] + z + (zwsp_joined(r) + z + t) =~= ts[0] + z + zwsp_joined(r) + z + t);
    }
}

/// Join tokens with `U+200B` ZERO WIDTH SPACE between each two: output
/// that renders like the text it came from, with its word boundaries
/// marked for machines.
pub fn join_zwsp(tokens: &Vec<String>) -> (out: String)
    ensures
        out@ == zwsp_joined(views(tokens@)),
{
    let mut cs: Vec<char> = Vec::new();
    let mut i: usize = 0;
    while i < tokens.len()
        invariant
            i <= tokens@.len(),
            cs@ == zwsp_joined(views(tokens@).take(i as int)),
        decreases tokens.len() - i,
    {
        let ghost before = views(tokens@).take(i as int);
        assert(views(tokens@).take(i + 1) =~= before.push(tokens@[i as int]@));
        proof {
            lemma_zwsp_joined_push(before, tokens@[i as int]@);
        }
        if i > 0 {
            cs.push('\u{200B}');
        }
        let t = str_chars(tokens[i].as_str());
        push_all(&mut cs, t.as_slice());
        i = i + 1;
    }
    assert(views(tokens@).take(i as int) =~= views(tokens@));
    string_of(cs.as_slice())
}

} // verus!
