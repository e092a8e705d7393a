//! Boundary choosing over one run of Khmer clusters: greedy forward and
//! backward longest match, their bidirectional combination, fewest-words
//! dynamic programming, the match graph a probabilistic scorer walks, and
//! the out-of-vocabulary runs a statistical fallback re-segments.
//!
//! Every algorithm is stated over the run (a sequence of cluster strings)
//! and the dictionary (a set of cluster sequences).

use vstd::prelude::*;
use crate::text::views;
use crate::trie::{TrieNode, node_at, has_word, dict_of, lemma_node_at_push, lemma_node_at_dead};

verus! {

/// A run of clusters, each cluster a character sequence.
pub type Run = Seq<Seq<char>>;

/// A dictionary: the set of words, each a cluster sequence.
pub type Dict = Set<Seq<Seq<char>>>;

/// The cluster views of a list of tokens.
pub open spec fn tviews(toks: Seq<Vec<String>>) -> Seq<Run> {
    toks.map_values(|t: Vec<String>| views(t@))
}

// ---------------------------------------------------------------------------
// Forward maximum matching
// ---------------------------------------------------------------------------

/// The largest `e` in `(i, j]` with `run[i..e]` a dictionary word, or `i`.
pub open spec fn longest_end(run: Run, i: int, j: int, d: Dict) -> int
    decreases j - i,
{
    if j <= i {
        i
    } else if d.contains(run.subrange(i, j)) {
        j
    } else {
        longest_end(run, i, j - 1, d)
    }
}

pub proof fn lemma_longest_end_bounds(run: Run, i: int, j: int, d: Dict)
    ensures
        i <= j ==> i <= longest_end(run, i, j, d) <= j,
        j <= i ==> longest_end(run, i, j, d) == i,
        longest_end(run, i, j, d) > i ==> d.contains(run.subrange(i, longest_end(run, i, j, d))),
    decreases j - i,
{
    if j > i && !d.contains(run.subrange(i, j)) {
        lemma_longest_end_bounds(run, i, j - 1, d);
    }
}

/// Where the token starting at `i` ends under longest match: the longest
/// dictionary word, or a single cluster when none starts there.
pub open spec fn greedy_end(run: Run, i: int, d: Dict) -> int {
    let e = longest_end(run, i, run.len() as int, d);
    if e > i {
        e
    } else {
        i + 1
    }
}

/// Greedy longest-match tokens of `run[i..]`, left to right.
pub open spec fn fmm_from(run: Run, i: int, d: Dict) -> Seq<Run>
    decreases run.len() - i,
{
    if i < 0 || i >= run.len() {
        Seq::empty()
    } else {
        let e = greedy_end(run, i, d);
        proof {
            lemma_longest_end_bounds(run, i, run.len() as int, d);
        }
        seq![run.subrange(i, e)] + fmm_from(run, e, d)
    }
}

/// Forward maximum matching of a whole run.
pub open spec fn fmm(run: Run, d: Dict) -> Seq<Run> {
    fmm_from(run, 0, d)
}

/// Past the point where the trie has no path, no word ends.
proof fn lemma_longest_end_stop(run: Run, i: int, j: int, e: int, root: TrieNode)
    requires
        0 <= i <= j < e <= run.len(),
        node_at(root, run.subrange(i, j + 1)) is None,
    ensures
        longest_end(run, i, e, dict_of(root)) == longest_end(run, i, j, dict_of(root)),
    decreases e - j,
{
    lemma_node_at_dead(root, run.subrange(i, j + 1), run.subrange(j + 1, e));
    assert(run.subrange(i, j + 1) + run.subrange(j + 1, e) =~= run.subrange(i, e));
    assert(!dict_of(root).contains(run.subrange(i, e)));
    if e > j + 1 {
        lemma_longest_end_stop(run, i, j, e - 1, root);
    }
}

/// Walk the trie from `i`; returns where the walk stopped (the trie has no
/// path further) and the end of the longest word met (`i` if none).
fn walk_longest(clusters: &[String], i: usize, root: &TrieNode) -> (r: usize)
    requires
        i < clusters.len(),
    ensures
        r == longest_end(views(clusters@), i as int, clusters.len() as int, dict_of(*root)),
{
    let ghost run = views(clusters@);
    let ghost d = dict_of(*root);
    let n = clusters.len();
    let mut node = root;
    let mut j = i;
    let mut last = i;
    proof {
        assert(run.subrange(i as int, i as int) =~= Seq::<Seq<char>>::empty());
    }
    while j < n
        invariant
            i <= j <= n == clusters.len(),
            run == views(clusters@),
            d == dict_of(*root),
            node_at(*root, run.subrange(i as int, j as int)) == Some(*node),
            last == longest_end(run, i as int, j as int, d),
        decreases n - j,
    {
        proof {
            lemma_node_at_push(*root, run.subrange(i as int, j as int), run[j as int]);
            assert(run.subrange(i as int, j + 1) =~= run.subrange(i as int, j as int).push(
                run[j as int],
            ));
        }
        match node.child_of(&clusters[j]) {
            Some(next) => {
                node = next;
                j = j + 1;
                proof {
                    assert(has_word(*root, run.subrange(i as int, j as int)) == node.is_word);
                }
                if node.is_word {
                    last = j;
                }
            },
            None => {
                proof {
                    if j + 1 <= n {
                        lemma_longest_end_stop(run, i as int, j as int, n as int, *root);
                    }
                }
                return last;
            },
        }
    }
    last
}

/// Copies of `clusters[a..b]`.
pub fn clone_range(clusters: &[String], a: usize, b: usize) -> (out: Vec<String>)
    requires
        a <= b <= clusters.len(),
    ensures
        views(out@) == views(clusters@).subrange(a as int, b as int),
{
    let mut out: Vec<String> = Vec::new();
    let mut k = a;
    while k < b
        invariant
            a <= k <= b <= clusters.len(),
            views(out@) == views(clusters@).subrange(a as int, k as int),
        decreases b - k,
    {
        let ghost before = views(out@);
        let c = clusters[k].clone();
        out.push(c);
        assert(views(out@) =~= before.push(clusters@[k as int]@));
        k = k + 1;
        assert(views(out@) =~= views(clusters@).subrange(a as int, k as int));
    }
    out
}

/// Greedy longest-match walk over `clusters`: consume the longest run
/// that completes a dictionary word at each position, falling back to a
/// single cluster when nothing matches.
pub fn greedy_match(clusters: &[String], root: &TrieNode) -> (tokens: Vec<Vec<String>>)
    ensures
        tviews(tokens@) == fmm(views(clusters@), dict_of(*root)),
{
    let ghost run = views(clusters@);
    let ghost d = dict_of(*root);
    let n = clusters.len();
    let mut tokens: Vec<Vec<String>> = Vec::new();
    let mut i: usize = 0;
    while i < n
        invariant
            i <= n == clusters.len(),
            run == views(clusters@),
            d == dict_of(*root),
            tviews(tokens@) + fmm_from(run, i as int, d) == fmm(run, d),
        decreases n - i,
    {
        let last = walk_longest(clusters, i, root);
        proof {
            lemma_longest_end_bounds(run, i as int, n as int, d);
        }
        let end = if last > i {
            last
        } else {
            i + 1
        };
        let tok = clone_range(clusters, i, end);
        let ghost before = tviews(tokens@);
        tokens.push(tok);
        assert(tviews(tokens@) =~= before.push(run.subrange(i as int, end as int)));
        assert(fmm_from(run, i as int, d) == seq![run.subrange(i as int, end as int)] + fmm_from(
            run,
            end as int,
            d,
        ));
        assert(tviews(tokens@) + fmm_from(run, end as int, d) =~= before + fmm_from(
            run,
            i as int,
            d,
        ));
        i = end;
    }
    assert(fmm_from(run, i as int, d) =~= Seq::<Run>::empty());
    assert(tviews(tokens@) =~= tviews(tokens@) + fmm_from(run, i as int, d));
    tokens
}

/// Forward maximum matching: greedy longest match, left to right.
pub fn forward_match(clusters: &[String], root: &TrieNode) -> (tokens: Vec<Vec<String>>)
    ensures
        tviews(tokens@) == fmm(views(clusters@), dict_of(*root)),
{
    greedy_match(clusters, root)
}

// ---------------------------------------------------------------------------
// Backward and bidirectional maximum matching
// ---------------------------------------------------------------------------

/// The cluster sequence read backwards.
pub open spec fn rev_run(t: Run) -> Run {
    t.reverse()
}

/// Backward maximum matching: greedy longest match over the reversed run
/// against the reversed dictionary `rd`, with token and cluster order
/// restored.
pub open spec fn bmm(run: Run, rd: Dict) -> Seq<Run> {
    rev_tokens(fmm(run.reverse(), rd))
}

/// Tokens in reverse order, each read backwards.
pub open spec fn rev_tokens(f: Seq<Run>) -> Seq<Run> {
    f.reverse().map_values(|t: Run| t.reverse())
}

/// How many tokens consist of a single cluster.
pub open spec fn singles(toks: Seq<Run>) -> nat
    decreases toks.len(),
{
    if toks.len() == 0 {
        0
    } else {
        (if toks.last().len() == 1 {
            1nat
        } else {
            0nat
        }) + singles(toks.drop_last())
    }
}

/// Bidirectional maximum matching: on disagreement prefer fewer tokens,
/// then fewer single-cluster tokens, then the forward result.
pub open spec fn bimm(run: Run, d: Dict, rd: Dict) -> Seq<Run> {
    let f = fmm(run, d);
    let b = bmm(run, rd);
    if f.len() != b.len() {
        if f.len() < b.len() {
            f
        } else {
            b
        }
    } else if singles(f) <= singles(b) {
        f
    } else {
        b
    }
}

/// `v` in reverse order, by moving its elements.
fn reversed_strings(v: &[String]) -> (out: Vec<String>)
    ensures
        views(out@) == views(v@).reverse(),
{
    let mut out: Vec<String> = Vec::new();
    let mut k = v.len();
    while k > 0
        invariant
            k <= v.len(),
            views(out@) == views(v@).reverse().take(v.len() - k),
        decreases k,
    {
        k = k - 1;
        let ghost before = views(out@);
        let c = v[k].clone();
        out.push(c);
        assert(views(out@) =~= before.push(v@[k as int]@));
        assert(views(v@).reverse()[v.len() - k - 1] == v@[k as int]@);
        assert(views(v@).reverse().take(v.len() - k) =~= views(v@).reverse().take(
            v.len() - k - 1,
        ).push(v@[k as int]@));
    }
    assert(views(v@).reverse().take(v.len() as int) =~= views(v@).reverse());
    out
}

/// Backward maximum matching: greedy longest match, right to left. Walks
/// the reversed cluster stream against a trie of reversed dictionary
/// words, then puts tokens and clusters back in reading order.
pub fn backward_match(clusters: &[String], rev_root: &TrieNode) -> (tokens: Vec<Vec<String>>)
    ensures
        tviews(tokens@) == bmm(views(clusters@), dict_of(*rev_root)),
{
    let reversed = reversed_strings(clusters);
    let mut toks = greedy_match(reversed.as_slice(), rev_root);
    let ghost f = tviews(toks@);
    let ghost target = rev_tokens(f);
    let mut out: Vec<Vec<String>> = Vec::new();
    while toks.len() > 0
        invariant
            tviews(toks@) == f.take(toks.len() as int),
            toks.len() <= f.len(),
            tviews(out@) == target.take(f.len() - toks.len()),
            target == rev_tokens(f),
            f == fmm(views(reversed@), dict_of(*rev_root)),
            views(reversed@) == views(clusters@).reverse(),
        decreases toks.len(),
    {
        let ghost old_toks = toks@;
        let t = toks.pop().unwrap();
        let rt = reversed_strings(t.as_slice());
        let ghost before = tviews(out@);
        out.push(rt);
        proof {
            let l = old_toks.len() - 1;
            assert(tviews(old_toks)[l] == views(t@));
            assert(f.take(old_toks.len() as int)[l] == f[l]);
            assert(views(t@) == f[l]);
            assert(tviews(toks@) =~= f.take(toks.len() as int));
            assert(tviews(out@) =~= before.push(views(t@).reverse()));
            assert(0 <= l < f.len());
            assert(f.reverse()[f.len() - 1 - l] == f[l]);
            assert(target.len() == f.len());
            assert(target[f.len() - 1 - l] == f[l].reverse());
            assert(tviews(out@) =~= target.take(f.len() - toks.len()));
        }
    }
    assert(target.take(f.len() as int) =~= target);
    out
}

/// The number of single-cluster tokens.
fn count_singles(toks: &Vec<Vec<String>>) -> (c: usize)
    ensures
        c == singles(tviews(toks@)),
{
    let mut c: usize = 0;
    let mut i: usize = 0;
    while i < toks.len()
        invariant
            i <= toks.len(),
            c == singles(tviews(toks@).take(i as int)),
            c <= i,
        decreases toks.len() - i,
    {
        assert(tviews(toks@).take(i + 1).drop_last() =~= tviews(toks@).take(i as int));
        if toks[i].len() == 1 {
            c = c + 1;
        }
        i = i + 1;
    }
    assert(tviews(toks@).take(i as int) =~= tviews(toks@));
    c
}

/// Bidirectional maximum matching: run forward and backward, and on
/// disagreement prefer fewer tokens, then fewer single-cluster tokens, then
/// the forward result.
pub fn bimm_match(clusters: &[String], root: &TrieNode, rev_root: &TrieNode) -> (tokens: Vec<
    Vec<String>,
>)
    ensures
        tviews(tokens@) == bimm(views(clusters@), dict_of(*root), dict_of(*rev_root)),
{
    let fwd = forward_match(clusters, root);
    let bwd = backward_match(clusters, rev_root);
    if fwd.len() != bwd.len() {
        return if fwd.len() < bwd.len() {
            fwd
        } else {
            bwd
        };
    }
    if count_singles(&fwd) <= count_singles(&bwd) {
        fwd
    } else {
        bwd
    }
}

// ---------------------------------------------------------------------------
// Fewest-words dynamic programming
// ---------------------------------------------------------------------------

/// The number of characters in a cluster sequence.
pub open spec fn char_len(t: Run) -> nat {
    t.flatten().len()
}

/// Whether some dictionary word starts at `k`.
pub open spec fn word_starts(run: Run, k: int, d: Dict) -> bool {
    longest_end(run, k, run.len() as int, d) > k
}

/// An edge of the match graph from `k` to `e`: a dictionary word
/// `run[k..e]`, or the single-cluster fallback when no word starts at `k`.
pub open spec fn is_edge(run: Run, k: int, e: int, d: Dict) -> bool {
    0 <= k < e <= run.len() && (d.contains(run.subrange(k, e)) || (e == k + 1 && !word_starts(
        run,
        k,
        d,
    )))
}

/// Characters an edge covers with a dictionary word (0 for the fallback).
pub open spec fn edge_cover(run: Run, k: int, e: int, d: Dict) -> nat {
    if d.contains(run.subrange(k, e)) {
        char_len(run.subrange(k, e))
    } else {
        0
    }
}

/// A path score: token count, characters covered by dictionary words, and
/// the end of its first token.
pub type Score = (nat, nat, int);

/// `a` is preferred to `b`: fewer tokens, then more covered characters,
/// then a longer first word.
pub open spec fn beats(a: Score, b: Score) -> bool {
    a.0 < b.0 || (a.0 == b.0 && (a.1 > b.1 || (a.1 == b.1 && a.2 > b.2)))
}

/// The best path from `k` to the end of the run.
pub open spec fn best_from(run: Run, k: int, d: Dict) -> Score
    decreases run.len() - k, run.len() - k + 1,
{
    if k < 0 || k >= run.len() {
        (0, 0, run.len() as int)
    } else {
        match best_upto(run, k, run.len() as int, d) {
            Some(x) => x,
            None => (0, 0, k + 1),
        }
    }
}

/// The best path from `k` whose first edge ends in `(k, e]`, if any.
pub open spec fn best_upto(run: Run, k: int, e: int, d: Dict) -> Option<Score>
    decreases run.len() - k, e - k,
{
    if k < 0 || e <= k || e > run.len() {
        None
    } else {
        let prev = best_upto(run, k, e - 1, d);
        if is_edge(run, k, e, d) {
            let b = best_from(run, e, d);
            let mine: Score = (1 + b.0, edge_cover(run, k, e, d) + b.1, e);
            match prev {
                Some(p) => if beats(mine, p) {
                    Some(mine)
                } else {
                    prev
                },
                None => Some(mine),
            }
        } else {
            prev
        }
    }
}

/// Fewest-words tokens of `run[k..]`, following the best path.
pub open spec fn minwords_from(run: Run, k: int, d: Dict) -> Seq<Run>
    decreases run.len() - k,
{
    if k < 0 || k >= run.len() {
        Seq::empty()
    } else {
        let e = best_from(run, k, d).2;
        if k < e <= run.len() {
            seq![run.subrange(k, e)] + minwords_from(run, e, d)
        } else {
            Seq::empty()
        }
    }
}

/// Fewest-words segmentation of a whole run.
pub open spec fn minwords(run: Run, d: Dict) -> Seq<Run> {
    minwords_from(run, 0, d)
}

proof fn lemma_best_upto(run: Run, k: int, e: int, d: Dict)
    requires
        0 <= k < run.len(),
        e <= run.len(),
    ensures
        best_upto(run, k, e, d) matches Some(x) ==> k < x.2 <= e && x.2 <= run.len() && is_edge(
            run,
            k,
            x.2,
            d,
        ) && x == (1 + best_from(run, x.2, d).0, edge_cover(run, k, x.2, d) + best_from(
            run,
            x.2,
            d,
        ).1, x.2),
        (exists|f: int| k < f <= e && is_edge(run, k, f, d)) ==> best_upto(run, k, e, d) is Some,
    decreases e - k,
{
    if e > k && e <= run.len() {
        lemma_best_upto(run, k, e - 1, d);
        if exists|f: int| k < f <= e && is_edge(run, k, f, d) {
            let f = choose|f: int| k < f <= e && is_edge(run, k, f, d);
            if f < e {
                assert(k < f <= e - 1 && is_edge(run, k, f, d));
            }
        }
    }
}

/// From every position of a run a path continues: the best first edge
/// exists and ends inside the run.
pub proof fn lemma_best_from(run: Run, k: int, d: Dict)
    requires
        0 <= k < run.len(),
    ensures
        best_upto(run, k, run.len() as int, d) is Some,
        k < best_from(run, k, d).2 <= run.len(),
        is_edge(run, k, best_from(run, k, d).2, d),
{
    lemma_longest_end_bounds(run, k, run.len() as int, d);
    let le = longest_end(run, k, run.len() as int, d);
    if le > k {
        assert(is_edge(run, k, le, d));
    } else {
        assert(is_edge(run, k, k + 1, d));
    }
    lemma_best_upto(run, k, run.len() as int, d);
}

/// Without further edges the best choice does not change.
proof fn lemma_best_upto_flat(run: Run, k: int, j: int, e: int, d: Dict)
    requires
        0 <= k <= j <= e <= run.len(),
        forall|f: int| j < f <= e ==> !is_edge(run, k, f, d),
    ensures
        best_upto(run, k, e, d) == best_upto(run, k, j, d),
    decreases e - j,
{
    if e > j {
        lemma_best_upto_flat(run, k, j, e - 1, d);
    }
}

pub proof fn lemma_char_len_append(a: Run, b: Run)
    ensures
        char_len(a + b) == char_len(a) + char_len(b),
{
    vstd::seq_lib::lemma_flatten_concat(a, b);
}

pub proof fn lemma_char_len_split(run: Run, a: int, b: int, c: int)
    requires
        0 <= a <= b <= c <= run.len(),
    ensures
        char_len(run.subrange(a, c)) == char_len(run.subrange(a, b)) + char_len(
            run.subrange(b, c),
        ),
{
    assert(run.subrange(a, c) =~= run.subrange(a, b) + run.subrange(b, c));
    lemma_char_len_append(run.subrange(a, b), run.subrange(b, c));
}

/// Scores stay within the run: at most one token per cluster, and covered
/// characters at most the characters there.
proof fn lemma_best_from_bounds(run: Run, k: int, d: Dict)
    requires
        0 <= k <= run.len(),
    ensures
        best_from(run, k, d).0 <= run.len() - k,
        best_from(run, k, d).1 <= char_len(run.subrange(k, run.len() as int)),
    decreases run.len() - k,
{
    if k < run.len() {
        lemma_best_from(run, k, d);
        let e = best_from(run, k, d).2;
        lemma_best_upto(run, k, run.len() as int, d);
        lemma_best_from_bounds(run, e, d);
        lemma_char_len_split(run, k, e, run.len() as int);
    }
}

/// The number of characters of a cluster.
fn cluster_chars(c: &String) -> (n: usize)
    ensures
        n == c@.len(),
{
    let cs = crate::text::str_chars(c.as_str());
    cs.len()
}

/// Fewest-words dynamic programming over the match graph: every dictionary
/// match (or, where none starts, a single-cluster fallback edge) is an edge;
/// the chosen path has the fewest tokens, then the most characters covered
/// by dictionary words, then the longest word at the current position.
#[verifier::spinoff_prover]
#[verifier::rlimit(40)]
pub fn min_words(clusters: &[String], root: &TrieNode) -> (tokens: Vec<Vec<String>>)
    requires
        char_len(views(clusters@)) <= usize::MAX,
    ensures
        tviews(tokens@) == minwords(views(clusters@), dict_of(*root)),
{
    let ghost run = views(clusters@);
    let ghost d = dict_of(*root);
    let n = clusters.len();
    let mut tok: Vec<usize> = Vec::new();
    let mut cov: Vec<usize> = Vec::new();
    let mut end: Vec<usize> = Vec::new();
    let mut z: usize = 0;
    while z < n
        invariant
            z <= n,
            n == clusters.len(),
            tok@.len() == z,
            cov@.len() == z,
            end@.len() == z,
        decreases n - z,
    {
        tok.push(0);
        cov.push(0);
        end.push(n);
        z = z + 1;
    }
    let mut p = n;
    while p > 0
        invariant
            p <= n == clusters.len(),
            run == views(clusters@),
            d == dict_of(*root),
            char_len(run) <= usize::MAX,
            tok@.len() == n,
            cov@.len() == n,
            end@.len() == n,
            forall|q: int|
                p <= q < n ==> tok@[q] == best_from(run, q, d).0 && cov@[q] == best_from(
                    run,
                    q,
                    d,
                ).1 && end@[q] == best_from(run, q, d).2,
        decreases p,
    {
        p = p - 1;
        proof {
            lemma_best_from(run, p as int, d);
            assert forall|q: int| p < q <= n implies best_from(run, q, d).0 <= run.len() - q
                && best_from(run, q, d).1 <= char_len(run.subrange(q, run.len() as int)) by {
                lemma_best_from_bounds(run, q, d);
            }
            lemma_char_len_split(run, 0, p as int, n as int);
            assert(run.subrange(0, n as int) =~= run);
            lemma_best_upto(run, p as int, n as int, d);
        }
        let le = walk_longest(clusters, p, root);
        proof {
            lemma_longest_end_bounds(run, p as int, n as int, d);
        }
        let (bt, bc, be) = if le == p {
            proof {
                assert(!word_starts(run, p as int, d));
                assert forall|f: int| p < f <= n implies !d.contains(run.subrange(p as int, f)) by {
                    if d.contains(run.subrange(p as int, f)) {
                        lemma_longest_end_word(run, p as int, n as int, f, d);
                    }
                }
                assert forall|f: int| p + 1 < f <= n implies !is_edge(run, p as int, f, d) by {}
                assert(is_edge(run, p as int, p + 1, d));
                assert(edge_cover(run, p as int, p + 1, d) == 0);
                lemma_best_upto_flat(run, p as int, p + 1, n as int, d);
                assert(best_upto(run, p as int, p as int, d) is None);
                lemma_char_len_split(run, p as int, p + 1, n as int);
            }
            if p + 1 < n {
                (1 + tok[p + 1], cov[p + 1], p + 1)
            } else {
                (1, 0, p + 1)
            }
        } else {
            let mut node = root;
            let mut j = p;
            let mut acc: usize = 0;
            let mut cur_t: usize = 0;
            let mut cur_c: usize = 0;
            let mut cur_e: usize = 0;
            let mut found = false;
            proof {
                assert(run.subrange(p as int, p as int) =~= Seq::<Seq<char>>::empty());
                assert(word_starts(run, p as int, d));
            }
            while j < n
                invariant
                    p <= j <= n == clusters.len(),
                    run == views(clusters@),
                    d == dict_of(*root),
                    word_starts(run, p as int, d),
                    char_len(run) <= usize::MAX,
                    tok@.len() == n,
                    cov@.len() == n,
                    end@.len() == n,
                    forall|q: int|
                        p < q < n ==> tok@[q] == best_from(run, q, d).0 && cov@[q] == best_from(
                            run,
                            q,
                            d,
                        ).1 && end@[q] == best_from(run, q, d).2,
                    forall|q: int|
                        p < q <= n ==> best_from(run, q, d).0 <= run.len() - q && best_from(
                            run,
                            q,
                            d,
                        ).1 <= char_len(run.subrange(q, run.len() as int)),
                    char_len(run.subrange(p as int, n as int)) <= usize::MAX,
                    node_at(*root, run.subrange(p as int, j as int)) == Some(*node),
                    acc == char_len(run.subrange(p as int, j as int)),
                    found == best_upto(run, p as int, j as int, d) is Some,
                    found ==> best_upto(run, p as int, j as int, d) == Some(
                        (cur_t as nat, cur_c as nat, cur_e as int),
                    ),
                ensures
                    p <= j <= n,
                    found == best_upto(run, p as int, n as int, d) is Some,
                    found ==> best_upto(run, p as int, n as int, d) == Some(
                        (cur_t as nat, cur_c as nat, cur_e as int),
                    ),
                decreases n - j,
            {
                proof {
                    lemma_node_at_push(*root, run.subrange(p as int, j as int), run[j as int]);
                    assert(run.subrange(p as int, j + 1) =~= run.subrange(p as int, j as int).push(
                        run[j as int],
                    ));
                }
                match node.child_of(&clusters[j]) {
                    Some(next) => {
                        let w = cluster_chars(&clusters[j]);
                        proof {
                            lemma_char_len_split(run, p as int, j as int, j + 1);
                            lemma_char_len_split(run, p as int, j + 1, n as int);
                            assert(run.subrange(j as int, j + 1) =~= seq![run[j as int]]);
                            seq![run[j as int]].lemma_flatten_one_element();
                        }
                        node = next;
                        acc = acc + w;
                        j = j + 1;
                        proof {
                            assert(has_word(*root, run.subrange(p as int, j as int)) == node.is_word);
                            assert(is_edge(run, p as int, j as int, d) == node.is_word);
                            if !node.is_word {
                                assert(best_upto(run, p as int, j as int, d) == best_upto(
                                    run,
                                    p as int,
                                    j - 1,
                                    d,
                                ));
                            }
                        }
                        if node.is_word {
                            let tj = if j < n {
                                tok[j]
                            } else {
                                0
                            };
                            let cj = if j < n {
                                cov[j]
                            } else {
                                0
                            };
                            let mt = 1 + tj;
                            let mc = acc + cj;
                            let better = !found || mt < cur_t || (mt == cur_t && (mc > cur_c || (mc
                                == cur_c && j > cur_e)));
                            proof {
                                let bj = best_from(run, j as int, d);
                                assert(tj == bj.0 && cj == bj.1);
                                assert(d.contains(run.subrange(p as int, j as int)));
                                assert(edge_cover(run, p as int, j as int, d) == acc);
                                assert(is_edge(run, p as int, j as int, d));
                                let mine: Score = (mt as nat, mc as nat, j as int);
                                assert(mine == (
                                    1 + bj.0,
                                    edge_cover(run, p as int, j as int, d) + bj.1,
                                    j as int,
                                ));
                                if found {
                                    assert(better == beats(
                                        mine,
                                        (cur_t as nat, cur_c as nat, cur_e as int),
                                    ));
                                }
                            }
                            if better {
                                cur_t = mt;
                                cur_c = mc;
                                cur_e = j;
                            }
                            found = true;
                        }
                    },
                    None => {
                        proof {
                            assert forall|f: int| j < f <= n implies !is_edge(
                                run,
                                p as int,
                                f,
                                d,
                            ) by {
                                lemma_node_at_dead(
                                    *root,
                                    run.subrange(p as int, j + 1),
                                    run.subrange(j + 1, f),
                                );
                                assert(run.subrange(p as int, j + 1) + run.subrange(j + 1, f)
                                    =~= run.subrange(p as int, f));
                            }
                            lemma_best_upto_flat(run, p as int, j as int, n as int, d);
                        }
                        break;
                    },
                }
            }
            proof {
                let f = longest_end(run, p as int, n as int, d);
                assert(is_edge(run, p as int, f, d));
                lemma_best_upto(run, p as int, n as int, d);
            }
            (cur_t, cur_c, cur_e)
        };
        tok.set(p, bt);
        cov.set(p, bc);
        end.set(p, be);
    }
    let mut tokens: Vec<Vec<String>> = Vec::new();
    let mut k: usize = 0;
    while k < n
        invariant
            k <= n == clusters.len(),
            run == views(clusters@),
            d == dict_of(*root),
            end@.len() == n,
            forall|q: int| 0 <= q < n ==> end@[q] == best_from(run, q, d).2,
            tviews(tokens@) + minwords_from(run, k as int, d) == minwords(run, d),
        decreases n - k,
    {
        let e = end[k];
        proof {
            lemma_best_from(run, k as int, d);
        }
        let tk = clone_range(clusters, k, e);
        let ghost before = tviews(tokens@);
        tokens.push(tk);
        assert(tviews(tokens@) =~= before.push(run.subrange(k as int, e as int)));
        assert(tviews(tokens@) + minwords_from(run, e as int, d) =~= before + minwords_from(
            run,
            k as int,
            d,
        ));
        k = e;
    }
    assert(minwords_from(run, k as int, d) =~= Seq::<Run>::empty());
    assert(tviews(tokens@) =~= tviews(tokens@) + minwords_from(run, k as int, d));
    tokens
}

/// A word ending anywhere is seen by `longest_end`.
proof fn lemma_longest_end_word(run: Run, i: int, j: int, f: int, d: Dict)
    requires
        i < f <= j,
        d.contains(run.subrange(i, f)),
    ensures
        longest_end(run, i, j, d) >= f,
    decreases j - i,
{
    if j > f && !d.contains(run.subrange(i, j)) {
        lemma_longest_end_word(run, i, j - 1, f, d);
    }
}

// ---------------------------------------------------------------------------
// The match graph a probabilistic scorer walks, and following its choice
// ---------------------------------------------------------------------------

/// The ends `e` in `(k, j]` where `run[k..e]` is a dictionary word, in
/// increasing order.
pub open spec fn word_ends(run: Run, k: int, j: int, d: Dict) -> Seq<int>
    decreases j - k,
{
    if j <= k {
        Seq::empty()
    } else if d.contains(run.subrange(k, j)) {
        word_ends(run, k, j - 1, d).push(j)
    } else {
        word_ends(run, k, j - 1, d)
    }
}

/// The edges leaving `k`: every dictionary match starting there, or the
/// single-cluster fallback when there is none.
pub open spec fn graph_row(run: Run, k: int, d: Dict) -> Seq<int> {
    if word_starts(run, k, d) {
        word_ends(run, k, run.len() as int, d)
    } else {
        seq![k + 1]
    }
}

/// Integer view of a list of positions.
pub open spec fn ints(v: Seq<usize>) -> Seq<int> {
    v.map_values(|x: usize| x as int)
}

proof fn lemma_word_ends_flat(run: Run, k: int, j: int, e: int, d: Dict)
    requires
        k <= j <= e,
        forall|f: int| j < f <= e ==> !d.contains(run.subrange(k, f)),
    ensures
        word_ends(run, k, e, d) == word_ends(run, k, j, d),
    decreases e - j,
{
    if e > j {
        lemma_word_ends_flat(run, k, j, e - 1, d);
    }
}

/// The match graph of a run: for each position, the ends of every edge
/// leaving it (see [`graph_row`]).
pub fn match_graph(clusters: &[String], root: &TrieNode) -> (rows: Vec<Vec<usize>>)
    ensures
        rows@.len() == clusters.len(),
        forall|k: int|
            0 <= k < clusters.len() ==> ints(#[trigger] rows@[k]@) == graph_row(
                views(clusters@),
                k,
                dict_of(*root),
            ),
{
    let ghost run = views(clusters@);
    let ghost d = dict_of(*root);
    let n = clusters.len();
    let mut rows: Vec<Vec<usize>> = Vec::new();
    let mut k: usize = 0;
    while k < n
        invariant
            k <= n == clusters.len(),
            run == views(clusters@),
            d == dict_of(*root),
            rows@.len() == k,
            forall|q: int| 0 <= q < k ==> ints(#[trigger] rows@[q]@) == graph_row(run, q, d),
        decreases n - k,
    {
        let mut edges: Vec<usize> = Vec::new();
        let mut node = root;
        let mut j = k;
        proof {
            assert(run.subrange(k as int, k as int) =~= Seq::<Seq<char>>::empty());
            assert(ints(edges@) =~= word_ends(run, k as int, k as int, d));
        }
        while j < n
            invariant
                k <= j <= n == clusters.len(),
                run == views(clusters@),
                d == dict_of(*root),
                node_at(*root, run.subrange(k as int, j as int)) == Some(*node),
                ints(edges@) == word_ends(run, k as int, j as int, d),
            ensures
                ints(edges@) == word_ends(run, k as int, n as int, d),
            decreases n - j,
        {
            proof {
                lemma_node_at_push(*root, run.subrange(k as int, j as int), run[j as int]);
                assert(run.subrange(k as int, j + 1) =~= run.subrange(k as int, j as int).push(
                    run[j as int],
                ));
            }
            match node.child_of(&clusters[j]) {
                Some(next) => {
                    node = next;
                    j = j + 1;
                    proof {
                        assert(has_word(*root, run.subrange(k as int, j as int)) == node.is_word);
                    }
                    if node.is_word {
                        let ghost before = ints(edges@);
                        edges.push(j);
                        assert(ints(edges@) =~= before.push(j as int));
                    }
                },
                None => {
                    proof {
                        assert forall|f: int| j < f <= n implies !d.contains(
                            run.subrange(k as int, f),
                        ) by {
                            lemma_node_at_dead(
                                *root,
                                run.subrange(k as int, j + 1),
                                run.subrange(j + 1, f),
                            );
                            assert(run.subrange(k as int, j + 1) + run.subrange(j + 1, f)
                                =~= run.subrange(k as int, f));
                        }
                        lemma_word_ends_flat(run, k as int, j as int, n as int, d);
                    }
                    break;
                },
            }
        }
        proof {
            lemma_longest_end_bounds(run, k as int, n as int, d);
        }
        if edges.len() == 0 {
            proof {
                if word_starts(run, k as int, d) {
                    let f = longest_end(run, k as int, n as int, d);
                    lemma_word_ends_has(run, k as int, n as int, f, d);
                }
            }
            edges.push(k + 1);
            assert(ints(edges@) =~= seq![k as int + 1]);
        } else {
            proof {
                if !word_starts(run, k as int, d) {
                    lemma_word_ends_none(run, k as int, n as int, d);
                }
            }
        }
        let ghost before = rows@;
        rows.push(edges);
        assert(rows@ =~= before.push(edges));
        k = k + 1;
    }
    rows
}

proof fn lemma_word_ends_has(run: Run, k: int, j: int, f: int, d: Dict)
    requires
        k < f <= j,
        d.contains(run.subrange(k, f)),
    ensures
        word_ends(run, k, j, d).len() > 0,
    decreases j - k,
{
    if j > f {
        lemma_word_ends_has(run, k, j - 1, f, d);
    }
}

proof fn lemma_word_ends_none(run: Run, k: int, j: int, d: Dict)
    requires
        longest_end(run, k, j, d) == k,
    ensures
        word_ends(run, k, j, d).len() == 0,
    decreases j - k,
{
    if j > k {
        lemma_word_ends_none(run, k, j - 1, d);
    }
}

/// The tokens of `run[k..]` obtained by following `ends`: the token
/// starting at `q` ends at `ends[q]`.
pub open spec fn path_from(run: Run, ends: Seq<usize>, k: int) -> Seq<Run>
    decreases run.len() - k,
{
    if k < 0 || k >= run.len() {
        Seq::empty()
    } else {
        let e = ends[k] as int;
        if k < e <= run.len() {
            seq![run.subrange(k, e)] + path_from(run, ends, e)
        } else {
            Seq::empty()
        }
    }
}

/// Cut the run into tokens along the chosen ends, left to right.
pub fn follow_ends(clusters: &[String], ends: &Vec<usize>) -> (tokens: Vec<Vec<String>>)
    requires
        ends.len() >= clusters.len(),
        forall|q: int| 0 <= q < clusters.len() ==> q < #[trigger] ends@[q] <= clusters.len(),
    ensures
        tviews(tokens@) == path_from(views(clusters@), ends@, 0),
{
    let ghost run = views(clusters@);
    let n = clusters.len();
    let mut tokens: Vec<Vec<String>> = Vec::new();
    let mut k: usize = 0;
    while k < n
        invariant
            k <= n == clusters.len(),
            run == views(clusters@),
            ends.len() >= n,
            forall|q: int| 0 <= q < n ==> q < #[trigger] ends@[q] <= n,
            tviews(tokens@) + path_from(run, ends@, k as int) == path_from(run, ends@, 0),
        decreases n - k,
    {
        let e = ends[k];
        let tk = clone_range(clusters, k, e);
        let ghost before = tviews(tokens@);
        tokens.push(tk);
        assert(tviews(tokens@) =~= before.push(run.subrange(k as int, e as int)));
        assert(tviews(tokens@) + path_from(run, ends@, e as int) =~= before + path_from(
            run,
            ends@,
            k as int,
        ));
        k = e;
    }
    assert(path_from(run, ends@, k as int) =~= Seq::<Run>::empty());
    assert(tviews(tokens@) =~= tviews(tokens@) + path_from(run, ends@, k as int));
    tokens
}

// ---------------------------------------------------------------------------
// Runs left for a statistical fallback
// ---------------------------------------------------------------------------

/// A token whose single cluster the dictionary has no entry for: where a
/// strategy found no match at all.
pub open spec fn is_unmatched(t: Run, d: Dict) -> bool {
    t.len() == 1 && !d.contains(t)
}

/// The tokens of `toks[i..]` with every maximal stretch of unmatched
/// single-cluster tokens gathered (together with the pending stretch
/// `buf`) into one run flagged `true`; other tokens pass through flagged
/// `false`.
pub open spec fn gather_from(toks: Seq<Run>, i: int, buf: Run, d: Dict) -> Seq<(bool, Run)>
    decreases toks.len() - i,
{
    if i < 0 || i >= toks.len() {
        if buf.len() > 0 {
            seq![(true, buf)]
        } else {
            Seq::empty()
        }
    } else if is_unmatched(toks[i], d) {
        gather_from(toks, i + 1, buf.push(toks[i][0]), d)
    } else {
        (if buf.len() > 0 {
            seq![(true, buf)]
        } else {
            Seq::empty()
        }) + seq![(false, toks[i])] + gather_from(toks, i + 1, Seq::empty(), d)
    }
}

/// Flagged pieces: `true` for a run to re-segment, `false` for a token.
pub open spec fn pviews(v: Seq<(bool, Vec<String>)>) -> Seq<(bool, Run)> {
    v.map_values(|x: (bool, Vec<String>)| (x.0, views(x.1@)))
}

/// Gather the maximal stretches of dictionary-fallback single clusters
/// (spots where the strategy found no dictionary match at all, not genuine
/// single-cluster words) so a statistical model can re-segment them; every
/// other token passes through untouched.
pub fn unmatched_runs(tokens: Vec<Vec<String>>, root: &TrieNode) -> (out: Vec<(bool, Vec<String>)>)
    ensures
        pviews(out@) == gather_from(tviews(tokens@), 0, Seq::empty(), dict_of(*root)),
{
    let ghost toks = tviews(tokens@);
    let ghost d = dict_of(*root);
    let mut out: Vec<(bool, Vec<String>)> = Vec::new();
    let mut buffer: Vec<String> = Vec::new();
    let mut i: usize = 0;
    assert(views(buffer@) =~= Seq::<Seq<char>>::empty());
    assert(pviews(out@) + gather_from(toks, 0, views(buffer@), d) =~= gather_from(
        toks,
        0,
        Seq::empty(),
        d,
    ));
    while i < tokens.len()
        invariant
            i <= tokens.len(),
            toks == tviews(tokens@),
            d == dict_of(*root),
            pviews(out@) + gather_from(toks, i as int, views(buffer@), d) == gather_from(
                toks,
                0,
                Seq::empty(),
                d,
            ),
        decreases tokens.len() - i,
    {
        let ghost before = pviews(out@);
        let ghost buf0 = views(buffer@);
        let single = tokens[i].len() == 1;
        let unmatched = single && !root.lookup(tokens[i].as_slice());
        if unmatched {
            let c = tokens[i][0].clone();
            buffer.push(c);
            assert(views(buffer@) =~= buf0.push(toks[i as int][0]));
        } else {
            if buffer.len() > 0 {
                out.push((true, buffer));
                buffer = Vec::new();
            }
            let t = clone_strings(&tokens[i]);
            out.push((false, t));
            proof {
                let head = if buf0.len() > 0 {
                    seq![(true, buf0)]
                } else {
                    Seq::<(bool, Run)>::empty()
                };
                assert(pviews(out@) =~= before + head + seq![(false, toks[i as int])]);
                assert(views(buffer@) =~= Seq::<Seq<char>>::empty());
            }
        }
        i = i + 1;
    }
    let ghost before = pviews(out@);
    let ghost buf0 = views(buffer@);
    if buffer.len() > 0 {
        out.push((true, buffer));
        assert(pviews(out@) =~= before.push((true, buf0)));
    }
    assert(pviews(out@) =~= before + gather_from(toks, i as int, buf0, d));
    out
}

/// A copy of a list of strings.
pub fn clone_strings(v: &Vec<String>) -> (out: Vec<String>)
    ensures
        views(out@) == views(v@),
{
    let out = clone_range(v.as_slice(), 0, v.len());
    assert(views(v@).subrange(0, v.len() as int) =~= views(v@));
    out
}


// ---------------------------------------------------------------------------
// Every strategy covers its run exactly
// ---------------------------------------------------------------------------

/// No token is empty.
pub open spec fn all_nonempty(toks: Seq<Run>) -> bool {
    forall|k: int| 0 <= k < toks.len() ==> #[trigger] toks[k].len() > 0
}

proof fn lemma_prepend_token(t: Run, rest: Seq<Run>)
    requires
        t.len() > 0,
        all_nonempty(rest),
    ensures
        (seq![t] + rest).flatten() == t + rest.flatten(),
        all_nonempty(seq![t] + rest),
{
    vstd::seq_lib::lemma_flatten_concat(seq![t], rest);
    seq![t].lemma_flatten_one_element();
    assert forall|k: int| 0 <= k < (seq![t] + rest).len() implies #[trigger] (seq![t] + rest)[
        k].len() > 0 by {
        if k > 0 {
            assert((seq![t] + rest)[k] == rest[k - 1]);
        }
    }
}

proof fn lemma_fmm_from_rejoin(run: Run, i: int, d: Dict)
    requires
        0 <= i <= run.len(),
    ensures
        fmm_from(run, i, d).flatten() == run.subrange(i, run.len() as int),
        all_nonempty(fmm_from(run, i, d)),
    decreases run.len() - i,
{
    let n = run.len() as int;
    if i >= n {
        assert(run.subrange(i, n) =~= Seq::<Seq<char>>::empty());
    } else {
        lemma_longest_end_bounds(run, i, n, d);
        let e = greedy_end(run, i, d);
        lemma_fmm_from_rejoin(run, e, d);
        lemma_prepend_token(run.subrange(i, e), fmm_from(run, e, d));
        assert(run.subrange(i, e) + run.subrange(e, n) =~= run.subrange(i, n));
    }
}

proof fn lemma_minwords_from_rejoin(run: Run, k: int, d: Dict)
    requires
        0 <= k <= run.len(),
    ensures
        minwords_from(run, k, d).flatten() == run.subrange(k, run.len() as int),
        all_nonempty(minwords_from(run, k, d)),
    decreases run.len() - k,
{
    let n = run.len() as int;
    if k >= n {
        assert(run.subrange(k, n) =~= Seq::<Seq<char>>::empty());
    } else {
        lemma_best_from(run, k, d);
        let e = best_from(run, k, d).2;
        lemma_minwords_from_rejoin(run, e, d);
        lemma_prepend_token(run.subrange(k, e), minwords_from(run, e, d));
        assert(run.subrange(k, e) + run.subrange(e, n) =~= run.subrange(k, n));
    }
}

proof fn lemma_rev_tokens(f: Seq<Run>)
    requires
        all_nonempty(f),
    ensures
        rev_tokens(f).flatten() == f.flatten().reverse(),
        all_nonempty(rev_tokens(f)),
    decreases f.len(),
{
    if f.len() == 0 {
        assert(rev_tokens(f) =~= Seq::<Run>::empty());
        assert(f.flatten().reverse() =~= Seq::<Seq<char>>::empty());
    } else {
        let t = f[0];
        let rest = f.drop_first();
        assert forall|k: int| 0 <= k < rest.len() implies #[trigger] rest[k].len() > 0 by {
            assert(rest[k] == f[k + 1]);
        }
        lemma_rev_tokens(rest);
        assert(rev_tokens(f) =~= rev_tokens(rest) + seq![t.reverse()]);
        vstd::seq_lib::lemma_flatten_concat(rev_tokens(rest), seq![t.reverse()]);
        seq![t.reverse()].lemma_flatten_one_element();
        assert(f.flatten() == t + rest.flatten());
        assert((t + rest.flatten()).reverse() =~= rest.flatten().reverse() + t.reverse());
        assert forall|k: int| 0 <= k < rev_tokens(f).len() implies #[trigger] rev_tokens(f)[
            k].len() > 0 by {
            if k < rev_tokens(rest).len() {
                assert(rev_tokens(f)[k] == rev_tokens(rest)[k]);
            } else {
                assert(rev_tokens(f)[k] == t.reverse());
            }
        }
    }
}

/// Every strategy covers its run exactly: the tokens are non-empty and,
/// joined in order, give back the run's clusters. No strategy drops,
/// duplicates or reorders a cluster.
pub proof fn law_tokens_rejoin_run(run: Run, d: Dict, rd: Dict)
    ensures
        fmm(run, d).flatten() == run,
        all_nonempty(fmm(run, d)),
        bmm(run, rd).flatten() == run,
        all_nonempty(bmm(run, rd)),
        bimm(run, d, rd).flatten() == run,
        all_nonempty(bimm(run, d, rd)),
        minwords(run, d).flatten() == run,
        all_nonempty(minwords(run, d)),
{
    lemma_fmm_from_rejoin(run, 0, d);
    assert(run.subrange(0, run.len() as int) =~= run);
    lemma_minwords_from_rejoin(run, 0, d);
    let r = run.reverse();
    lemma_fmm_from_rejoin(r, 0, rd);
    assert(r.subrange(0, r.len() as int) =~= r);
    lemma_rev_tokens(fmm(r, rd));
    assert(r.reverse() =~= run);
}


// ---------------------------------------------------------------------------
// Fewest words
// ---------------------------------------------------------------------------

proof fn lemma_best_upto_min(run: Run, k: int, e: int, f: int, d: Dict)
    requires
        0 <= k < f <= e <= run.len(),
        is_edge(run, k, f, d),
    ensures
        best_upto(run, k, e, d) is Some,
        best_upto(run, k, e, d).unwrap().0 <= 1 + best_from(run, f, d).0,
    decreases e - k,
{
    lemma_best_upto(run, k, e, d);
    if f < e {
        lemma_best_upto_min(run, k, e - 1, f, d);
    } else {
        lemma_best_upto(run, k, e - 1, d);
    }
}

proof fn lemma_best_from_count(run: Run, k: int, d: Dict)
    requires
        0 <= k <= run.len(),
    ensures
        minwords_from(run, k, d).len() == best_from(run, k, d).0,
        best_from(run, k, d).0 <= fmm_from(run, k, d).len(),
    decreases run.len() - k,
{
    let n = run.len() as int;
    if k < n {
        lemma_best_from(run, k, d);
        lemma_best_upto(run, k, n, d);
        let e = best_from(run, k, d).2;
        lemma_best_from_count(run, e, d);
        lemma_longest_end_bounds(run, k, n, d);
        let g = greedy_end(run, k, d);
        assert(is_edge(run, k, g, d));
        lemma_best_upto_min(run, k, n, g, d);
        lemma_best_from_count(run, g, d);
    }
}

/// Fewest-words segmentation never yields more tokens than greedy forward
/// matching, and neither does bidirectional matching: both can only
/// improve on committing to the longest first word.
pub proof fn law_fewest_words(run: Run, d: Dict, rd: Dict)
    ensures
        minwords(run, d).len() <= fmm(run, d).len(),
        bimm(run, d, rd).len() <= fmm(run, d).len(),
{
    lemma_best_from_count(run, 0, d);
}


proof fn lemma_fmm_whole(run: Run, d: Dict)
    requires
        run.len() > 0,
        d.contains(run),
    ensures
        fmm(run, d) == seq![run],
{
    let n = run.len() as int;
    assert(run.subrange(0, n) =~= run);
    assert(longest_end(run, 0, n, d) == n);
    assert(fmm_from(run, n, d) =~= Seq::<Run>::empty());
    assert(seq![run.subrange(0, n)] + fmm_from(run, n, d) =~= seq![run]);
}

/// A run that is itself a dictionary word is kept whole, as one token, by
/// every strategy.
pub proof fn law_word_kept_whole(run: Run, d: Dict, rd: Dict)
    requires
        run.len() > 0,
        d.contains(run),
        rd.contains(run.reverse()),
    ensures
        fmm(run, d) == seq![run],
        bimm(run, d, rd) == seq![run],
        minwords(run, d) == seq![run],
{
    let n = run.len() as int;
    lemma_fmm_whole(run, d);
    lemma_fmm_whole(run.reverse(), rd);
    assert(rev_tokens(seq![run.reverse()]) =~= seq![run.reverse().reverse()]);
    assert(run.reverse().reverse() =~= run);
    assert(run.subrange(0, n) =~= run);
    assert(is_edge(run, 0, n, d));
    lemma_best_upto_min(run, 0, n, n, d);
    lemma_best_from(run, 0, d);
    lemma_best_upto(run, 0, n, d);
    let e = best_from(run, 0, d).2;
    if e < n {
        lemma_best_from(run, e, d);
        lemma_best_upto(run, e, n, d);
    }
    assert(e == n);
    assert(minwords_from(run, n, d) =~= Seq::<Run>::empty());
    assert(seq![run.subrange(0, n)] + minwords_from(run, n, d) =~= seq![run]);
}


// ---------------------------------------------------------------------------
// The fallback only touches unmatched clusters
// ---------------------------------------------------------------------------

/// The clusters of flagged pieces, in order.
pub open spec fn piece_clusters(ps: Seq<(bool, Run)>) -> Run
    decreases ps.len(),
{
    if ps.len() == 0 {
        Seq::empty()
    } else {
        ps[0].1 + piece_clusters(ps.drop_first())
    }
}

/// The pieces passed through as tokens (flagged `false`), in order.
pub open spec fn passed(ps: Seq<(bool, Run)>) -> Seq<Run>
    decreases ps.len(),
{
    if ps.len() == 0 {
        Seq::empty()
    } else {
        (if !ps[0].0 {
            seq![ps[0].1]
        } else {
            Seq::empty()
        }) + passed(ps.drop_first())
    }
}

/// The tokens that are not unmatched, in order.
pub open spec fn matched_tokens(toks: Seq<Run>, d: Dict) -> Seq<Run>
    decreases toks.len(),
{
    if toks.len() == 0 {
        Seq::empty()
    } else {
        (if !is_unmatched(toks[0], d) {
            seq![toks[0]]
        } else {
            Seq::empty()
        }) + matched_tokens(toks.drop_first(), d)
    }
}

proof fn lemma_pieces_append(a: Seq<(bool, Run)>, b: Seq<(bool, Run)>)
    ensures
        piece_clusters(a + b) == piece_clusters(a) + piece_clusters(b),
        passed(a + b) == passed(a) + passed(b),
    decreases a.len(),
{
    if a.len() == 0 {
        assert(a + b =~= b);
    } else {
        lemma_pieces_append(a.drop_first(), b);
        assert((a + b).drop_first() =~= a.drop_first() + b);
        assert((a + b)[0] == a[0]);
    }
}

proof fn lemma_one_piece(p: (bool, Run))
    ensures
        piece_clusters(seq![p]) == p.1,
        passed(seq![p]) == (if !p.0 {
            seq![p.1]
        } else {
            Seq::<Run>::empty()
        }),
{
    let one = seq![p];
    assert(one.drop_first() =~= Seq::<(bool, Run)>::empty());
    assert(one[0] == p);
    assert(piece_clusters(one.drop_first()) =~= Seq::<Seq<char>>::empty());
    assert(p.1 + Seq::<Seq<char>>::empty() =~= p.1);
    assert(passed(one.drop_first()) =~= Seq::<Run>::empty());
}

proof fn lemma_flush_piece(buf: Run)
    ensures
        piece_clusters(
            if buf.len() > 0 {
                seq![(true, buf)]
            } else {
                Seq::empty()
            },
        ) == buf,
        passed(
            if buf.len() > 0 {
                seq![(true, buf)]
            } else {
                Seq::empty()
            },
        ) == Seq::<Run>::empty(),
{
    if buf.len() > 0 {
        lemma_one_piece((true, buf));
    } else {
        assert(buf =~= Seq::<Seq<char>>::empty());
    }
}

proof fn lemma_gather_from(toks: Seq<Run>, i: int, buf: Run, d: Dict)
    requires
        0 <= i <= toks.len(),
    ensures
        piece_clusters(gather_from(toks, i, buf, d)) == buf + toks.subrange(
            i,
            toks.len() as int,
        ).flatten(),
        passed(gather_from(toks, i, buf, d)) == matched_tokens(
            toks.subrange(i, toks.len() as int),
            d,
        ),
    decreases toks.len() - i,
{
    let n = toks.len() as int;
    let rest = toks.subrange(i, n);
    lemma_flush_piece(buf);
    if i >= n {
        assert(rest =~= Seq::<Run>::empty());
        assert(buf + Seq::<Seq<char>>::empty() =~= buf);
    } else {
        assert(rest[0] == toks[i]);
        assert(rest.drop_first() =~= toks.subrange(i + 1, n));
        assert(rest.flatten() == toks[i] + toks.subrange(i + 1, n).flatten());
        if is_unmatched(toks[i], d) {
            lemma_gather_from(toks, i + 1, buf.push(toks[i][0]), d);
            assert(toks[i] =~= seq![toks[i][0]]);
            assert(buf.push(toks[i][0]) + toks.subrange(i + 1, n).flatten() =~= buf + (toks[i]
                + toks.subrange(i + 1, n).flatten()));
            assert(matched_tokens(rest, d) =~= Seq::<Run>::empty() + matched_tokens(
                toks.subrange(i + 1, n),
                d,
            ));
        } else {
            lemma_gather_from(toks, i + 1, Seq::empty(), d);
            let flushed: Seq<(bool, Run)> = if buf.len() > 0 {
                seq![(true, buf)]
            } else {
                Seq::empty()
            };
            let tail = gather_from(toks, i + 1, Seq::empty(), d);
            lemma_pieces_append(flushed, seq![(false, toks[i])]);
            lemma_pieces_append(flushed + seq![(false, toks[i])], tail);
            lemma_one_piece((false, toks[i]));
            assert(Seq::<Seq<char>>::empty() + toks.subrange(i + 1, n).flatten()
                =~= toks.subrange(i + 1, n).flatten());
            assert(buf + toks[i] + toks.subrange(i + 1, n).flatten() =~= buf + (toks[i]
                + toks.subrange(i + 1, n).flatten()));
            assert(Seq::<Run>::empty() + seq![toks[i]] =~= seq![toks[i]]);
        }
    }
}

/// The fallback touches only what no strategy matched: the gathered
/// pieces hold, in order, exactly the clusters of the tokens, and the
/// pieces passed through unchanged are exactly the tokens that are not
/// unmatched single clusters (dictionary words, single-cluster words
/// included), in order.
pub proof fn law_fallback_keeps_matches(toks: Seq<Run>, d: Dict)
    ensures
        piece_clusters(gather_from(toks, 0, Seq::empty(), d)) == toks.flatten(),
        passed(gather_from(toks, 0, Seq::empty(), d)) == matched_tokens(toks, d),
{
    lemma_gather_from(toks, 0, Seq::empty(), d);
    assert(toks.subrange(0, toks.len() as int) =~= toks);
    assert(Seq::<Seq<char>>::empty() + toks.flatten() =~= toks.flatten());
}

} // verus!
