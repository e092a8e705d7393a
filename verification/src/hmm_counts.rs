//! BMES tag counts gathered from a segmented corpus: how often each tag
//! starts a run, follows each other tag, and is carried by each cluster.
//! They are the raw material of the hidden Markov model fallback.

use vstd::prelude::*;
use crate::bmes::{NUM_STATES, valid_tags, words_tags, words_clusters, word_tags};
use crate::corpus::{Example, example_view, example_views};
use crate::matching::Run;
use crate::runs::{
    RunWords, corpus_runs, run_views, sentence_runs_into, run_word, continues_run, word_chars,
    run_sizes, lemma_run_sizes_append, lemma_sentence_runs_size, lemma_sentence_runs_tagged,
    sentence_runs,
};
use crate::text::{views, str_chars, str_eq};
use crate::kcc::{is_khmer};
use crate::wordlist::{dedup_first, lemma_dedup_first};

verus! {

/// A training run: its clusters and their tags.
pub type TaggedRun = (Run, Seq<usize>);

/// The number of clusters in a list of runs.
pub open spec fn runs_total(rs: Seq<TaggedRun>) -> nat
    decreases rs.len(),
{
    if rs.len() == 0 {
        0
    } else {
        runs_total(rs.drop_last()) + rs.last().0.len()
    }
}

/// The clusters of a list of runs, run after run.
pub open spec fn runs_clusters(rs: Seq<TaggedRun>) -> Seq<Seq<char>>
    decreases rs.len(),
{
    if rs.len() == 0 {
        Seq::empty()
    } else {
        runs_clusters(rs.drop_last()) + rs.last().0
    }
}

/// How many runs start with tag `s`.
pub open spec fn start_count(rs: Seq<TaggedRun>, s: int) -> nat
    decreases rs.len(),
{
    if rs.len() == 0 {
        0
    } else {
        start_count(rs.drop_last(), s) + if rs.last().1.len() > 0 && rs.last().1[0] == s {
            1nat
        } else {
            0nat
        }
    }
}

/// How often tag `b` directly follows tag `a` in `tags`.
pub open spec fn pair_count(tags: Seq<usize>, a: int, b: int) -> nat
    decreases tags.len(),
{
    if tags.len() < 2 {
        0
    } else {
        pair_count(tags.drop_last(), a, b) + if tags[tags.len() - 2] == a && tags.last() == b {
            1nat
        } else {
            0nat
        }
    }
}

/// How often tag `b` directly follows tag `a` within a run.
pub open spec fn trans_count(rs: Seq<TaggedRun>, a: int, b: int) -> nat
    decreases rs.len(),
{
    if rs.len() == 0 {
        0
    } else {
        trans_count(rs.drop_last(), a, b) + pair_count(rs.last().1, a, b)
    }
}

/// How often cluster `c` carries tag `s` in one run.
pub open spec fn tag_count(cl: Run, tags: Seq<usize>, c: Seq<char>, s: int) -> nat
    decreases cl.len(),
{
    if cl.len() == 0 {
        0
    } else {
        tag_count(cl.drop_last(), tags, c, s) + if cl.last() == c && tags[cl.len() - 1] == s {
            1nat
        } else {
            0nat
        }
    }
}

/// How often cluster `c` carries tag `s` across the runs.
pub open spec fn emit_count(rs: Seq<TaggedRun>, c: Seq<char>, s: int) -> nat
    decreases rs.len(),
{
    if rs.len() == 0 {
        0
    } else {
        emit_count(rs.drop_last(), c, s) + tag_count(rs.last().0, rs.last().1, c, s)
    }
}

/// Every run has one valid tag per cluster.
pub open spec fn well_tagged(rs: Seq<TaggedRun>) -> bool {
    forall|k: int|
        0 <= k < rs.len() ==> (#[trigger] rs[k]).1.len() == rs[k].0.len() && valid_tags(rs[k].1)
}

/// Raw BMES tag counts gathered from a segmented corpus.
pub struct HmmCounts {
    /// How often a run began with each tag.
    pub start: [u64; 4],
    /// `trans[i][j]`: how often a cluster tagged `i` was directly followed
    /// by one tagged `j`.
    pub trans: [[u64; 4]; 4],
    /// Each cluster, in order of first occurrence, with how often it
    /// carried each tag.
    pub emit: Vec<(String, [u64; 4])>,
}

/// The clusters of the emission table, in order.
pub open spec fn emit_keys(c: HmmCounts) -> Seq<Seq<char>> {
    c.emit@.map_values(|e: (String, [u64; 4])| e.0@)
}

/// `c` holds exactly the counts of the runs `rs`.
pub open spec fn counts_of(c: HmmCounts, rs: Seq<TaggedRun>) -> bool {
    &&& forall|s: int| 0 <= s < 4 ==> #[trigger] c.start@[s] == start_count(rs, s)
    &&& forall|a: int, b: int|
        0 <= a < 4 && 0 <= b < 4 ==> #[trigger] c.trans@[a]@[b] == trans_count(rs, a, b)
    &&& emit_keys(c) == dedup_first(runs_clusters(rs))
    &&& forall|k: int, s: int|
        0 <= k < c.emit@.len() && 0 <= s < 4 ==> #[trigger] c.emit@[k].1@[s] == emit_count(
            rs,
            c.emit@[k].0@,
            s,
        )
}

impl HmmCounts {
    /// How often `cluster` carried each tag, if it occurred at all.
    pub fn emit_counts(&self, cluster: &str) -> (r: Option<[u64; 4]>)
        ensures
            match r {
                Some(a) => exists|k: int|
                    0 <= k < self.emit@.len() && self.emit@[k].0@ == cluster@ && a
                        == self.emit@[k].1,
                None => !emit_keys(*self).contains(cluster@),
            },
    {
        let mut k: usize = 0;
        while k < self.emit.len()
            invariant
                k <= self.emit@.len(),
                forall|j: int| 0 <= j < k ==> self.emit@[j].0@ != cluster@,
            decreases self.emit.len() - k,
        {
            if str_eq(self.emit[k].0.as_str(), cluster) {
                return Some(self.emit[k].1);
            }
            k = k + 1;
        }
        proof {
            if emit_keys(*self).contains(cluster@) {
                let j = emit_keys(*self).index_of(cluster@);
                assert(self.emit@[j].0@ == cluster@);
            }
        }
        None
    }
}

proof fn lemma_pair_count_bound(tags: Seq<usize>, a: int, b: int)
    ensures
        pair_count(tags, a, b) <= tags.len(),
    decreases tags.len(),
{
    if tags.len() >= 2 {
        lemma_pair_count_bound(tags.drop_last(), a, b);
    }
}

proof fn lemma_tag_count_bound(cl: Run, tags: Seq<usize>, c: Seq<char>, s: int)
    ensures
        tag_count(cl, tags, c, s) <= cl.len(),
    decreases cl.len(),
{
    if cl.len() > 0 {
        lemma_tag_count_bound(cl.drop_last(), tags, c, s);
    }
}

proof fn lemma_counts_bound(rs: Seq<TaggedRun>, a: int, b: int, c: Seq<char>)
    requires
        well_tagged(rs),
    ensures
        start_count(rs, a) <= runs_total(rs),
        trans_count(rs, a, b) <= runs_total(rs),
        emit_count(rs, c, a) <= runs_total(rs),
    decreases rs.len(),
{
    if rs.len() > 0 {
        let init = rs.drop_last();
        assert forall|k: int| 0 <= k < init.len() implies (#[trigger] init[k]).1.len()
            == init[k].0.len() && valid_tags(init[k].1) by {
            assert(init[k] == rs[k]);
        }
        lemma_counts_bound(init, a, b, c);
        assert(rs[rs.len() - 1] == rs.last());
        lemma_pair_count_bound(rs.last().1, a, b);
        lemma_tag_count_bound(rs.last().0, rs.last().1, c, a);
    }
}

proof fn lemma_total_prefix(rs: Seq<TaggedRun>, i: int)
    requires
        0 <= i < rs.len(),
    ensures
        runs_total(rs.take(i)) + rs[i].0.len() <= runs_total(rs),
    decreases rs.len() - i,
{
    assert(rs.take(i + 1).drop_last() =~= rs.take(i));
    assert(rs.take(i + 1).last() == rs[i]);
    if i + 1 < rs.len() {
        lemma_total_prefix(rs, i + 1);
    } else {
        assert(rs.take(i + 1) =~= rs);
    }
}

proof fn lemma_pair_step(tags: Seq<usize>, t: int, a: int, b: int)
    requires
        0 <= t < tags.len(),
    ensures
        pair_count(tags.take(t + 1), a, b) == pair_count(tags.take(t), a, b) + if t >= 1
            && tags[t - 1] == a && tags[t] == b {
            1nat
        } else {
            0nat
        },
{
    assert(tags.take(t + 1).drop_last() =~= tags.take(t));
}

proof fn lemma_tag_step(cl: Run, tags: Seq<usize>, t: int, c: Seq<char>, s: int)
    requires
        0 <= t < cl.len(),
        tags.len() == cl.len(),
    ensures
        tag_count(cl.take(t + 1), tags, c, s) == tag_count(cl.take(t), tags, c, s) + if cl[t]
            == c && tags[t] == s {
            1nat
        } else {
            0nat
        },
{
    assert(cl.take(t + 1).drop_last() =~= cl.take(t));
}

proof fn lemma_absent_counts(done: Seq<TaggedRun>, part: Run, tags: Seq<usize>, c: Seq<char>, base: Seq<Seq<char>>)
    requires
        base == runs_clusters(done),
        !(base + part).contains(c),
    ensures
        forall|s: int| #[trigger] emit_count(done, c, s) == 0 && tag_count(part, tags, c, s) == 0,
{
    assert(!base.contains(c)) by {
        if base.contains(c) {
            let k = base.index_of(c);
            assert((base + part)[k] == c);
        }
    }
    assert(!part.contains(c)) by {
        if part.contains(c) {
            let k = part.index_of(c);
            assert((base + part)[base.len() + k] == c);
        }
    }
    assert forall|s: int| #[trigger] emit_count(done, c, s) == 0 && tag_count(part, tags, c, s) == 0 by {
        lemma_emit_absent(done, c, s);
        lemma_tag_absent(part, tags, c, s);
    }
}

proof fn lemma_emit_absent(rs: Seq<TaggedRun>, c: Seq<char>, s: int)
    ensures
        !(runs_clusters(rs).contains(c)) ==> emit_count(rs, c, s) == 0,
    decreases rs.len(),
{
    if rs.len() > 0 && !runs_clusters(rs).contains(c) {
        let init = rs.drop_last();
        assert(!runs_clusters(init).contains(c)) by {
            if runs_clusters(init).contains(c) {
                let k = runs_clusters(init).index_of(c);
                assert(runs_clusters(rs)[k] == c);
            }
        }
        lemma_emit_absent(init, c, s);
        assert(!rs.last().0.contains(c)) by {
            if rs.last().0.contains(c) {
                let k = rs.last().0.index_of(c);
                assert(runs_clusters(rs)[runs_clusters(init).len() + k] == c);
            }
        }
        lemma_tag_absent(rs.last().0, rs.last().1, c, s);
    }
}

proof fn lemma_tag_absent(cl: Run, tags: Seq<usize>, c: Seq<char>, s: int)
    ensures
        !cl.contains(c) ==> tag_count(cl, tags, c, s) == 0,
    decreases cl.len(),
{
    if cl.len() > 0 && !cl.contains(c) {
        assert(!cl.drop_last().contains(c)) by {
            if cl.drop_last().contains(c) {
                let k = cl.drop_last().index_of(c);
                assert(cl[k] == c);
            }
        }
        assert(cl.last() != c) by {
            if cl.last() == c {
                assert(cl[cl.len() - 1] == c);
            }
        }
        lemma_tag_absent(cl.drop_last(), tags, c, s);
    }
}


fn find_key(em: &Vec<(String, Vec<u64>)>, c: &String) -> (r: Option<usize>)
    ensures
        match r {
            Some(k) => k < em@.len() && em@[k as int].0@ == c@,
            None => !em@.map_values(|e: (String, Vec<u64>)| e.0@).contains(c@),
        },
{
    let mut k: usize = 0;
    while k < em.len()
        invariant
            k <= em@.len(),
            forall|j: int| 0 <= j < k ==> em@[j].0@ != c@,
        decreases em.len() - k,
    {
        if str_eq(em[k].0.as_str(), c.as_str()) {
            return Some(k);
        }
        k = k + 1;
    }
    proof {
        let keys = em@.map_values(|e: (String, Vec<u64>)| e.0@);
        if keys.contains(c@) {
            let j = keys.index_of(c@);
            assert(em@[j].0@ == c@);
        }
    }
    None
}

fn bump(v: &mut Vec<u64>, i: usize)
    requires
        i < old(v)@.len(),
        old(v)@[i as int] < u64::MAX,
    ensures
        final(v)@ == old(v)@.update(i as int, (old(v)@[i as int] + 1) as u64),
{
    let x = v[i];
    v.set(i, x + 1);
}

fn to_array(v: &Vec<u64>) -> (a: [u64; 4])
    requires
        v@.len() == 4,
    ensures
        a@ == v@,
{
    let a = [v[0], v[1], v[2], v[3]];
    assert(a@ =~= v@);
    a
}

/// Count start, transition and emission statistics over training runs.
pub fn count_runs(runs: &Vec<(Vec<String>, Vec<usize>)>) -> (c: HmmCounts)
    requires
        well_tagged(run_views(runs@)),
        runs_total(run_views(runs@)) <= u64::MAX,
    ensures
        counts_of(c, run_views(runs@)),
{
    let ghost rs = run_views(runs@);
    let mut st: Vec<u64> = vec![0, 0, 0, 0];
    let mut tr: Vec<u64> = vec![0, 0, 0, 0, 0, 0, 0, 0, 0, 0, 0, 0, 0, 0, 0, 0];
    let mut em: Vec<(String, Vec<u64>)> = Vec::new();
    let ghost mut seen: Seq<Seq<char>> = Seq::empty();
    let mut ri: usize = 0;
    assert(st@ =~= seq![0u64, 0, 0, 0]);
    while ri < runs.len()
        invariant
            ri <= runs@.len(),
            rs == run_views(runs@),
            well_tagged(rs),
            well_tagged(rs.take(ri as int)),
            runs_total(rs) <= u64::MAX,
            st@.len() == 4,
            tr@.len() == 16,
            forall|s: int| 0 <= s < 4 ==> #[trigger] st@[s] == start_count(rs.take(ri as int), s),
            forall|a: int, b: int|
                0 <= a < 4 && 0 <= b < 4 ==> #[trigger] tr@[a * 4 + b] == trans_count(
                    rs.take(ri as int),
                    a,
                    b,
                ),
            seen == runs_clusters(rs.take(ri as int)),
            em@.map_values(|e: (String, Vec<u64>)| e.0@) == dedup_first(seen),
            forall|k: int|
                0 <= k < em@.len() ==> (#[trigger] em@[k]).1@.len() == 4 && forall|s: int|
                    0 <= s < 4 ==> #[trigger] em@[k].1@[s] == emit_count(
                        rs.take(ri as int),
                        em@[k].0@,
                        s,
                    ),
        decreases runs.len() - ri,
    {
        let ghost r = rs[ri as int];
        let cl = &runs[ri].0;
        let tg = &runs[ri].1;
        let ghost done = rs.take(ri as int);
        proof {
            assert(r == (views(cl@), tg@));
            assert(r.1.len() == r.0.len() && valid_tags(r.1));
            lemma_total_prefix(rs, ri as int);
            assert(rs.take(ri + 1).drop_last() =~= done);
            assert(rs.take(ri + 1).last() == r);
        }
        let n = cl.len();
        if n > 0 {
            let s0 = tg[0];
            proof {
                assert(s0 < 4);
                lemma_counts_bound(done, s0 as int, 0, Seq::empty());
            }
            bump(&mut st, s0);
        }
        assert forall|s: int| 0 <= s < 4 implies #[trigger] st@[s] == start_count(
            rs.take(ri + 1),
            s,
        ) by {}
        let ghost base = seen;
        let mut t: usize = 0;
        proof {
            assert(views(cl@).take(0) =~= Seq::<Seq<char>>::empty());
            assert(tg@.take(0) =~= Seq::<usize>::empty());
            assert(base + views(cl@).take(0) =~= base);
        }
        while t < n
            invariant
                ri < runs@.len(),
                rs == run_views(runs@),
                r == rs[ri as int],
                r == (views(cl@), tg@),
                done == rs.take(ri as int),
                n == cl@.len(),
                tg@.len() == n,
                valid_tags(tg@),
                runs_total(done) + n <= runs_total(rs),
                runs_total(rs) <= u64::MAX,
                well_tagged(done),
                t <= n,
                st@.len() == 4,
                tr@.len() == 16,
                forall|s: int| 0 <= s < 4 ==> #[trigger] st@[s] == start_count(rs.take(ri + 1), s),
                forall|a: int, b: int|
                    0 <= a < 4 && 0 <= b < 4 ==> #[trigger] tr@[a * 4 + b] == trans_count(done, a, b)
                        + pair_count(tg@.take(t as int), a, b),
                base == runs_clusters(done),
                seen == base + views(cl@).take(t as int),
                em@.map_values(|e: (String, Vec<u64>)| e.0@) == dedup_first(seen),
                forall|k: int|
                    0 <= k < em@.len() ==> (#[trigger] em@[k]).1@.len() == 4 && forall|s: int|
                        0 <= s < 4 ==> #[trigger] em@[k].1@[s] == emit_count(done, em@[k].0@, s)
                            + tag_count(views(cl@).take(t as int), tg@, em@[k].0@, s),
            decreases n - t,
        {
            let tag = tg[t];
            if t >= 1 {
                let a = tg[t - 1];
                proof {
                    lemma_counts_bound(done, a as int, tag as int, Seq::empty());
                    lemma_pair_count_bound(tg@.take(t as int), a as int, tag as int);
                }
                bump(&mut tr, a * 4 + tag);
            }
            proof {
                assert forall|a: int, b: int| 0 <= a < 4 && 0 <= b < 4 implies #[trigger] tr@[a * 4
                    + b] == trans_count(done, a, b) + pair_count(tg@.take(t + 1), a, b) by {
                    lemma_pair_step(tg@, t as int, a, b);
                    if t >= 1 && (a != tg@[t - 1] || b != tag) {
                        assert(a * 4 + b != tg@[t - 1] * 4 + tag);
                    }
                }
            }
            let c = &cl[t];
            let ghost cv = c@;
            let ghost next = seen.push(cv);
            proof {
                assert(views(cl@)[t as int] == cv);
                assert(views(cl@).take(t + 1) =~= views(cl@).take(t as int).push(cv));
                assert(next =~= base + views(cl@).take(t + 1));
                assert(next.drop_last() =~= seen);
                lemma_dedup_first(seen);
            }
            let ghost keys = em@.map_values(|e: (String, Vec<u64>)| e.0@);
            let ghost old_em = em@;
            let found_at = find_key(&em, c);
            let found = found_at.is_some();
            let k: usize = match found_at {
                Some(k) => k,
                None => 0,
            };
            assert forall|j: int| 0 <= j < old_em.len() implies (#[trigger] old_em[j]).1@.len() == 4
                && forall|s: int|
                0 <= s < 4 ==> #[trigger] old_em[j].1@[s] == emit_count(done, old_em[j].0@, s)
                    + tag_count(views(cl@).take(t as int), tg@, old_em[j].0@, s) by {
                assert(old_em[j] == em@[j]);
            }
            if found {
                proof {
                    assert(seen.contains(cv)) by {
                        assert(keys[k as int] == cv);
                        assert(keys.contains(cv));
                    }
                    lemma_counts_bound(done, tag as int, 0, cv);
                    lemma_tag_count_bound(views(cl@).take(t as int), tg@, cv, tag as int);
                }
                let name = em[k].0.clone();
                let mut counts = em[k].1.clone();
                assert(counts@ == old_em[k as int].1@);
                bump(&mut counts, tag);
                em.set(k, (name, counts));
                proof {
                    assert(em@.map_values(|e: (String, Vec<u64>)| e.0@) =~= keys);
                    assert forall|j: int| 0 <= j < em@.len() implies (#[trigger] em@[j]).1@.len()
                        == 4 && forall|s: int|
                        0 <= s < 4 ==> #[trigger] em@[j].1@[s] == emit_count(done, em@[j].0@, s)
                            + tag_count(views(cl@).take(t + 1), tg@, em@[j].0@, s) by {
                        assert forall|s: int| 0 <= s < 4 implies #[trigger] em@[j].1@[s]
                            == emit_count(done, em@[j].0@, s) + tag_count(
                            views(cl@).take(t + 1),
                            tg@,
                            em@[j].0@,
                            s,
                        ) by {
                            lemma_tag_step(views(cl@), tg@, t as int, em@[j].0@, s);
                            if j != k {
                                assert(em@[j] == old_em[j]);
                                assert(keys[j] != cv) by {
                                    if keys[j] == cv {
                                        assert(keys[j] == keys[k as int]);
                                    }
                                }
                            }
                        }
                    }
                }
            } else {
                proof {
                    assert(!seen.contains(cv));
                    lemma_absent_counts(done, views(cl@).take(t as int), tg@, cv, base);
                }
                let name = c.clone();
                let mut counts: Vec<u64> = vec![0, 0, 0, 0];
                assert(counts@ =~= seq![0u64, 0, 0, 0]);
                counts.set(tag, 1);
                em.push((name, counts));
                proof {
                    assert(em@.map_values(|e: (String, Vec<u64>)| e.0@) =~= keys.push(cv));
                    assert forall|j: int| 0 <= j < em@.len() implies (#[trigger] em@[j]).1@.len()
                        == 4 && forall|s: int|
                        0 <= s < 4 ==> #[trigger] em@[j].1@[s] == emit_count(done, em@[j].0@, s)
                            + tag_count(views(cl@).take(t + 1), tg@, em@[j].0@, s) by {
                        assert forall|s: int| 0 <= s < 4 implies #[trigger] em@[j].1@[s]
                            == emit_count(done, em@[j].0@, s) + tag_count(
                            views(cl@).take(t + 1),
                            tg@,
                            em@[j].0@,
                            s,
                        ) by {
                            lemma_tag_step(views(cl@), tg@, t as int, em@[j].0@, s);
                            if j < old_em.len() {
                                assert(em@[j] == old_em[j]);
                                assert(keys[j] != cv) by {
                                    assert(keys.contains(keys[j]));
                                }
                            }
                        }
                    }
                }
            }
            proof {
                seen = next;
            }
            t = t + 1;
        }
        proof {
            assert(views(cl@).take(n as int) =~= views(cl@));
            assert(tg@.take(n as int) =~= tg@);
            assert(seen =~= runs_clusters(rs.take(ri + 1)));
            assert forall|k: int| 0 <= k < ri + 1 implies (#[trigger] rs.take(ri + 1)[k]).1.len()
                == rs.take(ri + 1)[k].0.len() && valid_tags(rs.take(ri + 1)[k].1) by {
                assert(rs.take(ri + 1)[k] == rs[k]);
            }
        }
        ri = ri + 1;
    }
    assert(rs.take(ri as int) =~= rs);
    let mut emit: Vec<(String, [u64; 4])> = Vec::new();
    let mut k: usize = 0;
    while k < em.len()
        invariant
            k <= em@.len(),
            emit@.len() == k,
            forall|j: int|
                0 <= j < k ==> (#[trigger] emit@[j]).0@ == em@[j].0@ && emit@[j].1@ == em@[j].1@,
            forall|j: int| 0 <= j < em@.len() ==> (#[trigger] em@[j]).1@.len() == 4,
        decreases em.len() - k,
    {
        let name = em[k].0.clone();
        let counts = to_array(&em[k].1);
        emit.push((name, counts));
        k = k + 1;
    }
    let start = to_array(&st);
    let t0 = [tr[0], tr[1], tr[2], tr[3]];
    let t1 = [tr[4], tr[5], tr[6], tr[7]];
    let t2 = [tr[8], tr[9], tr[10], tr[11]];
    let t3 = [tr[12], tr[13], tr[14], tr[15]];
    let trans = [t0, t1, t2, t3];
    let c = HmmCounts { start, trans, emit };
    proof {
        assert(emit_keys(c) =~= em@.map_values(|e: (String, Vec<u64>)| e.0@));
        assert forall|a: int, b: int| 0 <= a < 4 && 0 <= b < 4 implies #[trigger] c.trans@[a]@[b]
            == trans_count(rs, a, b) by {
            assert(c.trans@[a]@[b] == tr@[a * 4 + b]);
        }
    }
    c
}


/// The gold sentences of a list of examples.
pub open spec fn gold_sentences(exs: Seq<(Seq<char>, Seq<Seq<char>>)>) -> Seq<Seq<Seq<char>>> {
    exs.map_values(|e: (Seq<char>, Seq<Seq<char>>)| e.1)
}

/// The number of characters of the words of a list of sentences.
pub open spec fn corpus_chars(ss: Seq<Seq<Seq<char>>>) -> nat
    decreases ss.len(),
{
    if ss.len() == 0 {
        0
    } else {
        corpus_chars(ss.drop_last()) + word_chars(ss.last())
    }
}

proof fn lemma_total_sizes(rs: Seq<TaggedRun>)
    ensures
        runs_total(rs) == run_sizes(rs),
    decreases rs.len(),
{
    if rs.len() > 0 {
        lemma_total_sizes(rs.drop_last());
        assert(rs.drop_last() + seq![rs.last()] =~= rs);
        lemma_run_sizes_append(rs.drop_last(), seq![rs.last()]);
        let one: Seq<TaggedRun> = seq![rs.last()];
        assert(one.drop_first() =~= Seq::<TaggedRun>::empty());
        assert(run_sizes(one.drop_first()) == 0);
    }
}

proof fn lemma_corpus_runs(ss: Seq<Seq<Seq<char>>>, mode: RunWords)
    ensures
        run_sizes(corpus_runs(ss, mode)) <= corpus_chars(ss),
        well_tagged(corpus_runs(ss, mode)),
    decreases ss.len(),
{
    if ss.len() > 0 {
        lemma_corpus_runs(ss.drop_last(), mode);
        let a = corpus_runs(ss.drop_last(), mode);
        let b = sentence_runs(ss.last(), mode);
        lemma_run_sizes_append(a, b);
        lemma_sentence_runs_size(ss.last(), mode);
        assert forall|k: int| 0 <= k < (a + b).len() implies (#[trigger] (a + b)[k]).1.len()
            == (a + b)[k].0.len() && valid_tags((a + b)[k].1) by {
            if k < a.len() {
                assert((a + b)[k] == a[k]);
            } else {
                assert((a + b)[k] == b[k - a.len()]);
                lemma_sentence_runs_tagged(ss.last(), mode, k - a.len());
            }
        }
    }
}

/// Whether a gold word is Khmer (starts with a Khmer-block character).
pub fn is_khmer_word(word: &str) -> (b: bool)
    ensures
        b == run_word(word@, RunWords::KhmerScript),
{
    continues_run(word, RunWords::KhmerScript)
}

/// Split each example's gold words into maximal runs of consecutive Khmer
/// words, tagging every word's clusters. A run breaks at any word that is
/// not Khmer: Latin, digits, punctuation.
pub fn extract_khmer_runs(examples: &[Example]) -> (runs: Vec<(Vec<String>, Vec<usize>)>)
    ensures
        run_views(runs@) == corpus_runs(
            gold_sentences(example_views(examples@)),
            RunWords::KhmerScript,
        ),
{
    let ghost ss = gold_sentences(example_views(examples@));
    let mut runs: Vec<(Vec<String>, Vec<usize>)> = Vec::new();
    let mut i: usize = 0;
    while i < examples.len()
        invariant
            i <= examples@.len(),
            ss == gold_sentences(example_views(examples@)),
            run_views(runs@) == corpus_runs(ss.take(i as int), RunWords::KhmerScript),
        decreases examples.len() - i,
    {
        sentence_runs_into(&examples[i].gold_tokens, RunWords::KhmerScript, &mut runs);
        proof {
            assert(ss.take(i + 1).drop_last() =~= ss.take(i as int));
            assert(ss.take(i + 1).last() == views(examples@[i as int].gold_tokens@));
        }
        i = i + 1;
    }
    assert(ss.take(i as int) =~= ss);
    runs
}

/// Count BMES start, transition and emission statistics over the Khmer
/// runs of `examples`.
pub fn train_hmm(examples: &[Example]) -> (c: HmmCounts)
    requires
        corpus_chars(gold_sentences(example_views(examples@))) <= u64::MAX,
    ensures
        counts_of(c, corpus_runs(gold_sentences(example_views(examples@)), RunWords::KhmerScript)),
{
    let runs = extract_khmer_runs(examples);
    proof {
        let rs = run_views(runs@);
        lemma_corpus_runs(gold_sentences(example_views(examples@)), RunWords::KhmerScript);
        lemma_total_sizes(rs);
    }
    count_runs(&runs)
}

} // verus!
