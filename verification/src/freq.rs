//! Word-frequency counting over gold-segmented examples, for the
//! probabilistic strategy.

use vstd::prelude::*;
use crate::corpus::{Example, example_view, example_views};
use crate::text::{views, str_eq};
use crate::wordlist::{dedup_first, occurrences, lemma_dedup_first, lemma_occurrences_bound};

verus! {

/// The gold words of a list of examples, example after example.
pub open spec fn gold_words(exs: Seq<(Seq<char>, Seq<Seq<char>>)>) -> Seq<Seq<char>>
    decreases exs.len(),
{
    if exs.len() == 0 {
        Seq::empty()
    } else {
        gold_words(exs.drop_last()) + exs.last().1
    }
}

proof fn lemma_gold_words_prefix(exs: Seq<(Seq<char>, Seq<Seq<char>>)>, e: int)
    requires
        0 <= e <= exs.len(),
    ensures
        gold_words(exs.take(e)).len() <= gold_words(exs).len(),
    decreases exs.len() - e,
{
    if e < exs.len() {
        lemma_gold_words_prefix(exs, e + 1);
        assert(exs.take(e + 1).drop_last() =~= exs.take(e));
    } else {
        assert(exs.take(e) =~= exs);
    }
}

proof fn lemma_occurrences_absent<T>(s: Seq<T>, x: T)
    requires
        !s.contains(x),
    ensures
        occurrences(s, x) == 0,
    decreases s.len(),
{
    if s.len() > 0 {
        assert(s.last() != x) by {
            if s.last() == x {
                assert(s[s.len() - 1] == x);
            }
        }
        assert forall|y: T| s.drop_last().contains(y) implies s.contains(y) by {
            let k = s.drop_last().index_of(y);
            assert(s[k] == y);
        }
        lemma_occurrences_absent(s.drop_last(), x);
    }
}

/// How often each word occurs, in order of first occurrence.
pub struct Frequencies {
    entries: Vec<(String, u64)>,
}

/// The frequency expected of `w` in `all`: its number of occurrences, or
/// nothing if it never occurs.
pub open spec fn frequency(all: Seq<Seq<char>>, w: Seq<char>) -> Option<u64> {
    if all.contains(w) {
        Some(occurrences(all, w) as u64)
    } else {
        None
    }
}

impl Frequencies {
    /// The counted words, in order of first occurrence.
    pub closed spec fn words(&self) -> Seq<Seq<char>> {
        self.entries@.map_values(|e: (String, u64)| e.0@)
    }

    /// The count of the `k`-th word.
    pub closed spec fn count_at(&self, k: int) -> u64 {
        self.entries@[k].1
    }

    /// No word is counted twice.
    pub closed spec fn wf(&self) -> bool {
        self.words().no_duplicates()
    }

    /// The count of `w`, if it was seen.
    pub open spec fn count_of(&self, w: Seq<char>) -> Option<u64> {
        if self.words().contains(w) {
            Some(self.count_at(self.words().index_of(w)))
        } else {
            None
        }
    }

    fn find(&self, word: &str) -> (r: Option<usize>)
        ensures
            match r {
                Some(k) => k < self.words().len() && self.words()[k as int] == word@,
                None => !self.words().contains(word@),
            },
    {
        let mut k: usize = 0;
        while k < self.entries.len()
            invariant
                k <= self.entries@.len(),
                forall|j: int| 0 <= j < k ==> self.words()[j] != word@,
            decreases self.entries.len() - k,
        {
            if str_eq(self.entries[k].0.as_str(), word) {
                return Some(k);
            }
            k = k + 1;
        }
        proof {
            if self.words().contains(word@) {
                let j = self.words().index_of(word@);
                assert(self.words()[j] == word@);
            }
        }
        None
    }

    /// The count of `word`, or `None` if it never occurred.
    pub fn get(&self, word: &str) -> (r: Option<u64>)
        requires
            self.wf(),
        ensures
            r == self.count_of(word@),
    {
        match self.find(word) {
            Some(k) => {
                proof {
                    let ws = self.words();
                    assert(ws.contains(word@));
                    let j = ws.index_of(word@);
                    assert(ws[j] == word@);
                    assert(j == k as int) by {
                        if j != k as int {
                            assert(ws[j] == ws[k as int]);
                        }
                    }
                }
                Some(self.entries[k].1)
            },
            None => None,
        }
    }

    /// The number of distinct words.
    pub fn len(&self) -> (n: usize)
        ensures
            n == self.words().len(),
    {
        self.entries.len()
    }

    /// The word-count pairs, in order of first occurrence.
    pub fn to_vec(&self) -> (v: Vec<(String, u64)>)
        ensures
            v@.len() == self.words().len(),
            forall|k: int|
                0 <= k < v@.len() ==> (#[trigger] v@[k]).0@ == self.words()[k] && v@[k].1
                    == self.count_at(k),
    {
        let mut v: Vec<(String, u64)> = Vec::new();
        let mut k: usize = 0;
        while k < self.entries.len()
            invariant
                k <= self.entries@.len(),
                v@.len() == k,
                forall|j: int|
                    0 <= j < k ==> (#[trigger] v@[j]).0@ == self.words()[j] && v@[j].1
                        == self.count_at(j),
            decreases self.entries.len() - k,
        {
            let name = self.entries[k].0.clone();
            v.push((name, self.entries[k].1));
            k = k + 1;
        }
        v
    }
}

/// Count how many times each gold word occurs across `examples`.
pub fn count_frequencies(examples: &[Example]) -> (f: Frequencies)
    requires
        gold_words(example_views(examples@)).len() <= u64::MAX,
    ensures
        f.wf(),
        f.words() == dedup_first(gold_words(example_views(examples@))),
        forall|w: Seq<char>| #[trigger]
            f.count_of(w) == frequency(gold_words(example_views(examples@)), w),
{
    let ghost exs = example_views(examples@);
    let ghost all = gold_words(exs);
    let mut f = Frequencies { entries: Vec::new() };
    let ghost mut seen: Seq<Seq<char>> = Seq::empty();
    let mut e: usize = 0;
    assert(f.words() =~= dedup_first(seen));
    while e < examples.len()
        invariant
            e <= examples@.len(),
            exs == example_views(examples@),
            all == gold_words(exs),
            all.len() <= u64::MAX,
            seen == gold_words(exs.take(e as int)),
            f.words() == dedup_first(seen),
            forall|k: int| 0 <= k < f.words().len() ==> #[trigger] f.count_at(k) == occurrences(
                seen,
                f.words()[k],
            ),
        decreases examples.len() - e,
    {
        let golds = &examples[e].gold_tokens;
        let ghost base = seen;
        proof {
            lemma_gold_words_prefix(exs, e + 1);
            assert(exs.take(e + 1).drop_last() =~= exs.take(e as int));
            assert(exs[e as int] == example_view(examples@[e as int]));
        }
        let mut j: usize = 0;
        assert(base + views(golds@).take(0) =~= base);
        while j < golds.len()
            invariant
                e < examples@.len(),
                golds == &examples@[e as int].gold_tokens,
                j <= golds@.len(),
                all.len() <= u64::MAX,
                base.len() + golds@.len() <= all.len(),
                seen == base + views(golds@).take(j as int),
                f.words() == dedup_first(seen),
                forall|k: int|
                    0 <= k < f.words().len() ==> #[trigger] f.count_at(k) == occurrences(
                        seen,
                        f.words()[k],
                    ),
            decreases golds.len() - j,
        {
            let w = golds[j].as_str();
            let ghost next = seen.push(w@);
            proof {
                lemma_dedup_first(seen);
                assert(next.drop_last() =~= seen);
                assert(next.last() == w@);
                assert(views(golds@).take(j + 1) =~= views(golds@).take(j as int).push(w@));
                assert(next =~= base + views(golds@).take(j + 1));
                lemma_occurrences_bound(next, w@);
            }
            match f.find(w) {
                Some(k) => {
                    let c = f.entries[k].1;
                    proof {
                        assert(f.count_at(k as int) == occurrences(seen, w@));
                    }
                    let name = f.entries[k].0.clone();
                    let ghost old_words = f.words();
                    let ghost old_f = f.entries@;
                    assert(forall|i: int|
                        0 <= i < old_words.len() ==> old_f[i].1 == occurrences(seen, old_words[i]))
                        by {
                        assert forall|i: int| 0 <= i < old_words.len() implies old_f[i].1
                            == occurrences(seen, old_words[i]) by {
                            assert(f.count_at(i) == occurrences(seen, f.words()[i]));
                        }
                    }
                    f.entries.set(k, (name, c + 1));
                    proof {
                        assert(f.words() =~= old_words);
                        assert(seen.contains(w@)) by {
                            assert(old_words[k as int] == w@);
                        }
                        assert forall|i: int| 0 <= i < f.words().len() implies #[trigger] f.count_at(
                            i,
                        ) == occurrences(next, f.words()[i]) by {
                            if i != k {
                                assert(f.count_at(i) == old_f[i].1);
                            }
                        }
                    }
                },
                None => {
                    let name = w.to_string();
                    let ghost old_words = f.words();
                    let ghost old_f = f.entries@;
                    assert(forall|i: int|
                        0 <= i < old_words.len() ==> old_f[i].1 == occurrences(seen, old_words[i]))
                        by {
                        assert forall|i: int| 0 <= i < old_words.len() implies old_f[i].1
                            == occurrences(seen, old_words[i]) by {
                            assert(f.count_at(i) == occurrences(seen, f.words()[i]));
                        }
                    }
                    f.entries.push((name, 1));
                    proof {
                        assert(!seen.contains(w@));
                        lemma_occurrences_absent(seen, w@);
                        assert(f.words() =~= old_words.push(w@));
                        assert forall|i: int| 0 <= i < f.words().len() implies #[trigger] f.count_at(
                            i,
                        ) == occurrences(next, f.words()[i]) by {
                            if i < old_words.len() {
                                assert(f.count_at(i) == old_f[i].1);
                                assert(old_words[i] != w@) by {
                                    assert(old_words.contains(old_words[i]));
                                }
                            }
                        }
                    }
                },
            }
            proof {
                seen = next;
            }
            j = j + 1;
        }
        proof {
            assert(views(golds@).take(j as int) =~= views(golds@));
            assert(exs.take(e + 1).last() == exs[e as int]);
        }
        e = e + 1;
    }
    proof {
        assert(exs.take(e as int) =~= exs);
        lemma_dedup_first(all);
        assert forall|w: Seq<char>| #[trigger] f.count_of(w) == frequency(all, w) by {
            if all.contains(w) {
                let k = f.words().index_of(w);
                lemma_occurrences_bound(all, w);
                assert(f.count_at(k) == occurrences(all, w));
            }
        }
    }
    f
}

} // verus!
