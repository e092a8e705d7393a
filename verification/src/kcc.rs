//! Khmer Character Cluster (KCC) splitting.
//!
//! Written Khmer has no spaces between words and uses an abugida script: a
//! base consonant can carry stacked subscript consonants (each introduced by
//! COENG, `U+17D2`) plus dependent vowels and signs. The smallest meaningful
//! unit for word segmentation is therefore the orthographic cluster, not the
//! Unicode scalar value. Splitting into clusters first is what keeps the
//! segmenter from ever cutting a base character away from its subscripts or
//! vowels.

use vstd::prelude::*;
use crate::text::{str_chars, string_of, views};

verus! {

/// `U+17D2` KHMER SIGN COENG: joins a following consonant as a subscript.
pub const COENG: char = '\u{17D2}';

/// `U+17CC` KHMER SIGN ROBAT: the one combining mark that legitimately
/// precedes a COENG+consonant subscript pair.
pub const ROBAT: char = '\u{17CC}';

/// A Khmer letter base: consonants `U+1780..=U+17A2` and independent vowels
/// `U+17A3..=U+17B3`.
pub open spec fn khmer_base(c: char) -> bool {
    0x1780 <= c as u32 && c as u32 <= 0x17B3
}

/// A Khmer digit `U+17E0..=U+17E9` or divination-lore numeral
/// `U+17F0..=U+17F9`.
pub open spec fn khmer_digit(c: char) -> bool {
    (0x17E0 <= c as u32 && c as u32 <= 0x17E9) || (0x17F0 <= c as u32 && c as u32 <= 0x17F9)
}

/// Dependent vowels, signs and diacritics that attach to a base, plus the
/// zero-width joiners that may appear inside a cluster.
pub open spec fn khmer_combining(c: char) -> bool {
    let o = c as u32;
    (0x17B4 <= o && o <= 0x17D1) || o == 0x17D3 || o == 0x17DD || (0x200C <= o && o <= 0x200D)
}

/// Anywhere in the Khmer block `U+1780..=U+17FF`.
pub open spec fn khmer(c: char) -> bool {
    0x1780 <= c as u32 && c as u32 <= 0x17FF
}

/// A Khmer letter base. Khmer digits, punctuation and the currency sign are
/// in the Khmer block but are not bases and never start a word cluster.
pub fn is_khmer_base(c: char) -> (b: bool)
    ensures
        b == khmer_base(c),
{
    0x1780 <= c as u32 && c as u32 <= 0x17B3
}

/// A Khmer digit or divination-lore numeral.
pub fn is_khmer_digit(c: char) -> (b: bool)
    ensures
        b == khmer_digit(c),
{
    (0x17E0 <= c as u32 && c as u32 <= 0x17E9) || (0x17F0 <= c as u32 && c as u32 <= 0x17F9)
}

/// A combining mark or zero-width joiner that stays inside a cluster.
pub fn is_khmer_combining(c: char) -> (b: bool)
    ensures
        b == khmer_combining(c),
{
    let o = c as u32;
    (0x17B4 <= o && o <= 0x17D1) || o == 0x17D3 || o == 0x17DD || (0x200C <= o && o <= 0x200D)
}

/// True if `c` falls anywhere in the Khmer Unicode block.
pub fn is_khmer(c: char) -> (b: bool)
    ensures
        b == khmer(c),
{
    0x1780 <= c as u32 && c as u32 <= 0x17FF
}

/// Where the marks attached to a base end, scanning from `j`: each COENG
/// takes the following base along only when one follows; combining marks
/// are absorbed; anything else ends the cluster.
pub open spec fn attach_end(s: Seq<char>, j: int) -> int
    decreases s.len() - j,
{
    if j >= s.len() {
        s.len() as int
    } else if s[j] == COENG {
        if j + 1 < s.len() && khmer_base(s[j + 1]) {
            attach_end(s, j + 2)
        } else {
            attach_end(s, j + 1)
        }
    } else if khmer_combining(s[j]) {
        attach_end(s, j + 1)
    } else {
        j
    }
}

/// Where the cluster starting at `i` ends: a base with its attachments, or
/// a single non-base character.
pub open spec fn cluster_end(s: Seq<char>, i: int) -> int {
    if khmer_base(s[i]) {
        attach_end(s, i + 1)
    } else {
        i + 1
    }
}

pub proof fn lemma_attach_end_bounds(s: Seq<char>, j: int)
    requires
        0 <= j <= s.len(),
    ensures
        j <= attach_end(s, j) <= s.len(),
    decreases s.len() - j,
{
    if j < s.len() {
        if s[j] == COENG {
            if j + 1 < s.len() && khmer_base(s[j + 1]) {
                lemma_attach_end_bounds(s, j + 2);
            } else {
                lemma_attach_end_bounds(s, j + 1);
            }
        } else if khmer_combining(s[j]) {
            lemma_attach_end_bounds(s, j + 1);
        }
    }
}

pub proof fn lemma_cluster_end_bounds(s: Seq<char>, i: int)
    requires
        0 <= i < s.len(),
    ensures
        i < cluster_end(s, i) <= s.len(),
{
    if khmer_base(s[i]) {
        lemma_attach_end_bounds(s, i + 1);
    }
}

/// The clusters of `s[i..]`, in order.
pub open spec fn clusters_from(s: Seq<char>, i: int) -> Seq<Seq<char>>
    decreases s.len() - i,
{
    if i < 0 || i >= s.len() {
        Seq::empty()
    } else {
        let e = cluster_end(s, i);
        proof {
            lemma_cluster_end_bounds(s, i);
        }
        seq![s.subrange(i, e)] + clusters_from(s, e)
    }
}

/// The Khmer Character Clusters of `s`.
pub open spec fn kcc(s: Seq<char>) -> Seq<Seq<char>> {
    clusters_from(s, 0)
}

/// Split a character sequence into clusters (see [`split_kcc`]).
pub fn split_kcc_chars(chars: &[char]) -> (clusters: Vec<String>)
    ensures
        views(clusters@) == kcc(chars@),
{
    let n = chars.len();
    let mut clusters: Vec<String> = Vec::new();
    let mut i: usize = 0;
    while i < n
        invariant
            n == chars.len(),
            i <= n,
            views(clusters@) + clusters_from(chars@, i as int) == kcc(chars@),
        decreases n - i,
    {
        let c = chars[i];
        let start = i;
        proof {
            lemma_cluster_end_bounds(chars@, i as int);
        }
        if is_khmer_base(c) {
            i = i + 1;
            while i < n
                invariant
                    n == chars.len(),
                    start < i <= n,
                    khmer_base(chars@[start as int]),
                    attach_end(chars@, i as int) == cluster_end(chars@, start as int),
                ensures
                    start < i <= n,
                    attach_end(chars@, i as int) == cluster_end(chars@, start as int),
                    attach_end(chars@, i as int) == i as int,
                decreases n - i,
            {
                let d = chars[i];
                if d == COENG {
                    if i + 1 < n && is_khmer_base(chars[i + 1]) {
                        i = i + 2;
                    } else {
                        i = i + 1;
                    }
                } else if is_khmer_combining(d) {
                    i = i + 1;
                } else {
                    break;
                }
            }
        } else {
            i = i + 1;
        }
        assert(i as int == cluster_end(chars@, start as int));
        let mut piece: Vec<char> = Vec::new();
        let mut k = start;
        while k < i
            invariant
                start <= k <= i <= n,
                n == chars.len(),
                piece@ == chars@.subrange(start as int, k as int),
            decreases i - k,
        {
            piece.push(chars[k]);
            k = k + 1;
            assert(piece@ =~= chars@.subrange(start as int, k as int));
        }
        let s = string_of(piece.as_slice());
        let ghost before = views(clusters@);
        clusters.push(s);
        assert(views(clusters@) =~= before.push(chars@.subrange(start as int, i as int)));
        assert(clusters_from(chars@, start as int) =~= seq![
            chars@.subrange(start as int, i as int),
        ] + clusters_from(chars@, i as int));
        assert(views(clusters@) + clusters_from(chars@, i as int) =~= before + clusters_from(
            chars@,
            start as int,
        ));
    }
    assert(clusters_from(chars@, i as int) =~= Seq::<Seq<char>>::empty());
    assert(views(clusters@) =~= views(clusters@) + clusters_from(chars@, i as int));
    clusters
}

/// Split `text` into Khmer Character Clusters.
///
/// Each Khmer cluster is a base character followed by any number of
/// COENG+consonant subscripts and combining marks. A COENG with no base
/// after it stays with its own base and leaves the next character alone.
/// Non-Khmer scalars (spaces, Latin letters, digits, punctuation) are
/// returned as individual single-character clusters.
pub fn split_kcc(text: &str) -> (clusters: Vec<String>)
    ensures
        views(clusters@) == kcc(text@),
{
    let chars = str_chars(text);
    split_kcc_chars(chars.as_slice())
}

// ---------------------------------------------------------------------------
// Laws
// ---------------------------------------------------------------------------

proof fn lemma_clusters_from_rejoin(s: Seq<char>, i: int)
    requires
        0 <= i <= s.len(),
    ensures
        clusters_from(s, i).flatten() == s.subrange(i, s.len() as int),
        forall|k: int|
            0 <= k < clusters_from(s, i).len() ==> #[trigger] clusters_from(s, i)[k].len() > 0,
    decreases s.len() - i,
{
    if i >= s.len() {
        assert(s.subrange(i, s.len() as int) =~= Seq::<char>::empty());
    } else {
        let e = cluster_end(s, i);
        lemma_cluster_end_bounds(s, i);
        lemma_clusters_from_rejoin(s, e);
        let rest = clusters_from(s, e);
        let all = clusters_from(s, i);
        assert(all =~= seq![s.subrange(i, e)] + rest);
        assert(all.drop_first() =~= rest);
        assert(all.flatten() == s.subrange(i, e) + rest.flatten());
        assert(s.subrange(i, s.len() as int) =~= s.subrange(i, e) + s.subrange(e, s.len() as int));
        assert forall|k: int| 0 <= k < all.len() implies #[trigger] all[k].len() > 0 by {
            if k > 0 {
                assert(all[k] == rest[k - 1]);
            }
        }
    }
}

/// Splitting loses, adds and reorders nothing: the clusters of any text
/// concatenate back to exactly that text, and no cluster is empty.
pub proof fn law_clusters_rejoin(s: Seq<char>)
    ensures
        kcc(s).flatten() == s,
        forall|k: int| 0 <= k < kcc(s).len() ==> #[trigger] kcc(s)[k].len() > 0,
{
    lemma_clusters_from_rejoin(s, 0);
    assert(s.subrange(0, s.len() as int) =~= s);
}


/// A character that can follow a base inside a cluster.
pub open spec fn attached(c: char) -> bool {
    c == COENG || khmer_base(c) || khmer_combining(c)
}

proof fn lemma_attach_chars(s: Seq<char>, j: int)
    requires
        0 <= j <= s.len(),
    ensures
        forall|m: int| j <= m < attach_end(s, j) ==> attached(#[trigger] s[m]),
    decreases s.len() - j,
{
    if j < s.len() {
        if s[j] == COENG {
            if j + 1 < s.len() && khmer_base(s[j + 1]) {
                lemma_attach_chars(s, j + 2);
            } else {
                lemma_attach_chars(s, j + 1);
            }
        } else if khmer_combining(s[j]) {
            lemma_attach_chars(s, j + 1);
        }
    }
}

/// The shape of a cluster: a single character, or a base followed by
/// characters that attach to it.
pub open spec fn cluster_shaped(c: Seq<char>) -> bool {
    c.len() == 1 || (c.len() > 1 && khmer_base(c[0]) && forall|m: int|
        1 <= m < c.len() ==> attached(#[trigger] c[m]))
}

proof fn lemma_clusters_from_shape(s: Seq<char>, i: int)
    requires
        0 <= i <= s.len(),
    ensures
        forall|k: int|
            0 <= k < clusters_from(s, i).len() ==> cluster_shaped(#[trigger] clusters_from(s, i)[k]),
    decreases s.len() - i,
{
    if i < s.len() {
        lemma_cluster_end_bounds(s, i);
        let e = cluster_end(s, i);
        let c = s.subrange(i, e);
        lemma_clusters_from_shape(s, e);
        if khmer_base(s[i]) {
            lemma_attach_chars(s, i + 1);
            assert forall|m: int| 1 <= m < c.len() implies attached(#[trigger] c[m]) by {
                assert(c[m] == s[i + m]);
            }
        }
        let all = seq![c] + clusters_from(s, e);
        assert forall|k: int| 0 <= k < all.len() implies cluster_shaped(#[trigger] all[k]) by {
            if k > 0 {
                assert(all[k] == clusters_from(s, e)[k - 1]);
            }
        }
    }
}

/// Every cluster is a single character, or a base with characters that
/// attach to it.
pub proof fn lemma_kcc_shape(s: Seq<char>)
    ensures
        forall|k: int| 0 <= k < kcc(s).len() ==> cluster_shaped(#[trigger] kcc(s)[k]),
{
    lemma_clusters_from_shape(s, 0);
}


/// A character that belongs to the cluster of the base before it: COENG,
/// the combining marks `U+17B4..=U+17D1`, `U+17D3`, `U+17DD`, and the
/// zero-width non-joiner and joiner.
pub open spec fn follows_a_base(c: char) -> bool {
    let u = c as u32;
    c == COENG || (0x17B4 <= u && u <= 0x17D1) || u == 0x17D3 || u == 0x17DD || u == 0x200C
        || u == 0x200D
}

proof fn lemma_attach_stop(s: Seq<char>, j: int)
    requires
        0 <= j <= s.len(),
    ensures
        attach_end(s, j) < s.len() ==> !follows_a_base(s[attach_end(s, j)]),
    decreases s.len() - j,
{
    if j < s.len() {
        if s[j] == COENG {
            if j + 1 < s.len() && khmer_base(s[j + 1]) {
                lemma_attach_stop(s, j + 2);
            } else {
                lemma_attach_stop(s, j + 1);
            }
        } else if khmer_combining(s[j]) {
            lemma_attach_stop(s, j + 1);
        }
    }
}

proof fn lemma_next_cluster(s: Seq<char>, i: int)
    requires
        0 <= i <= s.len(),
    ensures
        forall|k: int|
            0 <= k < clusters_from(s, i).len() - 1 && 0x1780 <= (#[trigger] clusters_from(
                s,
                i,
            )[k])[0] as u32 <= 0x17B3 ==> !follows_a_base(clusters_from(s, i)[k + 1][0]),
    decreases s.len() - i,
{
    if i < s.len() {
        lemma_cluster_end_bounds(s, i);
        let e = cluster_end(s, i);
        let rest = clusters_from(s, e);
        let all = clusters_from(s, i);
        lemma_next_cluster(s, e);
        lemma_clusters_from_rejoin(s, e);
        assert(all == seq![s.subrange(i, e)] + rest);
        assert forall|k: int|
            0 <= k < all.len() - 1 && 0x1780 <= (#[trigger] all[k])[0] as u32 <= 0x17B3 implies
            !follows_a_base(all[k + 1][0]) by {
            if k == 0 {
                assert(all[0][0] == s[i]);
                lemma_attach_stop(s, i + 1);
                assert(rest.len() > 0);
                assert(e < s.len());
                assert(rest[0] == s.subrange(e, cluster_end(s, e)));
                lemma_cluster_end_bounds(s, e);
                assert(all[1][0] == s[e]);
            } else {
                assert(all[k] == rest[k - 1]);
                assert(all[k + 1] == rest[k]);
            }
        }
    }
}

/// Marks stay with their base: the cluster after one that starts with a
/// base (`U+1780..=U+17B3`) never starts with COENG, a combining mark
/// (`U+17B4..=U+17D1`, `U+17D3`, `U+17DD`) or a zero-width joiner; every
/// such character after a base is part of that base's cluster.
pub proof fn law_marks_stay_with_their_base(s: Seq<char>)
    ensures
        forall|k: int|
            0 <= k < kcc(s).len() - 1 && 0x1780 <= (#[trigger] kcc(s)[k])[0] as u32 <= 0x17B3
                ==> !follows_a_base(kcc(s)[k + 1][0]),
{
    lemma_next_cluster(s, 0);
}

} // verus!
