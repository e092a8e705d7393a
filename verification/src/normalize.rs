//! Orthographic normalization: canonicalizes well-documented, real-world
//! Khmer Unicode encoding errors before segmentation, so messy input matches
//! the same dictionary entries as canonically-encoded text.
//!
//! Per the Unicode Khmer syllable structure, a base is followed by, in
//! order: an optional Robat, the subscript stack (one or more
//! COENG+consonant pairs), an optional shifter, a dependent vowel, then
//! other signs. Four corruptions of that order are repaired, all by
//! character reordering (never insertion or deletion):
//!
//! 1. A mark typed before a COENG pair moves after the pair.
//! 2. A mark stranded between COENG and its consonant moves past the
//!    consonant (the damage NFC itself inflicts on Khmer).
//! 3. A subscript RO typed before another subscript is rotated behind it
//!    (`COENG RO COENG C` becomes `COENG C COENG RO`).
//! 4. Adjacent marks out of class order (shifter < vowel < sign) are
//!    swapped back.
//!
//! Robat and the zero-width joiners are never moved. The rules are applied
//! in sweeps until a sweep changes nothing.

use vstd::prelude::*;
use crate::kcc::{khmer_base, khmer_combining, is_khmer_base, is_khmer_combining, COENG, ROBAT};
use crate::text::{str_chars, string_of};
use vstd::utf8::encode_utf8;

verus! {

/// `U+179A` KHMER LETTER RO: its subscript form is written last in a
/// subscript stack.
pub const RO: char = '\u{179A}';

/// A mark the reordering rules may move: a Khmer combining mark that is not
/// COENG, not Robat, and not a zero-width joiner.
pub open spec fn reorderable(c: char) -> bool {
    khmer_combining(c) && c != COENG && c != ROBAT && !(0x200C <= c as u32 && c as u32 <= 0x200D)
}

/// Canonical within-cluster order class for rule 4: register shifters (0)
/// before dependent vowels (1) before final signs (2); `None` for anything
/// rule 4 never reorders.
pub open spec fn mark_rank(c: char) -> Option<u8> {
    let u = c as u32;
    if u == 0x17C9 || u == 0x17CA {
        Some(0u8)
    } else if 0x17B6 <= u && u <= 0x17C5 {
        Some(1u8)
    } else if 0x17C6 <= u && u <= 0x17C8 {
        Some(2u8)
    } else if u == 0x17CB || (0x17CD <= u && u <= 0x17D1) {
        Some(2u8)
    } else if u == 0x17D3 || u == 0x17DD {
        Some(2u8)
    } else {
        None
    }
}

/// Whether the reordering rules may move `c`.
pub fn is_reorderable_mark(c: char) -> (b: bool)
    ensures
        b == reorderable(c),
{
    is_khmer_combining(c) && c != COENG && c != ROBAT && !(0x200C <= c as u32 && c as u32
        <= 0x200D)
}

/// The rule-4 order class of `c`.
pub fn mark_class(c: char) -> (r: Option<u8>)
    ensures
        r == mark_rank(c),
{
    let u = c as u32;
    if u == 0x17C9 || u == 0x17CA {
        Some(0u8)
    } else if 0x17B6 <= u && u <= 0x17C5 {
        Some(1u8)
    } else if 0x17C6 <= u && u <= 0x17C8 {
        Some(2u8)
    } else if u == 0x17CB || (0x17CD <= u && u <= 0x17D1) {
        Some(2u8)
    } else if u == 0x17D3 || u == 0x17DD {
        Some(2u8)
    } else {
        None
    }
}

// ---------------------------------------------------------------------------
// The rewriting, as a function on character sequences
// ---------------------------------------------------------------------------

/// Rules 1-3 at position `i` (the first that applies), and whether one did:
/// rule 1 moves a mark typed before a COENG+consonant pair to follow the
/// pair; rule 2 moves a mark stranded between COENG and its consonant past
/// the consonant; rule 3 puts a subscript RO behind a following subscript.
pub open spec fn rule_at(s: Seq<char>, i: int) -> (Seq<char>, bool) {
    if 0 <= i && i + 2 < s.len() && reorderable(s[i]) && s[i + 1] == COENG
        && khmer_base(s[i + 2]) {
        (s.update(i, s[i + 1]).update(i + 1, s[i + 2]).update(i + 2, s[i]), true)
    } else if 0 <= i && i + 2 < s.len() && s[i] == COENG && reorderable(s[i + 1]) && khmer_base(
        s[i + 2],
    ) {
        (s.update(i + 1, s[i + 2]).update(i + 2, s[i + 1]), true)
    } else if 0 <= i && i + 3 < s.len() && s[i] == COENG && s[i + 1] == RO && s[i + 2] == COENG
        && khmer_base(s[i + 3]) && s[i + 3] != RO {
        (s.update(i, s[i + 2]).update(i + 1, s[i + 3]).update(i + 2, s[i]).update(i + 3, s[i + 1]), true)
    } else {
        (s, false)
    }
}

/// One left-to-right sweep of rules 1-3 from position `i`.
pub open spec fn sweep(s: Seq<char>, i: int) -> (Seq<char>, bool)
    decreases s.len() - i,
{
    if 0 <= i && i + 2 < s.len() {
        let r = rule_at(s, i);
        let w = sweep(r.0, i + 1);
        (w.0, r.1 || w.1)
    } else {
        (s, false)
    }
}

/// Rule 4 at position `i`: swap `s[i - 1]` and `s[i]` when both are
/// classed marks out of order.
pub open spec fn order_at(s: Seq<char>, i: int) -> (Seq<char>, bool) {
    if 1 <= i < s.len() && mark_rank(s[i - 1]) is Some && mark_rank(s[i]) is Some
        && mark_rank(s[i - 1]).unwrap() > mark_rank(s[i]).unwrap() {
        (s.update(i - 1, s[i]).update(i, s[i - 1]), true)
    } else {
        (s, false)
    }
}

/// One left-to-right sweep of rule 4 from position `i`.
pub open spec fn order_sweep(s: Seq<char>, i: int) -> (Seq<char>, bool)
    decreases s.len() - i,
{
    if 1 <= i < s.len() {
        let r = order_at(s, i);
        let w = order_sweep(r.0, i + 1);
        (w.0, r.1 || w.1)
    } else {
        (s, false)
    }
}

/// One full pass: a rules 1-3 sweep, then a rule 4 sweep; the flag says
/// whether any rule applied.
pub open spec fn pass(s: Seq<char>) -> (Seq<char>, bool) {
    let a = sweep(s, 0);
    let b = order_sweep(a.0, 1);
    (b.0, a.1 || b.1)
}

/// No rule applies anywhere in `s`.
pub open spec fn settled(s: Seq<char>) -> bool {
    !pass(s).1
}

/// The text after at most `k` passes, stopping early at a pass that
/// changes nothing.
pub open spec fn iterate(s: Seq<char>, k: nat) -> Seq<char>
    decreases k,
{
    if k == 0 {
        s
    } else if pass(s).1 {
        iterate(pass(s).0, (k - 1) as nat)
    } else {
        s
    }
}

/// `t` is what normalization makes of `s`: reached by repeated passes, and
/// settled.
pub open spec fn normal_form_of(s: Seq<char>, t: Seq<char>) -> bool {
    settled(t) && exists|k: nat| iterate(s, k) == t
}

/// The normal form of `s`: the text normalization makes of it.
pub open spec fn normal_form(s: Seq<char>) -> Seq<char> {
    choose|t: Seq<char>| normal_form_of(s, t)
}

// ---------------------------------------------------------------------------
// Termination measure: counts of out-of-order pairs
// ---------------------------------------------------------------------------

/// How many characters of `s` satisfy `p`.
pub open spec fn cnt(s: Seq<char>, p: spec_fn(char) -> bool) -> nat
    decreases s.len(),
{
    if s.len() == 0 {
        0
    } else {
        (if p(s[0]) {
            1nat
        } else {
            0nat
        }) + cnt(s.drop_first(), p)
    }
}

/// How many index pairs `a < b` have `p(s[a])` and `q(s[b])`.
pub open spec fn pairs(s: Seq<char>, p: spec_fn(char) -> bool, q: spec_fn(char) -> bool) -> nat
    decreases s.len(),
{
    if s.len() == 0 {
        0
    } else {
        (if p(s[0]) {
            cnt(s.drop_first(), q)
        } else {
            0nat
        }) + pairs(s.drop_first(), p, q)
    }
}

pub open spec fn is_mark() -> spec_fn(char) -> bool {
    |c: char| reorderable(c)
}

pub open spec fn not_mark() -> spec_fn(char) -> bool {
    |c: char| !reorderable(c)
}

pub open spec fn is_ro() -> spec_fn(char) -> bool {
    |c: char| c == RO
}

pub open spec fn passable() -> spec_fn(char) -> bool {
    |c: char| !reorderable(c) && c != RO
}

pub open spec fn rank_is(k: u8) -> spec_fn(char) -> bool {
    |c: char| mark_rank(c) == Some(k)
}

pub open spec fn rank_below_two() -> spec_fn(char) -> bool {
    |c: char| mark_rank(c) == Some(0u8) || mark_rank(c) == Some(1u8)
}

/// Marks before non-marks (rules 1 and 2 remove some).
pub open spec fn m_marks(s: Seq<char>) -> nat {
    pairs(s, is_mark(), not_mark())
}

/// Subscript RO before other non-marks (rule 3 removes some).
pub open spec fn m_ro(s: Seq<char>) -> nat {
    pairs(s, is_ro(), passable())
}

/// Classed marks out of class order (rule 4 removes one).
pub open spec fn m_order(s: Seq<char>) -> nat {
    pairs(s, rank_is(1u8), rank_is(0u8)) + pairs(s, rank_is(2u8), rank_below_two())
}

pub open spec fn lex_lt(a: (nat, nat, nat), b: (nat, nat, nat)) -> bool {
    a.0 < b.0 || (a.0 == b.0 && (a.1 < b.1 || (a.1 == b.1 && a.2 < b.2)))
}

pub open spec fn measure(s: Seq<char>) -> (nat, nat, nat) {
    (m_marks(s), m_ro(s), m_order(s))
}

proof fn lemma_cnt_append(a: Seq<char>, b: Seq<char>, p: spec_fn(char) -> bool)
    ensures
        cnt(a + b, p) == cnt(a, p) + cnt(b, p),
    decreases a.len(),
{
    if a.len() > 0 {
        assert((a + b).drop_first() =~= a.drop_first() + b);
        lemma_cnt_append(a.drop_first(), b, p);
    } else {
        assert(a + b =~= b);
    }
}

proof fn lemma_pairs_append(
    a: Seq<char>,
    b: Seq<char>,
    p: spec_fn(char) -> bool,
    q: spec_fn(char) -> bool,
)
    ensures
        pairs(a + b, p, q) == pairs(a, p, q) + pairs(b, p, q) + cnt(a, p) * cnt(b, q),
    decreases a.len(),
{
    if a.len() > 0 {
        assert((a + b).drop_first() =~= a.drop_first() + b);
        assert((a + b)[0] == a[0]);
        lemma_pairs_append(a.drop_first(), b, p, q);
        lemma_cnt_append(a.drop_first(), b, q);
        let ca = cnt(a.drop_first(), p);
        let cb = cnt(b, q);
        let ab = a + b;
        assert(pairs(ab, p, q) == (if p(a[0]) {
            cnt(ab.drop_first(), q)
        } else {
            0nat
        }) + pairs(ab.drop_first(), p, q));
        assert(pairs(a, p, q) == (if p(a[0]) {
            cnt(a.drop_first(), q)
        } else {
            0nat
        }) + pairs(a.drop_first(), p, q));
        if p(a[0]) {
            assert(cnt(a, p) == 1 + ca);
            assert((1 + ca) * cb == cb + ca * cb) by (nonlinear_arith);
            assert(cnt(ab.drop_first(), q) == cnt(a.drop_first(), q) + cb);
            assert(pairs(ab, p, q) == cnt(a.drop_first(), q) + cb + pairs(a.drop_first(), p, q)
                + pairs(b, p, q) + ca * cb);
        } else {
            assert(cnt(a, p) == ca);
            assert(pairs(ab, p, q) == pairs(a.drop_first(), p, q) + pairs(b, p, q) + ca * cb);
        }
    } else {
        assert(a + b =~= b);
        assert(cnt(a, p) == 0);
        assert(pairs(a, p, q) == 0);
        assert(cnt(a, p) * cnt(b, q) == 0);
    }
}

/// Replacing a window by one with the same counts changes the pair count
/// only by the window's own change.
proof fn lemma_window(
    pre: Seq<char>,
    w: Seq<char>,
    w2: Seq<char>,
    post: Seq<char>,
    p: spec_fn(char) -> bool,
    q: spec_fn(char) -> bool,
)
    requires
        cnt(w, p) == cnt(w2, p),
        cnt(w, q) == cnt(w2, q),
    ensures
        pairs(pre + w2 + post, p, q) - pairs(pre + w + post, p, q) == pairs(w2, p, q) - pairs(
            w,
            p,
            q,
        ),
{
    lemma_pairs_append(pre + w, post, p, q);
    lemma_pairs_append(pre + w2, post, p, q);
    lemma_pairs_append(pre, w, p, q);
    lemma_pairs_append(pre, w2, p, q);
    lemma_cnt_append(pre, w, p);
    lemma_cnt_append(pre, w2, p);
}

proof fn lemma_ranked_is_mark(c: char)
    requires
        mark_rank(c) is Some,
    ensures
        reorderable(c),
        c != RO,
{
}

proof fn lemma_split3(s: Seq<char>, i: int, k: int, t: Seq<char>)
    requires
        0 <= i,
        0 <= k,
        i + k <= s.len(),
        t.len() == s.len(),
        forall|j: int| 0 <= j < i ==> t[j] == s[j],
        forall|j: int| i + k <= j < s.len() ==> t[j] == s[j],
    ensures
        s == s.take(i) + s.subrange(i, i + k) + s.skip(i + k),
        t == s.take(i) + t.subrange(i, i + k) + s.skip(i + k),
{
    assert(s =~= s.take(i) + s.subrange(i, i + k) + s.skip(i + k));
    assert(t =~= s.take(i) + t.subrange(i, i + k) + s.skip(i + k));
}

pub open spec fn ind(b: bool) -> nat {
    if b {
        1
    } else {
        0
    }
}

proof fn lemma_small2(x: char, y: char, p: spec_fn(char) -> bool, q: spec_fn(char) -> bool)
    ensures
        cnt(seq![x, y], p) == ind(p(x)) + ind(p(y)),
        pairs(seq![x, y], p, q) == ind(p(x) && q(y)),
{
    reveal_with_fuel(cnt, 3);
    reveal_with_fuel(pairs, 3);
    assert(seq![x, y].drop_first() =~= seq![y]);
    assert(seq![y].drop_first() =~= Seq::<char>::empty());
}

proof fn lemma_small3(
    x: char,
    y: char,
    z: char,
    p: spec_fn(char) -> bool,
    q: spec_fn(char) -> bool,
)
    ensures
        cnt(seq![x, y, z], p) == ind(p(x)) + ind(p(y)) + ind(p(z)),
        pairs(seq![x, y, z], p, q) == ind(p(x) && q(y)) + ind(p(x) && q(z)) + ind(p(y) && q(z)),
{
    assert(seq![x, y, z].drop_first() =~= seq![y, z]);
    lemma_small2(y, z, p, q);
    lemma_small2(y, z, q, q);
}

proof fn lemma_small4(
    x: char,
    y: char,
    z: char,
    v: char,
    p: spec_fn(char) -> bool,
    q: spec_fn(char) -> bool,
)
    ensures
        cnt(seq![x, y, z, v], p) == ind(p(x)) + ind(p(y)) + ind(p(z)) + ind(p(v)),
        pairs(seq![x, y, z, v], p, q) == ind(p(x) && q(y)) + ind(p(x) && q(z)) + ind(p(x) && q(v))
            + ind(p(y) && q(z)) + ind(p(y) && q(v)) + ind(p(z) && q(v)),
{
    assert(seq![x, y, z, v].drop_first() =~= seq![y, z, v]);
    lemma_small3(y, z, v, p, q);
    lemma_small3(y, z, v, q, q);
}

proof fn lemma_rule1(s: Seq<char>, i: int)
    requires
        0 <= i && i + 2 < s.len() && reorderable(s[i]) && s[i + 1] == COENG
        && khmer_base(s[i + 2]),
    ensures
        lex_lt(measure(rule_at(s, i).0), measure(s)),
{
    let t = rule_at(s, i).0;
    lemma_split3(s, i, 3, t);
    let w = s.subrange(i, i + 3);
    let w2 = t.subrange(i, i + 3);
    assert(w =~= seq![s[i], s[i + 1], s[i + 2]]);
    assert(w2 =~= seq![s[i + 1], s[i + 2], s[i]]);
    lemma_small3(s[i], s[i + 1], s[i + 2], is_mark(), not_mark());
    lemma_small3(s[i], s[i + 1], s[i + 2], not_mark(), not_mark());
    lemma_small3(s[i + 1], s[i + 2], s[i], is_mark(), not_mark());
    lemma_small3(s[i + 1], s[i + 2], s[i], not_mark(), not_mark());
    lemma_window(s.take(i), w, w2, s.skip(i + 3), is_mark(), not_mark());
}

proof fn lemma_rule2(s: Seq<char>, i: int)
    requires
        0 <= i && i + 2 < s.len() && s[i] == COENG && reorderable(s[i + 1]) && khmer_base(s[i + 2]),
    ensures
        lex_lt(measure(rule_at(s, i).0), measure(s)),
{
    let t = rule_at(s, i).0;
    lemma_split3(s, i, 3, t);
    let w = s.subrange(i, i + 3);
    let w2 = t.subrange(i, i + 3);
    assert(w =~= seq![s[i], s[i + 1], s[i + 2]]);
    assert(w2 =~= seq![s[i], s[i + 2], s[i + 1]]);
    lemma_small3(s[i], s[i + 1], s[i + 2], is_mark(), not_mark());
    lemma_small3(s[i], s[i + 1], s[i + 2], not_mark(), not_mark());
    lemma_small3(s[i], s[i + 2], s[i + 1], is_mark(), not_mark());
    lemma_small3(s[i], s[i + 2], s[i + 1], not_mark(), not_mark());
    lemma_window(s.take(i), w, w2, s.skip(i + 3), is_mark(), not_mark());
}

proof fn lemma_rule3(s: Seq<char>, i: int)
    requires
        0 <= i && i + 3 < s.len() && s[i] == COENG && s[i + 1] == RO && s[i + 2] == COENG
            && khmer_base(s[i + 3]) && s[i + 3] != RO,
    ensures
        lex_lt(measure(rule_at(s, i).0), measure(s)),
{
    let t = rule_at(s, i).0;
    lemma_split3(s, i, 4, t);
    let w = s.subrange(i, i + 4);
    let w2 = t.subrange(i, i + 4);
    let (a, b, c, d) = (s[i], s[i + 1], s[i + 2], s[i + 3]);
    assert(w =~= seq![a, b, c, d]);
    assert(w2 =~= seq![c, d, a, b]);
    lemma_small4(a, b, c, d, is_mark(), not_mark());
    lemma_small4(a, b, c, d, not_mark(), not_mark());
    lemma_small4(c, d, a, b, is_mark(), not_mark());
    lemma_small4(c, d, a, b, not_mark(), not_mark());
    lemma_small4(a, b, c, d, is_ro(), passable());
    lemma_small4(a, b, c, d, passable(), passable());
    lemma_small4(c, d, a, b, is_ro(), passable());
    lemma_small4(c, d, a, b, passable(), passable());
    lemma_window(s.take(i), w, w2, s.skip(i + 4), is_mark(), not_mark());
    lemma_window(s.take(i), w, w2, s.skip(i + 4), is_ro(), passable());
}

/// Every rule application strictly lowers the measure lexicographically;
/// a position where no rule applies leaves the text unchanged.
proof fn lemma_rule_at(s: Seq<char>, i: int)
    ensures
        rule_at(s, i).0.len() == s.len(),
        rule_at(s, i).1 ==> lex_lt(measure(rule_at(s, i).0), measure(s)),
        !rule_at(s, i).1 ==> rule_at(s, i).0 == s,
{
    if 0 <= i && i + 2 < s.len() && reorderable(s[i]) && s[i + 1] == COENG
        && khmer_base(s[i + 2]) {
        lemma_rule1(s, i);
    } else if 0 <= i && i + 2 < s.len() && s[i] == COENG && reorderable(s[i + 1]) && khmer_base(
        s[i + 2],
    ) {
        lemma_rule2(s, i);
    } else if 0 <= i && i + 3 < s.len() && s[i] == COENG && s[i + 1] == RO && s[i + 2] == COENG
        && khmer_base(s[i + 3]) && s[i + 3] != RO {
        lemma_rule3(s, i);
    }
}

proof fn lemma_order_at(s: Seq<char>, i: int)
    ensures
        order_at(s, i).0.len() == s.len(),
        order_at(s, i).1 ==> lex_lt(measure(order_at(s, i).0), measure(s)),
        !order_at(s, i).1 ==> order_at(s, i).0 == s,
{
    let t = order_at(s, i).0;
    if order_at(s, i).1 {
        let x = s[i - 1];
        let y = s[i];
        lemma_ranked_is_mark(x);
        lemma_ranked_is_mark(y);
        lemma_split3(s, i - 1, 2, t);
        let w = s.subrange(i - 1, i + 1);
        let w2 = t.subrange(i - 1, i + 1);
        assert(w =~= seq![x, y]);
        assert(w2 =~= seq![y, x]);
        let pre = s.take(i - 1);
        let post = s.skip(i + 1);
        lemma_small2(x, y, is_mark(), not_mark());
        lemma_small2(x, y, not_mark(), not_mark());
        lemma_small2(y, x, is_mark(), not_mark());
        lemma_small2(y, x, not_mark(), not_mark());
        lemma_small2(x, y, is_ro(), passable());
        lemma_small2(x, y, passable(), passable());
        lemma_small2(y, x, is_ro(), passable());
        lemma_small2(y, x, passable(), passable());
        lemma_small2(x, y, rank_is(1u8), rank_is(0u8));
        lemma_small2(x, y, rank_is(0u8), rank_is(0u8));
        lemma_small2(y, x, rank_is(1u8), rank_is(0u8));
        lemma_small2(y, x, rank_is(0u8), rank_is(0u8));
        lemma_small2(x, y, rank_is(2u8), rank_below_two());
        lemma_small2(x, y, rank_below_two(), rank_below_two());
        lemma_small2(y, x, rank_is(2u8), rank_below_two());
        lemma_small2(y, x, rank_below_two(), rank_below_two());
        lemma_small2(x, y, rank_is(1u8), rank_is(1u8));
        lemma_small2(y, x, rank_is(1u8), rank_is(1u8));
        lemma_small2(x, y, rank_is(2u8), rank_is(2u8));
        lemma_small2(y, x, rank_is(2u8), rank_is(2u8));
        lemma_window(pre, w, w2, post, is_mark(), not_mark());
        lemma_window(pre, w, w2, post, is_ro(), passable());
        lemma_window(pre, w, w2, post, rank_is(1u8), rank_is(0u8));
        lemma_window(pre, w, w2, post, rank_is(2u8), rank_below_two());
    }
}

proof fn lemma_sweep(s: Seq<char>, i: int)
    ensures
        sweep(s, i).0.len() == s.len(),
        sweep(s, i).1 ==> lex_lt(measure(sweep(s, i).0), measure(s)),
        !sweep(s, i).1 ==> sweep(s, i).0 == s,
    decreases s.len() - i,
{
    if 0 <= i && i + 2 < s.len() {
        let r = rule_at(s, i);
        lemma_rule_at(s, i);
        lemma_sweep(r.0, i + 1);
    }
}

proof fn lemma_order_sweep(s: Seq<char>, i: int)
    ensures
        order_sweep(s, i).0.len() == s.len(),
        order_sweep(s, i).1 ==> lex_lt(measure(order_sweep(s, i).0), measure(s)),
        !order_sweep(s, i).1 ==> order_sweep(s, i).0 == s,
    decreases s.len() - i,
{
    if 1 <= i < s.len() {
        let r = order_at(s, i);
        lemma_order_at(s, i);
        lemma_order_sweep(r.0, i + 1);
    }
}

/// A pass that applies any rule lowers the measure; one that applies none
/// leaves the text as it was.
pub proof fn lemma_pass(s: Seq<char>)
    ensures
        pass(s).0.len() == s.len(),
        pass(s).1 ==> lex_lt(measure(pass(s).0), measure(s)),
        !pass(s).1 ==> pass(s).0 == s,
{
    lemma_sweep(s, 0);
    lemma_order_sweep(sweep(s, 0).0, 1);
}

// ---------------------------------------------------------------------------
// Rewriting only reorders: characters and byte length are kept
// ---------------------------------------------------------------------------

/// The UTF-8 byte length of a character sequence.
pub open spec fn byte_len(s: Seq<char>) -> nat {
    encode_utf8(s).len()
}

/// `t` holds exactly the characters of `s` (possibly reordered), so it also
/// has the same UTF-8 byte length.
pub open spec fn same_chars(s: Seq<char>, t: Seq<char>) -> bool {
    t.to_multiset() == s.to_multiset() && byte_len(t) == byte_len(s)
}

proof fn lemma_encode_append(a: Seq<char>, b: Seq<char>)
    ensures
        encode_utf8(a + b) == encode_utf8(a) + encode_utf8(b),
    decreases a.len(),
{
    if a.len() == 0 {
        assert(a + b =~= b);
        assert(encode_utf8(a) =~= Seq::<u8>::empty());
        assert(encode_utf8(a) + encode_utf8(b) =~= encode_utf8(b));
    } else {
        assert((a + b).drop_first() =~= a.drop_first() + b);
        assert((a + b)[0] == a[0]);
        lemma_encode_append(a.drop_first(), b);
        let e0 = vstd::utf8::encode_scalar(a[0] as u32);
        assert(encode_utf8(a + b) == e0 + encode_utf8(a.drop_first() + b));
        assert(e0 + (encode_utf8(a.drop_first()) + encode_utf8(b)) =~= (e0 + encode_utf8(
            a.drop_first(),
        )) + encode_utf8(b));
    }
}

/// Exchanging two adjacent blocks keeps the characters and byte length.
proof fn lemma_swap_blocks(pre: Seq<char>, x: Seq<char>, y: Seq<char>, post: Seq<char>)
    ensures
        same_chars(pre + x + y + post, pre + y + x + post),
{
    broadcast use vstd::seq_lib::lemma_multiset_commutative;
    broadcast use vstd::multiset::group_multiset_axioms;

    lemma_encode_append(pre + x + y, post);
    lemma_encode_append(pre + y + x, post);
    lemma_encode_append(pre + x, y);
    lemma_encode_append(pre + y, x);
    lemma_encode_append(pre, x);
    lemma_encode_append(pre, y);
    assert((pre + x + y + post).to_multiset() =~= (pre + y + x + post).to_multiset());
}

proof fn lemma_same_chars_trans(a: Seq<char>, b: Seq<char>, c: Seq<char>)
    requires
        same_chars(a, b),
        same_chars(b, c),
    ensures
        same_chars(a, c),
{
}

proof fn lemma_rule_same_chars(s: Seq<char>, i: int)
    ensures
        same_chars(s, rule_at(s, i).0),
{
    let t = rule_at(s, i).0;
    if 0 <= i && i + 2 < s.len() && reorderable(s[i]) && s[i + 1] == COENG
        && khmer_base(s[i + 2]) {
        let (pre, x, y, post) = (s.take(i), s.subrange(i, i + 1), s.subrange(i + 1, i + 3), s.skip(
            i + 3,
        ));
        assert(s =~= pre + x + y + post);
        assert(t =~= pre + y + x + post);
        lemma_swap_blocks(pre, x, y, post);
    } else if 0 <= i && i + 2 < s.len() && s[i] == COENG && reorderable(s[i + 1]) && khmer_base(
        s[i + 2],
    ) {
        let (pre, x, y, post) = (s.take(i + 1), s.subrange(i + 1, i + 2), s.subrange(
            i + 2,
            i + 3,
        ), s.skip(i + 3));
        assert(s =~= pre + x + y + post);
        assert(t =~= pre + y + x + post);
        lemma_swap_blocks(pre, x, y, post);
    } else if 0 <= i && i + 3 < s.len() && s[i] == COENG && s[i + 1] == RO && s[i + 2] == COENG
        && khmer_base(s[i + 3]) && s[i + 3] != RO {
        let (pre, x, y, post) = (s.take(i), s.subrange(i, i + 2), s.subrange(i + 2, i + 4), s.skip(
            i + 4,
        ));
        assert(s =~= pre + x + y + post);
        assert(t =~= pre + y + x + post);
        lemma_swap_blocks(pre, x, y, post);
    }
}

proof fn lemma_order_same_chars(s: Seq<char>, i: int)
    ensures
        same_chars(s, order_at(s, i).0),
{
    let t = order_at(s, i).0;
    if order_at(s, i).1 {
        let (pre, x, y, post) = (s.take(i - 1), s.subrange(i - 1, i), s.subrange(i, i + 1), s.skip(
            i + 1,
        ));
        assert(s =~= pre + x + y + post);
        assert(t =~= pre + y + x + post);
        lemma_swap_blocks(pre, x, y, post);
    }
}

proof fn lemma_sweep_same_chars(s: Seq<char>, i: int)
    ensures
        same_chars(s, sweep(s, i).0),
    decreases s.len() - i,
{
    if 0 <= i && i + 2 < s.len() {
        let r = rule_at(s, i);
        lemma_rule_at(s, i);
        lemma_rule_same_chars(s, i);
        lemma_sweep_same_chars(r.0, i + 1);
        lemma_same_chars_trans(s, r.0, sweep(r.0, i + 1).0);
    }
}

proof fn lemma_order_sweep_same_chars(s: Seq<char>, i: int)
    ensures
        same_chars(s, order_sweep(s, i).0),
    decreases s.len() - i,
{
    if 1 <= i < s.len() {
        let r = order_at(s, i);
        lemma_order_at(s, i);
        lemma_order_same_chars(s, i);
        lemma_order_sweep_same_chars(r.0, i + 1);
        lemma_same_chars_trans(s, r.0, order_sweep(r.0, i + 1).0);
    }
}

proof fn lemma_iterate_same_chars(s: Seq<char>, k: nat)
    ensures
        same_chars(s, iterate(s, k)),
    decreases k,
{
    if k > 0 && pass(s).1 {
        lemma_sweep_same_chars(s, 0);
        lemma_order_sweep_same_chars(sweep(s, 0).0, 1);
        lemma_same_chars_trans(s, sweep(s, 0).0, pass(s).0);
        lemma_iterate_same_chars(pass(s).0, (k - 1) as nat);
        lemma_same_chars_trans(s, pass(s).0, iterate(pass(s).0, (k - 1) as nat));
    }
}

/// Normalization only ever reorders: the normal form of a text holds
/// exactly its characters and has exactly its UTF-8 byte length.
pub proof fn law_normalize_only_reorders(s: Seq<char>, t: Seq<char>)
    requires
        normal_form_of(s, t),
    ensures
        same_chars(s, t),
        t.len() == s.len(),
{
    let k = choose|k: nat| iterate(s, k) == t;
    lemma_iterate_same_chars(s, k);
    t.to_multiset_ensures();
    s.to_multiset_ensures();
}

proof fn lemma_iterate_add(s: Seq<char>, a: nat, b: nat)
    ensures
        iterate(s, a + b) == iterate(iterate(s, a), b),
    decreases a,
{
    if a > 0 {
        if pass(s).1 {
            lemma_iterate_add(pass(s).0, (a - 1) as nat, b);
            assert(iterate(s, a + b) == iterate(pass(s).0, (a + b - 1) as nat));
            assert((a + b - 1) as nat == ((a - 1) as nat + b) as nat);
        } else {
            lemma_iterate_settled(s, b);
            lemma_iterate_settled(s, a + b);
        }
    }
}

proof fn lemma_iterate_settled(s: Seq<char>, k: nat)
    requires
        settled(s),
    ensures
        iterate(s, k) == s,
{
}

/// Normalization is a function, and a normal form normalizes to itself:
/// normalizing twice gives the same text as normalizing once.
pub proof fn law_normalize_idempotent(s: Seq<char>, t: Seq<char>, u: Seq<char>)
    requires
        normal_form_of(s, t),
        normal_form_of(t, u) || normal_form_of(s, u),
    ensures
        u == t,
{
    let k1 = choose|k: nat| iterate(s, k) == t;
    if normal_form_of(t, u) {
        let k2 = choose|k: nat| iterate(t, k) == u;
        lemma_iterate_settled(t, k2);
    } else {
        let k2 = choose|k: nat| iterate(s, k) == u;
        if k1 <= k2 {
            lemma_iterate_add(s, k1, (k2 - k1) as nat);
            lemma_iterate_settled(t, (k2 - k1) as nat);
        } else {
            lemma_iterate_add(s, k2, (k1 - k2) as nat);
            lemma_iterate_settled(u, (k1 - k2) as nat);
        }
    }
}

/// Whatever normalization reaches is the normal form.
pub proof fn lemma_normal_form(s: Seq<char>, t: Seq<char>)
    requires
        normal_form_of(s, t),
    ensures
        normal_form(s) == t,
{
    let u = normal_form(s);
    assert(normal_form_of(s, u));
    law_normalize_idempotent(s, t, u);
}

/// Text on which no rule applies is left as it is.
pub proof fn law_normalize_fixes_canonical(s: Seq<char>, t: Seq<char>)
    requires
        settled(s),
        normal_form_of(s, t),
    ensures
        t == s,
{
    let k = choose|k: nat| iterate(s, k) == t;
    lemma_iterate_settled(s, k);
}

// ---------------------------------------------------------------------------
// Rule 4 on its own
// ---------------------------------------------------------------------------

/// `t` is `s` with only classed marks moved: every character outside the
/// three classes stands where it stood, and the marks of each class keep
/// their relative order.
pub open spec fn moves_classed_only(s: Seq<char>, t: Seq<char>) -> bool {
    &&& t.len() == s.len()
    &&& forall|j: int|
        0 <= j < s.len() && (mark_rank(s[j]) is None || mark_rank(t[j]) is None) ==> t[j]
            == s[j]
    &&& forall|k: u8| #[trigger] t.filter(rank_is(k)) == s.filter(rank_is(k))
}

proof fn lemma_moves_classed_trans(s: Seq<char>, t: Seq<char>, u: Seq<char>)
    requires
        moves_classed_only(s, t),
        moves_classed_only(t, u),
    ensures
        moves_classed_only(s, u),
{
    assert forall|k: u8| #[trigger] u.filter(rank_is(k)) == s.filter(rank_is(k)) by {
        assert(u.filter(rank_is(k)) == t.filter(rank_is(k)));
        assert(t.filter(rank_is(k)) == s.filter(rank_is(k)));
    }
    assert forall|j: int|
        0 <= j < s.len() && (mark_rank(s[j]) is None || mark_rank(u[j]) is None) implies u[j]
        == s[j] by {
        if mark_rank(s[j]) is None {
            assert(t[j] == s[j]);
            assert(u[j] == t[j]);
        } else {
            assert(u[j] == t[j]);
            assert(t[j] == s[j]);
        }
    }
}

proof fn lemma_swap_filter(x: char, y: char, p: spec_fn(char) -> bool)
    requires
        !(p(x) && p(y)),
    ensures
        seq![x, y].filter(p) == seq![y, x].filter(p),
{
    let e = Seq::<char>::empty();
    e.lemma_filter_len(p);
    e.lemma_filter_push(x, p);
    e.push(x).lemma_filter_push(y, p);
    e.lemma_filter_push(y, p);
    e.push(y).lemma_filter_push(x, p);
    assert(seq![x, y] =~= e.push(x).push(y));
    assert(seq![y, x] =~= e.push(y).push(x));
    assert(e.filter(p) =~= e);
}

proof fn lemma_order_at_classed(s: Seq<char>, i: int)
    ensures
        moves_classed_only(s, order_at(s, i).0),
{
    let t = order_at(s, i).0;
    if order_at(s, i).1 {
        let x = s[i - 1];
        let y = s[i];
        lemma_split3(s, i - 1, 2, t);
        let pre = s.take(i - 1);
        let post = s.skip(i + 1);
        assert(s.subrange(i - 1, i + 1) =~= seq![x, y]);
        assert(t.subrange(i - 1, i + 1) =~= seq![y, x]);
        assert forall|k: u8| #[trigger] t.filter(rank_is(k)) == s.filter(rank_is(k)) by {
            let p = rank_is(k);
            lemma_swap_filter(x, y, p);
            Seq::filter_distributes_over_add(pre + seq![x, y], post, p);
            Seq::filter_distributes_over_add(pre, seq![x, y], p);
            Seq::filter_distributes_over_add(pre + seq![y, x], post, p);
            Seq::filter_distributes_over_add(pre, seq![y, x], p);
        }
    } else {
        assert(t == s);
    }
}

proof fn lemma_order_sweep_classed(s: Seq<char>, i: int)
    ensures
        moves_classed_only(s, order_sweep(s, i).0),
    decreases s.len() - i,
{
    if 1 <= i < s.len() {
        let r = order_at(s, i).0;
        lemma_order_at_classed(s, i);
        lemma_order_sweep_classed(r, i + 1);
        lemma_moves_classed_trans(s, r, order_sweep(r, i + 1).0);
    } else {
        assert(moves_classed_only(s, s));
    }
}

proof fn lemma_sweep_without_coeng(s: Seq<char>, i: int)
    requires
        !s.contains(COENG),
    ensures
        sweep(s, i) == (s, false),
    decreases s.len() - i,
{
    if 0 <= i && i + 2 < s.len() {
        if s[i] == COENG {
            assert(s.contains(COENG));
        }
        if s[i + 1] == COENG {
            assert(s.contains(COENG));
        }
        assert(rule_at(s, i) == (s, false));
        lemma_sweep_without_coeng(s, i + 1);
    }
}

proof fn lemma_iterate_classed(s: Seq<char>, k: nat)
    requires
        !s.contains(COENG),
    ensures
        moves_classed_only(s, iterate(s, k)),
    decreases k,
{
    if k > 0 && pass(s).1 {
        let t = pass(s).0;
        lemma_sweep_without_coeng(s, 0);
        lemma_order_sweep_classed(s, 1);
        assert(t == order_sweep(s, 1).0);
        assert(!t.contains(COENG)) by {
            if t.contains(COENG) {
                let j = choose|j: int| 0 <= j < t.len() && t[j] == COENG;
                assert(mark_rank(t[j]) is None);
                assert(s[j] == COENG);
                assert(s.contains(COENG));
            }
        }
        lemma_iterate_classed(t, (k - 1) as nat);
        lemma_moves_classed_trans(s, t, iterate(t, (k - 1) as nat));
    } else {
        assert(moves_classed_only(s, s));
    }
}

/// Rule 4 keeps to its own: on text without COENG, where rules 1 to 3
/// never apply, normalization moves only classed marks (register
/// shifters, dependent vowels, final signs). Bases, Robat, the zero-width
/// joiners and every other character keep their positions, and marks of
/// the same class are never reordered relative to each other.
pub proof fn law_mark_order_moves_classed_only(s: Seq<char>, t: Seq<char>)
    requires
        normal_form_of(s, t),
        !s.contains(COENG),
    ensures
        moves_classed_only(s, t),
{
    let k = choose|k: nat| iterate(s, k) == t;
    lemma_iterate_classed(s, k);
}

/// A character no rule may move: Robat or a zero-width joiner.
pub open spec fn pinned(c: char) -> bool {
    c == ROBAT || c == '\u{200C}' || c == '\u{200D}'
}

/// `t` is `s` with every Robat and zero-width joiner where it stood, and
/// the marks of each class in their order.
pub open spec fn keeps_pinned_and_class_order(s: Seq<char>, t: Seq<char>) -> bool {
    &&& t.len() == s.len()
    &&& forall|j: int| 0 <= j < s.len() && (pinned(s[j]) || pinned(t[j])) ==> t[j] == s[j]
    &&& forall|k: u8| #[trigger] t.filter(rank_is(k)) == s.filter(rank_is(k))
}

proof fn lemma_keeps_trans(s: Seq<char>, t: Seq<char>, u: Seq<char>)
    requires
        keeps_pinned_and_class_order(s, t),
        keeps_pinned_and_class_order(t, u),
    ensures
        keeps_pinned_and_class_order(s, u),
{
    assert forall|k: u8| #[trigger] u.filter(rank_is(k)) == s.filter(rank_is(k)) by {
        assert(u.filter(rank_is(k)) == t.filter(rank_is(k)));
        assert(t.filter(rank_is(k)) == s.filter(rank_is(k)));
    }
    assert forall|j: int|
        0 <= j < s.len() && (pinned(s[j]) || pinned(u[j])) implies u[j] == s[j] by {
        if pinned(s[j]) {
            assert(t[j] == s[j]);
            assert(u[j] == t[j]);
        } else {
            assert(u[j] == t[j]);
            assert(t[j] == s[j]);
        }
    }
}

proof fn lemma_classed_keeps(s: Seq<char>, t: Seq<char>)
    requires
        moves_classed_only(s, t),
    ensures
        keeps_pinned_and_class_order(s, t),
{
    assert forall|j: int| 0 <= j < s.len() && (pinned(s[j]) || pinned(t[j])) implies t[j]
        == s[j] by {
        assert(pinned(s[j]) ==> mark_rank(s[j]) is None);
        assert(pinned(t[j]) ==> mark_rank(t[j]) is None);
    }
}

/// A window whose unclassed characters all move but whose one classed
/// mark, if any, keeps its place among the classed marks.
proof fn lemma_window_filter(
    pre: Seq<char>,
    w: Seq<char>,
    w2: Seq<char>,
    post: Seq<char>,
    p: spec_fn(char) -> bool,
)
    requires
        w.filter(p) == w2.filter(p),
    ensures
        (pre + w + post).filter(p) == (pre + w2 + post).filter(p),
{
    Seq::filter_distributes_over_add(pre + w, post, p);
    Seq::filter_distributes_over_add(pre, w, p);
    Seq::filter_distributes_over_add(pre + w2, post, p);
    Seq::filter_distributes_over_add(pre, w2, p);
}

/// Filtering a short sequence, one element at a time.
proof fn lemma_filter_step(a: Seq<char>, x: char, p: spec_fn(char) -> bool)
    ensures
        a.push(x).filter(p) == if p(x) {
            a.filter(p).push(x)
        } else {
            a.filter(p)
        },
{
    a.lemma_filter_push(x, p);
}

proof fn lemma_empty_filter(p: spec_fn(char) -> bool)
    ensures
        Seq::<char>::empty().filter(p) == Seq::<char>::empty(),
{
    Seq::<char>::empty().lemma_filter_len(p);
}

proof fn lemma_rule_keeps(s: Seq<char>, i: int)
    ensures
        keeps_pinned_and_class_order(s, rule_at(s, i).0),
{
    let t = rule_at(s, i).0;
    let e = Seq::<char>::empty();
    if !rule_at(s, i).1 {
        assert(t == s);
    } else if 0 <= i && i + 2 < s.len() && reorderable(s[i]) && s[i + 1] == COENG && khmer_base(
        s[i + 2],
    ) {
        let (m, c, b) = (s[i], s[i + 1], s[i + 2]);
        lemma_split3(s, i, 3, t);
        assert(s.subrange(i, i + 3) =~= e.push(m).push(c).push(b));
        assert(t.subrange(i, i + 3) =~= e.push(c).push(b).push(m));
        assert forall|k: u8| #[trigger] t.filter(rank_is(k)) == s.filter(rank_is(k)) by {
            let p = rank_is(k);
            lemma_empty_filter(p);
            lemma_filter_step(e, m, p);
            lemma_filter_step(e.push(m), c, p);
            lemma_filter_step(e.push(m).push(c), b, p);
            lemma_filter_step(e, c, p);
            lemma_filter_step(e.push(c), b, p);
            lemma_filter_step(e.push(c).push(b), m, p);
            lemma_window_filter(
                s.take(i),
                s.subrange(i, i + 3),
                t.subrange(i, i + 3),
                s.skip(i + 3),
                p,
            );
        }
    } else if 0 <= i && i + 2 < s.len() && s[i] == COENG && reorderable(s[i + 1]) && khmer_base(
        s[i + 2],
    ) {
        let (c, m, b) = (s[i], s[i + 1], s[i + 2]);
        lemma_split3(s, i, 3, t);
        assert(s.subrange(i, i + 3) =~= e.push(c).push(m).push(b));
        assert(t.subrange(i, i + 3) =~= e.push(c).push(b).push(m));
        assert forall|k: u8| #[trigger] t.filter(rank_is(k)) == s.filter(rank_is(k)) by {
            let p = rank_is(k);
            lemma_empty_filter(p);
            lemma_filter_step(e, c, p);
            lemma_filter_step(e.push(c), m, p);
            lemma_filter_step(e.push(c).push(m), b, p);
            lemma_filter_step(e.push(c), b, p);
            lemma_filter_step(e.push(c).push(b), m, p);
            lemma_window_filter(
                s.take(i),
                s.subrange(i, i + 3),
                t.subrange(i, i + 3),
                s.skip(i + 3),
                p,
            );
        }
    } else {
        let (a, b, c, d) = (s[i], s[i + 1], s[i + 2], s[i + 3]);
        lemma_split3(s, i, 4, t);
        assert(s.subrange(i, i + 4) =~= e.push(a).push(b).push(c).push(d));
        assert(t.subrange(i, i + 4) =~= e.push(c).push(d).push(a).push(b));
        assert forall|k: u8| #[trigger] t.filter(rank_is(k)) == s.filter(rank_is(k)) by {
            let p = rank_is(k);
            lemma_empty_filter(p);
            lemma_filter_step(e, a, p);
            lemma_filter_step(e.push(a), b, p);
            lemma_filter_step(e.push(a).push(b), c, p);
            lemma_filter_step(e.push(a).push(b).push(c), d, p);
            lemma_filter_step(e, c, p);
            lemma_filter_step(e.push(c), d, p);
            lemma_filter_step(e.push(c).push(d), a, p);
            lemma_filter_step(e.push(c).push(d).push(a), b, p);
            lemma_window_filter(
                s.take(i),
                s.subrange(i, i + 4),
                t.subrange(i, i + 4),
                s.skip(i + 4),
                p,
            );
        }
    }
}

proof fn lemma_sweep_keeps(s: Seq<char>, i: int)
    ensures
        keeps_pinned_and_class_order(s, sweep(s, i).0),
    decreases s.len() - i,
{
    if 0 <= i && i + 2 < s.len() {
        let r = rule_at(s, i).0;
        lemma_rule_keeps(s, i);
        lemma_sweep_keeps(r, i + 1);
        lemma_keeps_trans(s, r, sweep(r, i + 1).0);
    } else {
        assert(keeps_pinned_and_class_order(s, s));
    }
}

proof fn lemma_iterate_keeps(s: Seq<char>, k: nat)
    ensures
        keeps_pinned_and_class_order(s, iterate(s, k)),
    decreases k,
{
    if k > 0 && pass(s).1 {
        let a = sweep(s, 0).0;
        let t = pass(s).0;
        lemma_sweep_keeps(s, 0);
        lemma_order_sweep_classed(a, 1);
        lemma_classed_keeps(a, t);
        lemma_keeps_trans(s, a, t);
        lemma_iterate_keeps(t, (k - 1) as nat);
        lemma_keeps_trans(s, t, iterate(t, (k - 1) as nat));
    } else {
        assert(keeps_pinned_and_class_order(s, s));
    }
}

/// Normalization never touches Robat or a zero-width joiner, and never
/// reorders two marks of the same class (register shifters, dependent
/// vowels, final signs) relative to each other: every rule moves a mark
/// only past COENG, bases, or marks of another class.
pub proof fn law_normalize_keeps_pinned_and_class_order(s: Seq<char>, t: Seq<char>)
    requires
        normal_form_of(s, t),
    ensures
        keeps_pinned_and_class_order(s, t),
{
    let k = choose|k: nat| iterate(s, k) == t;
    lemma_iterate_keeps(s, k);
}

// ---------------------------------------------------------------------------
// Mark order in the normal form
// ---------------------------------------------------------------------------

/// A register shifter: MUUSIKATOAN or TRIISAP.
pub open spec fn register_shifter(c: char) -> bool {
    c as u32 == 0x17C9 || c as u32 == 0x17CA
}

/// A dependent vowel `U+17B6..=U+17C5`.
pub open spec fn dependent_vowel(c: char) -> bool {
    0x17B6 <= c as u32 && c as u32 <= 0x17C5
}

/// A final sign: NIKAHIT, REAHMUK, YUUKALEAPINTU (`U+17C6..=U+17C8`),
/// BANTOC, the signs `U+17CD..=U+17D1`, `U+17D3` and ATTHACAN.
pub open spec fn final_sign(c: char) -> bool {
    let u = c as u32;
    (0x17C6 <= u && u <= 0x17C8) || u == 0x17CB || (0x17CD <= u && u <= 0x17D1) || u == 0x17D3
        || u == 0x17DD
}

proof fn lemma_order_sweep_quiet(s: Seq<char>, i: int)
    requires
        !order_sweep(s, i).1,
        1 <= i,
    ensures
        forall|j: int| i <= j ==> !(#[trigger] order_at(s, j)).1,
    decreases s.len() - i,
{
    if i < s.len() {
        assert(order_at(s, i).0 == s);
        lemma_order_sweep_quiet(s, i + 1);
    }
}

/// In a settled text no two adjacent marks are out of class order.
proof fn lemma_settled_in_order(s: Seq<char>)
    requires
        settled(s),
    ensures
        forall|j: int| 1 <= j ==> !(#[trigger] order_at(s, j)).1,
{
    lemma_sweep(s, 0);
    assert(!sweep(s, 0).1);
    assert(sweep(s, 0).0 == s);
    lemma_order_sweep_quiet(s, 1);
}

/// The normal form keeps the within-cluster mark order: a register
/// shifter comes before a vowel and a vowel before a final sign, so no
/// final sign directly precedes a vowel or a shifter, and no vowel
/// directly precedes a shifter.
pub proof fn law_normal_form_mark_order(s: Seq<char>, t: Seq<char>)
    requires
        normal_form_of(s, t),
    ensures
        forall|j: int|
            0 <= j < t.len() - 1 ==> !(final_sign(#[trigger] t[j]) && (dependent_vowel(t[j + 1])
                || register_shifter(t[j + 1]))) && !(dependent_vowel(t[j]) && register_shifter(
                t[j + 1],
            )),
{
    lemma_settled_in_order(t);
    assert forall|j: int| 0 <= j < t.len() - 1 implies !(final_sign(#[trigger] t[j]) && (
    dependent_vowel(t[j + 1]) || register_shifter(t[j + 1]))) && !(dependent_vowel(t[j])
        && register_shifter(t[j + 1])) by {
        assert(!order_at(t, j + 1).1);
    }
}

// ---------------------------------------------------------------------------
// The executable rewriting
// ---------------------------------------------------------------------------

/// Apply the first of rules 1-3 that matches at `i`.
fn apply_rule_at(chars: &mut Vec<char>, i: usize) -> (fired: bool)
    requires
        i + 2 < old(chars).len(),
    ensures
        (final(chars)@, fired) == rule_at(old(chars)@, i as int),
{
    let n = chars.len();
    if is_reorderable_mark(chars[i]) && chars[i + 1] == COENG && is_khmer_base(chars[i + 2]) {
        let a = chars[i];
        let b = chars[i + 1];
        let c = chars[i + 2];
        chars.set(i, b);
        chars.set(i + 1, c);
        chars.set(i + 2, a);
        true
    } else if chars[i] == COENG && is_reorderable_mark(chars[i + 1]) && is_khmer_base(
        chars[i + 2],
    ) {
        let b = chars[i + 1];
        let c = chars[i + 2];
        chars.set(i + 1, c);
        chars.set(i + 2, b);
        true
    } else if chars[i] == COENG && chars[i + 1] == RO && chars[i + 2] == COENG && i + 3 < n
        && is_khmer_base(chars[i + 3]) && chars[i + 3] != RO {
        let a = chars[i];
        let b = chars[i + 1];
        let c = chars[i + 2];
        let d = chars[i + 3];
        chars.set(i, c);
        chars.set(i + 1, d);
        chars.set(i + 2, a);
        chars.set(i + 3, b);
        true
    } else {
        false
    }
}

/// One sweep of rules 1-3 over the whole text.
fn sweep_rules(chars: &mut Vec<char>) -> (changed: bool)
    ensures
        (final(chars)@, changed) == sweep(old(chars)@, 0),
{
    let ghost before = chars@;
    let mut changed = false;
    let mut i: usize = 0;
    while chars.len() >= 3 && i < chars.len() - 2
        invariant
            i <= chars.len(),
            sweep(before, 0) == (sweep(chars@, i as int).0, changed || sweep(chars@, i as int).1),
        decreases chars.len() - i,
    {
        proof {
            lemma_rule_at(chars@, i as int);
        }
        let fired = apply_rule_at(chars, i);
        changed = changed || fired;
        i = i + 1;
    }
    changed
}

/// Apply rule 4 at `i`.
fn apply_order_at(chars: &mut Vec<char>, i: usize) -> (fired: bool)
    requires
        1 <= i < old(chars).len(),
    ensures
        (final(chars)@, fired) == order_at(old(chars)@, i as int),
{
    match (mark_class(chars[i - 1]), mark_class(chars[i])) {
        (Some(a), Some(b)) => {
            if a > b {
                let x = chars[i - 1];
                let y = chars[i];
                chars.set(i - 1, y);
                chars.set(i, x);
                true
            } else {
                false
            }
        },
        _ => false,
    }
}

/// One sweep of rule 4 over the whole text.
fn sweep_order(chars: &mut Vec<char>) -> (changed: bool)
    ensures
        (final(chars)@, changed) == order_sweep(old(chars)@, 1),
{
    let ghost before = chars@;
    let mut changed = false;
    let mut i: usize = 1;
    while i < chars.len()
        invariant
            1 <= i,
            order_sweep(before, 1) == (order_sweep(chars@, i as int).0, changed || order_sweep(
                chars@,
                i as int,
            ).1),
        decreases chars.len() - i,
    {
        proof {
            lemma_order_at(chars@, i as int);
        }
        let fired = apply_order_at(chars, i);
        changed = changed || fired;
        i = i + 1;
    }
    changed
}

/// Canonicalize the Khmer encoding of a character sequence in place.
fn normalize_chars(chars: &mut Vec<char>)
    ensures
        normal_form_of(old(chars)@, final(chars)@),
{
    let ghost start = chars@;
    let ghost mut k: nat = 0;
    loop
        invariant
            iterate(start, k) == chars@,
        ensures
            normal_form_of(start, chars@),
        decreases measure(chars@).0, measure(chars@).1, measure(chars@).2,
    {
        let ghost before = chars@;
        let c1 = sweep_rules(chars);
        let c2 = sweep_order(chars);
        proof {
            lemma_pass(before);
        }
        assert(pass(before) == (chars@, c1 || c2));
        if !(c1 || c2) {
            assert(settled(chars@));
            assert(iterate(start, k) == chars@);
            break;
        }
        proof {
            lemma_iterate_step(start, k);
            k = k + 1;
        }
    }
}

proof fn lemma_iterate_step(s: Seq<char>, k: nat)
    requires
        pass(iterate(s, k)).1,
    ensures
        iterate(s, k + 1) == pass(iterate(s, k)).0,
    decreases k,
{
    if k == 0 {
        assert(iterate(s, 0) == s);
        assert(iterate(s, 1) == iterate(pass(s).0, 0));
    } else {
        assert(iterate(s, k) == if pass(s).1 {
            iterate(pass(s).0, (k - 1) as nat)
        } else {
            s
        });
        if pass(s).1 {
            lemma_iterate_step(pass(s).0, (k - 1) as nat);
            assert(iterate(s, k + 1) == iterate(pass(s).0, k));
        }
    }
}

/// Canonicalize `text`'s Khmer encoding before segmentation: the rules are
/// applied in passes until a pass changes nothing.
pub fn normalize(text: &str) -> (out: String)
    ensures
        normal_form_of(text@, out@),
        out@ == normal_form(text@),
        same_chars(text@, out@),
{
    let mut chars = str_chars(text);
    normalize_chars(&mut chars);
    proof {
        law_normalize_only_reorders(text@, chars@);
        lemma_normal_form(text@, chars@);
    }
    string_of(chars.as_slice())
}


/// Normalization is total: every text has a normal form, reached after
/// finitely many passes (each pass that changes something strictly lowers
/// the measure of out-of-order marks, subscript RO and classed pairs).
pub proof fn law_normal_form_exists(s: Seq<char>)
    ensures
        normal_form_of(s, normal_form(s)),
    decreases measure(s).0, measure(s).1, measure(s).2,
{
    lemma_pass(s);
    if !pass(s).1 {
        assert(iterate(s, 0) == s);
        assert(normal_form_of(s, s));
        lemma_normal_form(s, s);
    } else {
        let t = pass(s).0;
        law_normal_form_exists(t);
        let u = normal_form(t);
        let k = choose|k: nat| iterate(t, k) == u;
        assert(iterate(s, k + 1) == iterate(t, k));
        assert(normal_form_of(s, u));
        lemma_normal_form(s, u);
    }
}

} // verus!
