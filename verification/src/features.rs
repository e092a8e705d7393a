//! The integer and text side of the averaged-perceptron tagger: cluster
//! classes, the context feature strings of a position, the escaping of
//! feature keys for the line-based model file, and the deterministic
//! shuffle that orders training passes.

use vstd::prelude::*;
use crate::kcc::{khmer, khmer_base, khmer_digit, is_khmer, is_khmer_base, is_khmer_digit, COENG};
use crate::text::{
    is_ws, is_whitespace, views, str_chars, push_all, push_str_chars, push_decimal, decimal,
    string_of,
};

verus! {

// ---------------------------------------------------------------------------
// Cluster classes
// ---------------------------------------------------------------------------

/// The type class of a cluster, by its first character.
pub open spec fn class_name(cl: Seq<char>) -> Seq<char> {
    if cl.len() == 0 {
        "EMPTY"@
    } else if khmer(cl[0]) {
        if khmer_digit(cl[0]) {
            "KhmerDigit"@
        } else if khmer_base(cl[0]) {
            if cl.contains(COENG) {
                "KhmerSub"@
            } else {
                "KhmerBase"@
            }
        } else {
            "KhmerPunc"@
        }
    } else if '0' <= cl[0] && cl[0] <= '9' {
        "Digit"@
    } else if is_ws(cl[0]) {
        "Space"@
    } else {
        "NonKhmer"@
    }
}

fn has_coeng(cs: &[char]) -> (b: bool)
    ensures
        b == cs@.contains(COENG),
{
    let mut i: usize = 0;
    while i < cs.len()
        invariant
            i <= cs@.len(),
            forall|k: int| 0 <= k < i ==> cs@[k] != COENG,
        decreases cs.len() - i,
    {
        if cs[i] == COENG {
            return true;
        }
        i = i + 1;
    }
    false
}

/// Classify a cluster for the type-class features.
pub fn cluster_class(cluster: &str) -> (r: &'static str)
    ensures
        r@ == class_name(cluster@),
{
    let cs = str_chars(cluster);
    if cs.len() == 0 {
        return "EMPTY";
    }
    let first = cs[0];
    if is_khmer(first) {
        if is_khmer_digit(first) {
            "KhmerDigit"
        } else if is_khmer_base(first) {
            if has_coeng(cs.as_slice()) {
                "KhmerSub"
            } else {
                "KhmerBase"
            }
        } else {
            "KhmerPunc"
        }
    } else if '0' <= first && first <= '9' {
        "Digit"
    } else if is_whitespace(first) {
        "Space"
    } else {
        "NonKhmer"
    }
}

// ---------------------------------------------------------------------------
// Context features
// ---------------------------------------------------------------------------

/// The cluster at `k`, or the boundary marker `<s>` outside the run.
pub open spec fn at(cl: Seq<Seq<char>>, k: int) -> Seq<char> {
    if 0 <= k < cl.len() {
        cl[k]
    } else {
        "<s>"@
    }
}

/// The class of the cluster at `k`, or `<s>` outside the run.
pub open spec fn class_at(cl: Seq<Seq<char>>, k: int) -> Seq<char> {
    if 0 <= k < cl.len() {
        class_name(cl[k])
    } else {
        "<s>"@
    }
}

/// `a|b`.
pub open spec fn bar(a: Seq<char>, b: Seq<char>) -> Seq<char> {
    a + seq!['|'] + b
}

/// The context features of position `i`: the cluster and its neighbours
/// two out on each side, the adjacent bigrams and the centred trigram,
/// the cluster's length, and the type classes of the cluster and its
/// neighbours, each behind its template name.
pub open spec fn feature_set(cl: Seq<Seq<char>>, i: int) -> Seq<Seq<char>> {
    seq![
        "U0="@ + at(cl, i),
        "U-1="@ + at(cl, i - 1),
        "U+1="@ + at(cl, i + 1),
        "U-2="@ + at(cl, i - 2),
        "U+2="@ + at(cl, i + 2),
        "B-1="@ + bar(at(cl, i - 1), at(cl, i)),
        "B+1="@ + bar(at(cl, i), at(cl, i + 1)),
        "B-2="@ + bar(at(cl, i - 2), at(cl, i - 1)),
        "B+2="@ + bar(at(cl, i + 1), at(cl, i + 2)),
        "T0="@ + bar(bar(at(cl, i - 1), at(cl, i)), at(cl, i + 1)),
        "L0="@ + decimal(at(cl, i).len()),
        "C0="@ + class_at(cl, i),
        "C-1="@ + class_at(cl, i - 1),
        "C+1="@ + class_at(cl, i + 1),
        "CB-1="@ + bar(class_at(cl, i - 1), class_at(cl, i)),
        "CB+1="@ + bar(class_at(cl, i), class_at(cl, i + 1)),
    ]
}

fn at_back(clusters: &[String], i: usize, d: usize) -> (r: Vec<char>)
    ensures
        r@ == at(views(clusters@), i - d),
{
    if d <= i && i - d < clusters.len() {
        str_chars(clusters[i - d].as_str())
    } else {
        str_chars("<s>")
    }
}

fn at_fwd(clusters: &[String], i: usize, d: usize) -> (r: Vec<char>)
    ensures
        r@ == at(views(clusters@), i + d),
{
    if i < clusters.len() && d < clusters.len() - i {
        str_chars(clusters[i + d].as_str())
    } else {
        str_chars("<s>")
    }
}

fn class_back(clusters: &[String], i: usize, d: usize) -> (r: Vec<char>)
    ensures
        r@ == class_at(views(clusters@), i - d),
{
    if d <= i && i - d < clusters.len() {
        str_chars(cluster_class(clusters[i - d].as_str()))
    } else {
        str_chars("<s>")
    }
}

fn class_fwd(clusters: &[String], i: usize, d: usize) -> (r: Vec<char>)
    ensures
        r@ == class_at(views(clusters@), i + d),
{
    if i < clusters.len() && d < clusters.len() - i {
        str_chars(cluster_class(clusters[i + d].as_str()))
    } else {
        str_chars("<s>")
    }
}

fn feat1(prefix: &str, a: &[char]) -> (s: String)
    ensures
        s@ == prefix@ + a@,
{
    let mut out = str_chars(prefix);
    push_all(&mut out, a);
    string_of(out.as_slice())
}

fn feat2(prefix: &str, a: &[char], b: &[char]) -> (s: String)
    ensures
        s@ == prefix@ + bar(a@, b@),
{
    let mut out = str_chars(prefix);
    push_all(&mut out, a);
    out.push('|');
    push_all(&mut out, b);
    assert(out@ =~= prefix@ + bar(a@, b@));
    string_of(out.as_slice())
}

fn feat3(prefix: &str, a: &[char], b: &[char], c: &[char]) -> (s: String)
    ensures
        s@ == prefix@ + bar(bar(a@, b@), c@),
{
    let mut out = str_chars(prefix);
    push_all(&mut out, a);
    out.push('|');
    push_all(&mut out, b);
    out.push('|');
    push_all(&mut out, c);
    assert(out@ =~= prefix@ + bar(bar(a@, b@), c@));
    string_of(out.as_slice())
}

/// The context feature strings for position `i` of `clusters`.
pub fn features(clusters: &[String], i: usize) -> (out: Vec<String>)
    ensures
        views(out@) == feature_set(views(clusters@), i as int),
{
    let m2 = at_back(clusters, i, 2);
    let m1 = at_back(clusters, i, 1);
    let c0 = at_back(clusters, i, 0);
    let p1 = at_fwd(clusters, i, 1);
    let p2 = at_fwd(clusters, i, 2);
    let k_m1 = class_back(clusters, i, 1);
    let k0 = class_back(clusters, i, 0);
    let k_p1 = class_fwd(clusters, i, 1);
    let mut len_feat = str_chars("L0=");
    push_decimal(&mut len_feat, c0.len() as u64);
    let mut out: Vec<String> = Vec::new();
    out.push(feat1("U0=", c0.as_slice()));
    out.push(feat1("U-1=", m1.as_slice()));
    out.push(feat1("U+1=", p1.as_slice()));
    out.push(feat1("U-2=", m2.as_slice()));
    out.push(feat1("U+2=", p2.as_slice()));
    out.push(feat2("B-1=", m1.as_slice(), c0.as_slice()));
    out.push(feat2("B+1=", c0.as_slice(), p1.as_slice()));
    out.push(feat2("B-2=", m2.as_slice(), m1.as_slice()));
    out.push(feat2("B+2=", p1.as_slice(), p2.as_slice()));
    out.push(feat3("T0=", m1.as_slice(), c0.as_slice(), p1.as_slice()));
    out.push(string_of(len_feat.as_slice()));
    out.push(feat1("C0=", k0.as_slice()));
    out.push(feat1("C-1=", k_m1.as_slice()));
    out.push(feat1("C+1=", k_p1.as_slice()));
    out.push(feat2("CB-1=", k_m1.as_slice(), k0.as_slice()));
    out.push(feat2("CB+1=", k0.as_slice(), k_p1.as_slice()));
    assert(views(out@) =~= feature_set(views(clusters@), i as int));
    out
}

// ---------------------------------------------------------------------------
// Feature-key escaping
// ---------------------------------------------------------------------------

/// The escape of one character: backslash, tab, newline and carriage
/// return become two-character escapes; anything else stands for itself.
pub open spec fn escape_char(c: char) -> Seq<char> {
    if c == '\\' {
        seq!['\\', '\\']
    } else if c == '\t' {
        seq!['\\', 't']
    } else if c == '\n' {
        seq!['\\', 'n']
    } else if c == '\r' {
        seq!['\\', 'r']
    } else {
        seq![c]
    }
}

/// A key with each character escaped.
pub open spec fn escaped(s: Seq<char>) -> Seq<char>
    decreases s.len(),
{
    if s.len() == 0 {
        Seq::empty()
    } else {
        escape_char(s[0]) + escaped(s.drop_first())
    }
}

/// What an escape sequence `\x` stands for: the four known escapes, and
/// anything else passed through as the two characters themselves.
pub open spec fn unescape_pair(x: char) -> Seq<char> {
    if x == '\\' {
        seq!['\\']
    } else if x == 't' {
        seq!['\t']
    } else if x == 'n' {
        seq!['\n']
    } else if x == 'r' {
        seq!['\r']
    } else {
        seq!['\\', x]
    }
}

/// An escaped key read back, left to right; a trailing lone backslash
/// stands for itself.
pub open spec fn unescaped(s: Seq<char>) -> Seq<char>
    decreases s.len(),
{
    if s.len() == 0 {
        Seq::empty()
    } else if s[0] != '\\' {
        seq![s[0]] + unescaped(s.drop_first())
    } else if s.len() == 1 {
        seq!['\\']
    } else {
        unescape_pair(s[1]) + unescaped(s.subrange(2, s.len() as int))
    }
}

/// Escape a feature key for the tab-separated, line-based model text.
pub fn escape_key(key: &str) -> (out: String)
    ensures
        out@ == escaped(key@),
{
    let cs = str_chars(key);
    let n = cs.len();
    let mut out: Vec<char> = Vec::new();
    let mut i: usize = 0;
    assert(cs@.subrange(0, n as int) =~= cs@);
    assert(Seq::<char>::empty() + escaped(cs@) =~= escaped(cs@));
    while i < n
        invariant
            n == cs@.len(),
            cs@ == key@,
            i <= n,
            out@ + escaped(cs@.subrange(i as int, n as int)) == escaped(key@),
        decreases n - i,
    {
        let c = cs[i];
        let ghost t = cs@.subrange(i as int, n as int);
        assert(t.drop_first() =~= cs@.subrange(i + 1, n as int));
        let ghost before = out@;
        if c == '\\' {
            out.push('\\');
            out.push('\\');
        } else if c == '\t' {
            out.push('\\');
            out.push('t');
        } else if c == '\n' {
            out.push('\\');
            out.push('n');
        } else if c == '\r' {
            out.push('\\');
            out.push('r');
        } else {
            out.push(c);
        }
        assert(out@ =~= before + escape_char(c));
        assert(before + (escape_char(c) + escaped(cs@.subrange(i + 1, n as int))) =~= out@
            + escaped(cs@.subrange(i + 1, n as int)));
        i = i + 1;
    }
    assert(cs@.subrange(n as int, n as int) =~= Seq::<char>::empty());
    assert(out@ + Seq::<char>::empty() =~= out@);
    string_of(out.as_slice())
}

/// Read back a key written by [`escape_key`]. Unknown escapes pass
/// through as they are.
pub fn unescape_key(text: &str) -> (out: String)
    ensures
        out@ == unescaped(text@),
{
    let cs = str_chars(text);
    let n = cs.len();
    let mut out: Vec<char> = Vec::new();
    let mut i: usize = 0;
    assert(cs@.subrange(0, n as int) =~= cs@);
    assert(Seq::<char>::empty() + unescaped(cs@) =~= unescaped(cs@));
    while i < n
        invariant
            n == cs@.len(),
            cs@ == text@,
            i <= n,
            out@ + unescaped(cs@.subrange(i as int, n as int)) == unescaped(text@),
        decreases n - i,
    {
        let c = cs[i];
        let ghost t = cs@.subrange(i as int, n as int);
        let ghost before = out@;
        if c != '\\' {
            out.push(c);
            assert(t.drop_first() =~= cs@.subrange(i + 1, n as int));
            assert(before + (seq![c] + unescaped(cs@.subrange(i + 1, n as int))) =~= out@
                + unescaped(cs@.subrange(i + 1, n as int)));
            i = i + 1;
        } else if i + 1 == n {
            out.push('\\');
            assert(cs@.subrange(i + 1, n as int) =~= Seq::<char>::empty());
            assert(before + seq!['\\'] =~= out@ + unescaped(cs@.subrange(i + 1, n as int)));
            i = i + 1;
        } else {
            let x = cs[i + 1];
            if x == '\\' {
                out.push('\\');
            } else if x == 't' {
                out.push('\t');
            } else if x == 'n' {
                out.push('\n');
            } else if x == 'r' {
                out.push('\r');
            } else {
                out.push('\\');
                out.push(x);
            }
            assert(out@ =~= before + unescape_pair(x));
            assert(t.subrange(2, t.len() as int) =~= cs@.subrange(i + 2, n as int));
            assert(before + (unescape_pair(x) + unescaped(cs@.subrange(i + 2, n as int))) =~= out@
                + unescaped(cs@.subrange(i + 2, n as int)));
            i = i + 2;
        }
    }
    assert(cs@.subrange(n as int, n as int) =~= Seq::<char>::empty());
    assert(out@ + Seq::<char>::empty() =~= out@);
    string_of(out.as_slice())
}

/// Escaping never loses a key: reading an escaped key back gives the key.
pub proof fn law_unescape_escaped(s: Seq<char>)
    ensures
        unescaped(escaped(s)) == s,
    decreases s.len(),
{
    if s.len() > 0 {
        let c = s[0];
        let rest = escaped(s.drop_first());
        law_unescape_escaped(s.drop_first());
        let e = escape_char(c) + rest;
        if c == '\\' || c == '\t' || c == '\n' || c == '\r' {
            assert(e[0] == '\\');
            assert(e.subrange(2, e.len() as int) =~= rest);
        } else {
            assert(e.drop_first() =~= rest);
        }
        assert(seq![c] + s.drop_first() =~= s);
    }
}

/// An escaped key holds no tab, newline or carriage return, so it fits in
/// one field of one line.
pub proof fn law_escaped_is_one_field(s: Seq<char>)
    ensures
        !escaped(s).contains('\t'),
        !escaped(s).contains('\n'),
        !escaped(s).contains('\r'),
    decreases s.len(),
{
    if s.len() > 0 {
        law_escaped_is_one_field(s.drop_first());
        let e = escaped(s);
        let a = escape_char(s[0]);
        let b = escaped(s.drop_first());
        assert forall|k: int| 0 <= k < e.len() implies e[k] != '\t' && e[k] != '\n' && e[k]
            != '\r' by {
            if k < a.len() {
                assert(e[k] == a[k]);
            } else {
                assert(e[k] == b[k - a.len()]);
            }
        }
    }
}

// ---------------------------------------------------------------------------
// Deterministic shuffling
// ---------------------------------------------------------------------------

/// The xorshift step applied to the state.
pub open spec fn scrambled(x: u64) -> u64 {
    let a = x ^ (x << 13u64);
    let b = a ^ (a >> 7u64);
    b ^ (b << 17u64)
}

/// The multiplier of the xorshift64* output.
pub const XORSHIFT_MULTIPLIER: u64 = 0x2545_F491_4F6C_DD1D;

/// The value drawn from state `x`.
pub open spec fn drawn(x: u64) -> u64 {
    vstd::wrapping::u64_specs::wrapping_mul(scrambled(x), XORSHIFT_MULTIPLIER)
}

/// A deterministic xorshift64* generator: training must be reproducible,
/// so it never draws on outside entropy.
pub struct XorShift64 {
    pub state: u64,
}

/// The sequence after the Fisher-Yates passes for positions `i` down to
/// 1, drawing from `state`; with the state left after them.
pub open spec fn shuffled(s: Seq<usize>, state: u64, i: nat) -> (Seq<usize>, u64)
    decreases i,
{
    if i == 0 || i >= s.len() {
        (s, state)
    } else {
        let j = (drawn(state) as nat % (i + 1)) as int;
        let t = s.update(i as int, s[j]).update(j, s[i as int]);
        shuffled(t, scrambled(state), (i - 1) as nat)
    }
}

impl XorShift64 {
    /// A generator starting from `seed`.
    pub fn new(seed: u64) -> (g: Self)
        ensures
            g.state == seed,
    {
        XorShift64 { state: seed }
    }

    /// Advance the state and draw the next value.
    pub fn next(&mut self) -> (r: u64)
        ensures
            final(self).state == scrambled(old(self).state),
            r == drawn(old(self).state),
    {
        let mut x = self.state;
        x = x ^ (x << 13u64);
        x = x ^ (x >> 7u64);
        x = x ^ (x << 17u64);
        self.state = x;
        x.wrapping_mul(XORSHIFT_MULTIPLIER)
    }

    /// Shuffle `items` in place with the Fisher-Yates algorithm.
    pub fn shuffle(&mut self, items: &mut Vec<usize>)
        ensures
            (final(items)@, final(self).state) == shuffled(
                old(items)@,
                old(self).state,
                if old(items)@.len() > 0 {
                    (old(items)@.len() - 1) as nat
                } else {
                    0
                },
            ),
            final(items)@.to_multiset() == old(items)@.to_multiset(),
    {
        let n = items.len();
        if n == 0 {
            return;
        }
        let mut i: usize = n - 1;
        while i > 0
            invariant
                items@.len() == n,
                i < n,
                shuffled(items@, self.state, i as nat) == shuffled(
                    old(items)@,
                    old(self).state,
                    (n - 1) as nat,
                ),
                items@.to_multiset() == old(items)@.to_multiset(),
            decreases i,
        {
            let ghost st = self.state;
            let r = self.next();
            let j = (r % (i as u64 + 1)) as usize;
            let a = items[i];
            let b = items[j];
            let ghost before = items@;
            items.set(i, b);
            items.set(j, a);
            proof {
                assert(items@ =~= before.update(i as int, before[j as int]).update(
                    j as int,
                    before[i as int],
                ));
                lemma_swap_multiset(before, i as int, j as int);
            }
            i = i - 1;
        }
    }
}

proof fn lemma_swap_multiset(s: Seq<usize>, i: int, j: int)
    requires
        0 <= i < s.len(),
        0 <= j < s.len(),
    ensures
        s.update(i, s[j]).update(j, s[i]).to_multiset() == s.to_multiset(),
{
    broadcast use vstd::seq_lib::group_to_multiset_ensures;

    let t = s.update(i, s[j]);
    assert(t.to_multiset() =~= s.to_multiset().remove(s[i]).insert(s[j]));
    let u = t.update(j, s[i]);
    assert(t[j] == s[j]);
    assert(u.to_multiset() =~= t.to_multiset().remove(s[j]).insert(s[i]));
}

} // verus!
