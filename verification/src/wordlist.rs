//! Dictionary preparation: cleaning a raw word list and rendering the
//! dictionary text file, plus the first-occurrence deduplication and
//! occurrence counting that corpus statistics share.

use vstd::prelude::*;
use crate::dictionary::{dict_entries, entries_of};
use crate::text::{
    views, vviews, str_chars, lines, trim, chars_eq, push_all, push_str_chars, push_decimal,
    decimal, digit_of, string_of, to_strings, is_ws, trim_start, trim_end, trimmed, starts_with,
    Sep, find_from, lines_from, lines_of, strip_cr, lemma_find_from_bounds,
};

verus! {

/// `s` with every repeated element dropped, keeping first occurrences in
/// order.
pub open spec fn dedup_first<T>(s: Seq<T>) -> Seq<T>
    decreases s.len(),
{
    if s.len() == 0 {
        Seq::empty()
    } else if s.drop_last().contains(s.last()) {
        dedup_first(s.drop_last())
    } else {
        dedup_first(s.drop_last()).push(s.last())
    }
}

/// How many times `x` occurs in `s`.
pub open spec fn occurrences<T>(s: Seq<T>, x: T) -> nat
    decreases s.len(),
{
    if s.len() == 0 {
        0
    } else {
        occurrences(s.drop_last(), x) + if s.last() == x {
            1nat
        } else {
            0nat
        }
    }
}

/// Deduplication keeps exactly the elements, each once.
pub proof fn lemma_dedup_first<T>(s: Seq<T>)
    ensures
        dedup_first(s).no_duplicates(),
        forall|x: T| dedup_first(s).contains(x) <==> s.contains(x),
        dedup_first(s).len() <= s.len(),
    decreases s.len(),
{
    if s.len() > 0 {
        let init = s.drop_last();
        lemma_dedup_first(init);
        assert(init.push(s.last()) =~= s);
        assert forall|x: T| s.contains(x) <==> init.contains(x) || x == s.last() by {
            if s.contains(x) {
                let k = s.index_of(x);
                if k < init.len() {
                    assert(init[k] == x);
                }
            }
            if init.contains(x) {
                let k = init.index_of(x);
                assert(s[k] == x);
            }
            if x == s.last() {
                assert(s[s.len() - 1] == x);
            }
        }
        if !init.contains(s.last()) {
            let d = dedup_first(init);
            let e = d.push(s.last());
            assert forall|x: T| e.contains(x) <==> d.contains(x) || x == s.last() by {
                if e.contains(x) {
                    let k = e.index_of(x);
                    if k < d.len() {
                        assert(d[k] == x);
                    }
                }
                if d.contains(x) {
                    let k = d.index_of(x);
                    assert(e[k] == x);
                }
                if x == s.last() {
                    assert(e[e.len() - 1] == x);
                }
            }
        }
    }
}

/// An element occurs at most as often as the sequence is long.
pub proof fn lemma_occurrences_bound<T>(s: Seq<T>, x: T)
    ensures
        occurrences(s, x) <= s.len(),
    decreases s.len(),
{
    if s.len() > 0 {
        lemma_occurrences_bound(s.drop_last(), x);
    }
}

/// The entries of a raw word list, trimmed, blank and comment lines
/// skipped, each kept once at its first occurrence.
pub open spec fn cleaned(raw: Seq<char>) -> Seq<Seq<char>> {
    dedup_first(dict_entries(raw))
}

fn index_in(v: &Vec<Vec<char>>, w: &[char]) -> (r: Option<usize>)
    ensures
        match r {
            Some(k) => k < v@.len() && v@[k as int]@ == w@,
            None => !vviews(v@).contains(w@),
        },
{
    let mut k: usize = 0;
    while k < v.len()
        invariant
            k <= v@.len(),
            forall|j: int| 0 <= j < k ==> v@[j]@ != w@,
        decreases v.len() - k,
    {
        if chars_eq(v[k].as_slice(), w) {
            return Some(k);
        }
        k = k + 1;
    }
    proof {
        if vviews(v@).contains(w@) {
            let j = vviews(v@).index_of(w@);
            assert(v@[j]@ == w@);
        }
    }
    None
}

/// Clean a raw one-word-per-line word list: trim, drop blank and comment
/// lines, and keep the first occurrence of each word, in source order.
pub fn clean_wordlist(raw: &str) -> (words: Vec<String>)
    ensures
        views(words@) == cleaned(raw@),
{
    let cs = str_chars(raw);
    let ls = lines(cs.as_slice());
    let mut seen: Vec<Vec<char>> = Vec::new();
    let ghost mut entries: Seq<Seq<char>> = Seq::empty();
    let mut i: usize = 0;
    while i < ls.len()
        invariant
            i <= ls@.len(),
            vviews(ls@) == crate::text::lines_of(raw@),
            entries == crate::dictionary::entries_of(vviews(ls@).take(i as int)),
            vviews(seen@) == dedup_first(entries),
        decreases ls.len() - i,
    {
        let t = trim(ls[i].as_slice());
        proof {
            assert(vviews(ls@).take(i + 1).drop_last() =~= vviews(ls@).take(i as int));
            assert(vviews(ls@).take(i + 1).last() == ls@[i as int]@);
        }
        if t.len() > 0 && t[0] != '#' {
            let found = index_in(&seen, t.as_slice());
            proof {
                lemma_dedup_first(entries);
                let next = entries.push(t@);
                assert(next.drop_last() =~= entries);
            }
            match found {
                Some(k) => {
                    proof {
                        assert(vviews(seen@)[k as int] == t@);
                        assert(entries.contains(t@));
                        entries = entries.push(t@);
                    }
                },
                None => {
                    let ghost before = vviews(seen@);
                    seen.push(t);
                    proof {
                        entries = entries.push(t@);
                    }
                    assert(vviews(seen@) =~= before.push(entries.last()));
                },
            }
        }
        i = i + 1;
    }
    assert(vviews(ls@).take(i as int) =~= vviews(ls@));
    to_strings(&seen)
}

/// The header of the dictionary file for `n` words: comment lines
/// recording the format, the word count and the provenance, then a blank
/// line.
pub open spec fn dict_header(n: nat) -> Seq<char> {
    "# Khmer dictionary for khmer-tokenizer-core."@ + seq!['\n']
        + "# One word per line. Blank lines and lines starting with '#' are ignored."@ + seq![
        '\n',
    ] + "#"@ + seq!['\n'] + "# "@ + decimal(n)
        + " words, sourced from chamkho's khmerdict.txt (MIT license, copyright"@ + seq!['\n']
        + "# SIL NRSI) via `cargo xtask prepare-dict`. See core/ATTRIBUTION.md."@ + seq!['\n']
        + seq!['\n']
}

/// Each word followed by a newline.
pub open spec fn word_lines(ws: Seq<Seq<char>>) -> Seq<char>
    decreases ws.len(),
{
    if ws.len() == 0 {
        Seq::empty()
    } else {
        word_lines(ws.drop_last()) + ws.last() + seq!['\n']
    }
}

/// Render a cleaned word list as the dictionary file: a header recording
/// the word count and provenance, then one word per line.
pub fn render_dict_txt(words: &[String]) -> (out: String)
    ensures
        out@ == dict_header(words@.len()) + word_lines(views(words@)),
{
    let mut out = str_chars("# Khmer dictionary for khmer-tokenizer-core.");
    out.push('\n');
    push_str_chars(
        &mut out,
        "# One word per line. Blank lines and lines starting with '#' are ignored.",
    );
    out.push('\n');
    push_str_chars(&mut out, "#");
    out.push('\n');
    push_str_chars(&mut out, "# ");
    push_decimal(&mut out, words.len() as u64);
    push_str_chars(
        &mut out,
        " words, sourced from chamkho's khmerdict.txt (MIT license, copyright",
    );
    out.push('\n');
    push_str_chars(&mut out, "# SIL NRSI) via `cargo xtask prepare-dict`. See core/ATTRIBUTION.md.");
    out.push('\n');
    out.push('\n');
    assert(out@ =~= dict_header(words@.len()) + word_lines(views(words@).take(0)));
    let mut i: usize = 0;
    while i < words.len()
        invariant
            i <= words@.len(),
            out@ == dict_header(words@.len()) + word_lines(views(words@).take(i as int)),
        decreases words.len() - i,
    {
        let ghost before = out@;
        push_str_chars(&mut out, words[i].as_str());
        out.push('\n');
        proof {
            let ws = views(words@);
            assert(ws.take(i + 1).drop_last() =~= ws.take(i as int));
            assert(ws.take(i + 1).last() == words@[i as int]@);
        }
        assert(out@ =~= dict_header(words@.len()) + word_lines(views(words@).take(i + 1)));
        i = i + 1;
    }
    assert(views(words@).take(i as int) =~= views(words@));
    string_of(out.as_slice())
}


/// A cleaned word list holds every entry of the raw list exactly once:
/// nothing repeats, and a word is in it exactly when it is an entry.
pub proof fn law_cleaned_unique(raw: Seq<char>)
    ensures
        cleaned(raw).no_duplicates(),
        forall|w: Seq<char>| cleaned(raw).contains(w) <==> dict_entries(raw).contains(w),
{
    lemma_dedup_first(dict_entries(raw));
}


// ---------------------------------------------------------------------------
// A rendered list reads back as the list
// ---------------------------------------------------------------------------

/// `s` holds no newline.
pub open spec fn one_line(s: Seq<char>) -> bool {
    forall|j: int| 0 <= j < s.len() ==> s[j] != '\n'
}

/// A word as a cleaned list holds it: non-empty, already trimmed, not a
/// comment, and on one line.
pub open spec fn plain_word(w: Seq<char>) -> bool {
    &&& w.len() > 0
    &&& trimmed(w) == w
    &&& w[0] != '#'
    &&& one_line(w)
}

proof fn lemma_trim_start_shape(s: Seq<char>) -> (k: int)
    ensures
        0 <= k <= s.len(),
        trim_start(s) == s.subrange(k, s.len() as int),
        trim_start(s).len() > 0 ==> !is_ws(trim_start(s)[0]),
    decreases s.len(),
{
    if s.len() > 0 && is_ws(s[0]) {
        let k = lemma_trim_start_shape(s.drop_first());
        assert(s.drop_first().subrange(k, s.len() - 1) =~= s.subrange(k + 1, s.len() as int));
        k + 1
    } else {
        assert(s.subrange(0, s.len() as int) =~= s);
        0
    }
}

proof fn lemma_trim_end_shape(t: Seq<char>) -> (m: int)
    ensures
        0 <= m <= t.len(),
        trim_end(t) == t.subrange(0, m),
        trim_end(t).len() > 0 ==> !is_ws(trim_end(t).last()),
    decreases t.len(),
{
    if t.len() > 0 && is_ws(t.last()) {
        let m = lemma_trim_end_shape(t.drop_last());
        assert(t.drop_last().subrange(0, m) =~= t.subrange(0, m));
        m
    } else {
        assert(t.subrange(0, t.len() as int) =~= t);
        t.len() as int
    }
}

/// What trimming leaves has no whitespace at either end, so trimming it
/// again leaves it as it is.
proof fn lemma_trimmed_twice(s: Seq<char>)
    ensures
        trimmed(trimmed(s)) == trimmed(s),
        trimmed(s).len() > 0 ==> !is_ws(trimmed(s)[0]) && !is_ws(trimmed(s).last()),
{
    let u = trim_start(s);
    lemma_trim_start_shape(s);
    let m = lemma_trim_end_shape(u);
    let t = trimmed(s);
    if t.len() > 0 {
        assert(t[0] == u[0]);
        assert(trim_start(t) == t);
        lemma_trim_end_shape(t);
        assert(trim_end(t) == t);
    } else {
        assert(trim_start(t) == t);
    }
}

/// A line that starts with `#` trims to nothing or to a comment.
proof fn lemma_comment_trims(x: Seq<char>)
    requires
        x.len() > 0,
        x[0] == '#',
    ensures
        trimmed(x).len() == 0 || starts_with(trimmed(x), '#'),
{
    assert(trim_start(x) == x);
    lemma_trim_end_shape(x);
}

/// A list of words read back from its rendering: a trimmed, non-empty
/// word that is not a comment is its own entry.
proof fn lemma_plain_entries(ws: Seq<Seq<char>>)
    requires
        forall|k: int| 0 <= k < ws.len() ==> plain_word(#[trigger] ws[k]),
    ensures
        entries_of(ws) == ws,
    decreases ws.len(),
{
    if ws.len() > 0 {
        let init = ws.drop_last();
        assert forall|k: int| 0 <= k < init.len() implies plain_word(#[trigger] init[k]) by {
            assert(init[k] == ws[k]);
        }
        lemma_plain_entries(init);
        assert(plain_word(ws[ws.len() - 1]));
        assert(init.push(ws.last()) =~= ws);
    }
}

proof fn lemma_entries_append(a: Seq<Seq<char>>, b: Seq<Seq<char>>)
    ensures
        entries_of(a + b) == entries_of(a) + entries_of(b),
    decreases b.len(),
{
    if b.len() == 0 {
        assert(a + b =~= a);
        assert(entries_of(a) + entries_of(b) =~= entries_of(a));
    } else {
        lemma_entries_append(a, b.drop_last());
        assert((a + b).drop_last() =~= a + b.drop_last());
        assert((a + b).last() == b.last());
        let t = trimmed(b.last());
        if t.len() > 0 && !starts_with(t, '#') {
            assert(entries_of(a) + entries_of(b.drop_last()).push(t) =~= (entries_of(a)
                + entries_of(b.drop_last())).push(t));
        }
    }
}

proof fn lemma_find_at(s: Seq<char>, i: int, k: int)
    requires
        0 <= i <= k < s.len(),
        s[k] == '\n',
        forall|j: int| i <= j < k ==> s[j] != '\n',
    ensures
        find_from(s, i, Sep::Char('\n')) == k,
    decreases k - i,
{
    if i < k {
        lemma_find_at(s, i + 1, k);
    }
}

proof fn lemma_find_shift(p: Seq<char>, q: Seq<char>, j: int)
    requires
        0 <= j <= q.len(),
    ensures
        find_from(p + q, p.len() + j, Sep::Char('\n')) == p.len() + find_from(
            q,
            j,
            Sep::Char('\n'),
        ),
    decreases q.len() - j,
{
    if j < q.len() {
        assert((p + q)[p.len() + j] == q[j]);
        lemma_find_shift(p, q, j + 1);
        assert(p.len() + j + 1 == p.len() + (j + 1));
    }
}

proof fn lemma_lines_shift(p: Seq<char>, q: Seq<char>, j: int)
    requires
        0 <= j <= q.len(),
    ensures
        lines_from(p + q, p.len() + j) == lines_from(q, j),
    decreases q.len() - j,
{
    let s = p + q;
    let n = p.len() as int;
    if j < q.len() {
        lemma_find_shift(p, q, j);
        lemma_find_from_bounds(q, j, Sep::Char('\n'));
        let k = find_from(q, j, Sep::Char('\n'));
        assert(s.subrange(n + j, n + k) =~= q.subrange(j, k));
        if k < q.len() {
            lemma_lines_shift(p, q, k + 1);
            assert(n + k + 1 == n + (k + 1));
        } else {
            assert(s.subrange(n + j, s.len() as int) =~= q.subrange(j, q.len() as int));
        }
    }
}

/// Lines of text that ends in a newline, followed by more text: its lines,
/// then the lines of the rest.
proof fn lemma_lines_append(a: Seq<char>, b: Seq<char>, i: int)
    requires
        a.len() > 0,
        a.last() == '\n',
        0 <= i <= a.len(),
    ensures
        lines_from(a + b, i) == lines_from(a, i) + lines_of(b),
    decreases a.len() - i,
{
    let s = a + b;
    if i == a.len() {
        lemma_lines_shift(a, b, 0);
        assert(lines_from(a, i) + lines_of(b) =~= lines_of(b));
    } else {
        lemma_find_from_bounds(a, i, Sep::Char('\n'));
        let k = find_from(a, i, Sep::Char('\n'));
        assert(k < a.len()) by {
            if k >= a.len() {
                assert(a[a.len() - 1] == '\n');
            }
        }
        lemma_find_at(s, i, k);
        assert(s.subrange(i, k) =~= a.subrange(i, k));
        lemma_lines_append(a, b, k + 1);
        assert(lines_from(s, i) == seq![strip_cr(a.subrange(i, k))] + lines_from(s, k + 1));
        assert(lines_from(a, i) == seq![strip_cr(a.subrange(i, k))] + lines_from(a, k + 1));
        assert(seq![strip_cr(a.subrange(i, k))] + (lines_from(a, k + 1) + lines_of(b))
            =~= seq![strip_cr(a.subrange(i, k))] + lines_from(a, k + 1) + lines_of(b));
    }
}

/// One line and a newline, then the rest.
proof fn lemma_line_then(x: Seq<char>, r: Seq<char>)
    requires
        one_line(x),
    ensures
        lines_of(x + seq!['\n'] + r) == seq![strip_cr(x)] + lines_of(r),
{
    let a = x + seq!['\n'];
    lemma_lines_append(a, r, 0);
    lemma_find_at(a, 0, x.len() as int);
    assert(a.subrange(0, x.len() as int) =~= x);
    assert(lines_from(a, x.len() + 1int) =~= Seq::<Seq<char>>::empty());
}

proof fn lemma_decimal_one_line(n: nat)
    ensures
        one_line(decimal(n)),
        decimal(n).len() > 0,
    decreases n,
{
    if n >= 10 {
        lemma_decimal_one_line(n / 10);
        assert(digit_of(n % 10) != '\n');
    } else {
        assert(digit_of(n) != '\n');
    }
}

/// The lines of a comment line and a newline, then the rest: no entry
/// comes from it.
proof fn lemma_comment_then(x: Seq<char>, r: Seq<char>)
    requires
        one_line(x),
        x.len() > 0,
        x[0] == '#',
        !is_ws(x.last()),
    ensures
        entries_of(lines_of(x + seq!['\n'] + r)) == entries_of(lines_of(r)),
{
    lemma_line_then(x, r);
    assert(strip_cr(x) == x);
    lemma_entries_append(seq![x], lines_of(r));
    lemma_comment_trims(x);
    assert(seq![x].drop_last() =~= Seq::<Seq<char>>::empty());
    assert(seq![x].last() == x);
    assert(entries_of(Seq::<Seq<char>>::empty()) =~= Seq::<Seq<char>>::empty());
    assert(entries_of(seq![x]) =~= Seq::<Seq<char>>::empty());
    assert(Seq::<Seq<char>>::empty() + entries_of(lines_of(r)) =~= entries_of(lines_of(r)));
}

proof fn lemma_word_lines(ws: Seq<Seq<char>>)
    requires
        forall|k: int| 0 <= k < ws.len() ==> plain_word(#[trigger] ws[k]),
    ensures
        lines_of(word_lines(ws)) == ws,
    decreases ws.len(),
{
    if ws.len() == 0 {
        assert(lines_of(Seq::<char>::empty()) =~= Seq::<Seq<char>>::empty());
    } else {
        let init = ws.drop_last();
        let w = ws.last();
        assert(plain_word(ws[ws.len() - 1]));
        assert forall|k: int| 0 <= k < init.len() implies plain_word(#[trigger] init[k]) by {
            assert(init[k] == ws[k]);
        }
        lemma_word_lines(init);
        lemma_trimmed_twice(w);
        assert(strip_cr(w) == w);
        lemma_line_then(w, Seq::empty());
        assert(w + seq!['\n'] + Seq::<char>::empty() =~= w + seq!['\n']);
        assert(lines_of(Seq::<char>::empty()) =~= Seq::<Seq<char>>::empty());
        let wl = word_lines(init);
        if init.len() == 0 {
            assert(wl =~= Seq::<char>::empty());
            assert(word_lines(ws) =~= w + seq!['\n']);
            assert(seq![w] + Seq::<Seq<char>>::empty() =~= ws);
        } else {
            assert(wl.last() == '\n');
            assert(word_lines(ws) =~= wl + (w + seq!['\n']));
            lemma_lines_append(wl, w + seq!['\n'], 0);
            assert(init + (seq![w] + Seq::<Seq<char>>::empty()) =~= ws);
        }
    }
}

/// The entries of a header followed by word lines are the words.
proof fn lemma_header_entries(n: nat, r: Seq<char>)
    ensures
        entries_of(lines_of(dict_header(n) + r)) == entries_of(lines_of(r)),
{
    let nl = seq!['\n'];
    let x1 = "# Khmer dictionary for khmer-tokenizer-core."@;
    let x2 = "# One word per line. Blank lines and lines starting with '#' are ignored."@;
    let x3 = "#"@;
    let p4 = "# "@;
    let q4 = " words, sourced from chamkho's khmerdict.txt (MIT license, copyright"@;
    let x5 = "# SIL NRSI) via `cargo xtask prepare-dict`. See core/ATTRIBUTION.md."@;
    reveal_strlit("# Khmer dictionary for khmer-tokenizer-core.");
    reveal_strlit("# One word per line. Blank lines and lines starting with '#' are ignored.");
    reveal_strlit("#");
    reveal_strlit("# ");
    reveal_strlit(" words, sourced from chamkho's khmerdict.txt (MIT license, copyright");
    reveal_strlit("# SIL NRSI) via `cargo xtask prepare-dict`. See core/ATTRIBUTION.md.");
    lemma_decimal_one_line(n);
    let d = decimal(n);
    let x4 = p4 + d + q4;
    assert(one_line(x1));
    assert(one_line(x2));
    assert(one_line(x3));
    assert(one_line(x5));
    assert(one_line(p4));
    assert(one_line(q4));
    assert(one_line(x4)) by {
        assert forall|j: int| 0 <= j < x4.len() implies x4[j] != '\n' by {
            if j < p4.len() {
                assert(x4[j] == p4[j]);
            } else if j < p4.len() + d.len() {
                assert(x4[j] == d[j - p4.len()]);
            } else {
                assert(x4[j] == q4[j - p4.len() - d.len()]);
            }
        }
    }
    assert(x4[0] == '#');
    assert(x4.last() == q4.last());
    let r6 = nl + r;
    let r5 = x5 + nl + r6;
    let r4 = x4 + nl + r5;
    let r3 = x3 + nl + r4;
    let r2 = x2 + nl + r3;
    assert(dict_header(n) + r =~= x1 + nl + r2);
    lemma_comment_then(x1, r2);
    lemma_comment_then(x2, r3);
    lemma_comment_then(x3, r4);
    lemma_comment_then(x4, r5);
    lemma_comment_then(x5, r6);
    lemma_line_then(Seq::empty(), r);
    assert(Seq::<char>::empty() + nl + r =~= r6);
    assert(strip_cr(Seq::<char>::empty()) =~= Seq::<char>::empty());
    let e = Seq::<char>::empty();
    lemma_entries_append(seq![e], lines_of(r));
    assert(seq![e].drop_last() =~= Seq::<Seq<char>>::empty());
    assert(trimmed(e) =~= e);
    assert(seq![e].last() == e);
    assert(entries_of(Seq::<Seq<char>>::empty()) =~= Seq::<Seq<char>>::empty());
    assert(entries_of(seq![e]) =~= Seq::<Seq<char>>::empty());
    assert(Seq::<Seq<char>>::empty() + entries_of(lines_of(r)) =~= entries_of(lines_of(r)));
}

proof fn lemma_lines_one_line(s: Seq<char>, i: int)
    requires
        0 <= i,
    ensures
        forall|k: int| 0 <= k < lines_from(s, i).len() ==> one_line(#[trigger] lines_from(s, i)[k]),
    decreases s.len() - i,
{
    if i < s.len() {
        lemma_find_from_bounds(s, i, Sep::Char('\n'));
        let k = find_from(s, i, Sep::Char('\n'));
        let l = s.subrange(i, if k < s.len() { k } else { s.len() as int });
        assert(one_line(l)) by {
            assert forall|j: int| 0 <= j < l.len() implies l[j] != '\n' by {
                assert(l[j] == s[i + j]);
            }
        }
        assert(one_line(strip_cr(l))) by {
            assert forall|j: int| 0 <= j < strip_cr(l).len() implies strip_cr(l)[j] != '\n' by {
                assert(strip_cr(l)[j] == l[j]);
            }
        }
        if k < s.len() {
            lemma_lines_one_line(s, k + 1);
            let all = lines_from(s, i);
            assert(all == seq![strip_cr(l)] + lines_from(s, k + 1));
            assert forall|m: int| 0 <= m < all.len() implies one_line(#[trigger] all[m]) by {
                if m > 0 {
                    assert(all[m] == lines_from(s, k + 1)[m - 1]);
                }
            }
        }
    }
}

proof fn lemma_entries_plain(ls: Seq<Seq<char>>)
    requires
        forall|k: int| 0 <= k < ls.len() ==> one_line(#[trigger] ls[k]),
    ensures
        forall|k: int| 0 <= k < entries_of(ls).len() ==> plain_word(#[trigger] entries_of(ls)[k]),
    decreases ls.len(),
{
    if ls.len() > 0 {
        let init = ls.drop_last();
        assert forall|k: int| 0 <= k < init.len() implies one_line(#[trigger] init[k]) by {
            assert(init[k] == ls[k]);
        }
        lemma_entries_plain(init);
        let l = ls.last();
        assert(one_line(ls[ls.len() - 1]));
        let t = trimmed(l);
        if t.len() > 0 && !starts_with(t, '#') {
            lemma_trimmed_twice(l);
            let k = lemma_trim_start_shape(l);
            let m = lemma_trim_end_shape(trim_start(l));
            assert(one_line(t)) by {
                assert forall|j: int| 0 <= j < t.len() implies t[j] != '\n' by {
                    assert(t[j] == l[k + j]);
                }
            }
            let all = entries_of(ls);
            assert(all == entries_of(init).push(t));
            assert forall|q: int| 0 <= q < all.len() implies plain_word(#[trigger] all[q]) by {
                if q < all.len() - 1 {
                    assert(all[q] == entries_of(init)[q]);
                }
            }
        }
    }
}

proof fn lemma_dedup_no_duplicates<T>(s: Seq<T>)
    requires
        s.no_duplicates(),
    ensures
        dedup_first(s) == s,
    decreases s.len(),
{
    if s.len() > 0 {
        let init = s.drop_last();
        lemma_dedup_first(init);
        assert(!init.contains(s.last())) by {
            if init.contains(s.last()) {
                let k = init.index_of(s.last());
                assert(s[k] == s[s.len() - 1]);
            }
        }
        lemma_dedup_no_duplicates(init);
        assert(init.push(s.last()) =~= s);
    }
}

/// A cleaned word list survives rendering: cleaning the rendered
/// dictionary file gives back exactly the list, in order, whatever word
/// count the header records.
pub proof fn law_rendered_list_reads_back(raw: Seq<char>, n: nat)
    ensures
        cleaned(dict_header(n) + word_lines(cleaned(raw))) == cleaned(raw),
{
    let ws = cleaned(raw);
    let es = dict_entries(raw);
    law_cleaned_unique(raw);
    lemma_lines_one_line(raw, 0);
    lemma_entries_plain(lines_of(raw));
    assert forall|k: int| 0 <= k < ws.len() implies plain_word(#[trigger] ws[k]) by {
        assert(ws.contains(ws[k]));
        assert(es.contains(ws[k]));
        let j = es.index_of(ws[k]);
        assert(plain_word(es[j]));
    }
    lemma_header_entries(n, word_lines(ws));
    lemma_word_lines(ws);
    lemma_plain_entries(ws);
    lemma_dedup_no_duplicates(ws);
}

} // verus!
