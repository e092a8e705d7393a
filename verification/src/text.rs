//! Character-level building blocks shared by every stage: turning strings
//! into character sequences and back, and the pieces of `str` behaviour
//! (whitespace, trimming, lines, splitting, replacing, number parsing and
//! printing) that the pipeline relies on, each stated over `Seq<char>`.

use vstd::prelude::*;

verus! {

/// Appending one character to a `String` extends its character sequence by
/// that character (std's `String::push`).
pub assume_specification[ String::push ](s: &mut String, ch: char)
    ensures
        final(s)@ == old(s)@.push(ch),
;

/// The character views of a sequence of strings.
pub open spec fn views(v: Seq<String>) -> Seq<Seq<char>> {
    v.map_values(|s: String| s@)
}

/// The views of a sequence of character vectors.
pub open spec fn vviews(v: Seq<Vec<char>>) -> Seq<Seq<char>> {
    v.map_values(|s: Vec<char>| s@)
}

/// The character views of a sequence of string slices.
pub open spec fn str_views(v: Seq<&str>) -> Seq<Seq<char>> {
    v.map_values(|s: &str| s@)
}

/// Unicode `White_Space`, the set `char::is_whitespace` tests.
pub open spec fn is_ws(c: char) -> bool {
    let u = c as u32;
    (0x9 <= u && u <= 0xD) || u == 0x20 || u == 0x85 || u == 0xA0 || u == 0x1680 || (0x2000 <= u
        && u <= 0x200A) || u == 0x2028 || u == 0x2029 || u == 0x202F || u == 0x205F || u == 0x3000
}

/// Whether `c` is Unicode whitespace.
pub fn is_whitespace(c: char) -> (b: bool)
    ensures
        b == is_ws(c),
{
    let u = c as u32;
    (0x9 <= u && u <= 0xD) || u == 0x20 || u == 0x85 || u == 0xA0 || u == 0x1680 || (0x2000 <= u
        && u <= 0x200A) || u == 0x2028 || u == 0x2029 || u == 0x202F || u == 0x205F || u == 0x3000
}

/// The characters of `s`, in order.
pub fn str_chars(s: &str) -> (out: Vec<char>)
    ensures
        out@ == s@,
{
    let mut out: Vec<char> = Vec::new();
    for c in it: s.chars()
        invariant
            out@ == it.seq().take(it.index() as int),
    {
        out.push(c);
    }
    out
}

/// A `String` holding exactly the characters `cs`.
pub fn string_of(cs: &[char]) -> (s: String)
    ensures
        s@ == cs@,
{
    let mut s = String::new();
    let mut i: usize = 0;
    while i < cs.len()
        invariant
            i <= cs.len(),
            s@ == cs@.take(i as int),
        decreases cs.len() - i,
    {
        s.push(cs[i]);
        i = i + 1;
        assert(s@ =~= cs@.take(i as int));
    }
    assert(cs@.take(i as int) =~= cs@);
    s
}

/// An owned copy of `s`.
pub fn owned(s: &str) -> (r: String)
    ensures
        r@ == s@,
{
    let cs = str_chars(s);
    string_of(cs.as_slice())
}

/// Append the characters of `s` to `out`.
pub fn push_all(out: &mut Vec<char>, s: &[char])
    ensures
        final(out)@ == old(out)@ + s@,
{
    let mut i: usize = 0;
    while i < s.len()
        invariant
            i <= s.len(),
            out@ == old(out)@ + s@.take(i as int),
        decreases s.len() - i,
    {
        out.push(s[i]);
        i = i + 1;
        assert(out@ =~= old(out)@ + s@.take(i as int));
    }
    assert(s@.take(i as int) =~= s@);
}

/// The characters `s[from..to]` as a new vector.
pub fn copy_range(s: &[char], from: usize, to: usize) -> (out: Vec<char>)
    requires
        from <= to <= s.len(),
    ensures
        out@ == s@.subrange(from as int, to as int),
{
    let mut out: Vec<char> = Vec::new();
    let mut i: usize = from;
    while i < to
        invariant
            from <= i <= to <= s.len(),
            out@ == s@.subrange(from as int, i as int),
        decreases to - i,
    {
        out.push(s[i]);
        i = i + 1;
        assert(out@ =~= s@.subrange(from as int, i as int));
    }
    out
}

/// Whether two character slices hold the same characters.
pub fn chars_eq(a: &[char], b: &[char]) -> (r: bool)
    ensures
        r == (a@ == b@),
{
    if a.len() != b.len() {
        return false;
    }
    let mut i: usize = 0;
    while i < a.len()
        invariant
            a.len() == b.len(),
            i <= a.len(),
            a@.take(i as int) == b@.take(i as int),
        decreases a.len() - i,
    {
        if a[i] != b[i] {
            assert(a@[i as int] != b@[i as int]);
            return false;
        }
        i = i + 1;
        assert(a@.take(i as int) =~= a@.take(i as int - 1).push(a@[i - 1]));
        assert(b@.take(i as int) =~= b@.take(i as int - 1).push(b@[i - 1]));
    }
    assert(a@ =~= a@.take(i as int));
    assert(b@ =~= b@.take(i as int));
    true
}

/// Whether two strings are equal.
pub fn str_eq(a: &str, b: &str) -> (r: bool)
    ensures
        r == (a@ == b@),
{
    let x = str_chars(a);
    let y = str_chars(b);
    chars_eq(x.as_slice(), y.as_slice())
}

// ---------------------------------------------------------------------------
// Trimming
// ---------------------------------------------------------------------------

/// `s` without its leading whitespace.
pub open spec fn trim_start(s: Seq<char>) -> Seq<char>
    decreases s.len(),
{
    if s.len() > 0 && is_ws(s[0]) {
        trim_start(s.drop_first())
    } else {
        s
    }
}

/// `s` without its trailing whitespace.
pub open spec fn trim_end(s: Seq<char>) -> Seq<char>
    decreases s.len(),
{
    if s.len() > 0 && is_ws(s.last()) {
        trim_end(s.drop_last())
    } else {
        s
    }
}

/// `s` without leading or trailing whitespace (`str::trim`).
pub open spec fn trimmed(s: Seq<char>) -> Seq<char> {
    trim_end(trim_start(s))
}

/// `s` with leading and trailing whitespace removed.
pub fn trim(s: &[char]) -> (out: Vec<char>)
    ensures
        out@ == trimmed(s@),
{
    let n = s.len();
    let mut a: usize = 0;
    assert(s@.skip(0) =~= s@);
    while a < n && is_whitespace(s[a])
        invariant
            a <= n,
            n == s.len(),
            trim_start(s@) == trim_start(s@.skip(a as int)),
        decreases n - a,
    {
        assert(s@.skip(a as int).drop_first() =~= s@.skip(a as int + 1));
        a = a + 1;
    }
    assert(trim_start(s@) == s@.subrange(a as int, n as int)) by {
        assert(s@.skip(a as int) =~= s@.subrange(a as int, n as int));
    }
    let mut b: usize = n;
    while b > a && is_whitespace(s[b - 1])
        invariant
            a <= b,
            b <= n,
            n == s.len(),
            trim_end(s@.subrange(a as int, n as int)) == trim_end(s@.subrange(a as int, b as int)),
        decreases b,
    {
        assert(s@.subrange(a as int, b as int).drop_last() =~= s@.subrange(a as int, b - 1));
        b = b - 1;
    }
    copy_range(s, a, b)
}

/// The whitespace-trimmed copy of a string.
pub fn trim_str(s: &str) -> (out: Vec<char>)
    ensures
        out@ == trimmed(s@),
{
    let cs = str_chars(s);
    trim(cs.as_slice())
}

// ---------------------------------------------------------------------------
// Finding, splitting, lines
// ---------------------------------------------------------------------------

/// The classes of separator character the splitting functions use.
#[derive(Clone, Copy, PartialEq, Eq, Debug)]
pub enum Sep {
    /// Exactly this character.
    Char(char),
    /// Any Unicode whitespace.
    Whitespace,
    /// Any Unicode whitespace, or `U+200B` ZERO WIDTH SPACE.
    WhitespaceOrZwsp,
    /// `U+200B` ZERO WIDTH SPACE or an ASCII space.
    ZwspOrSpace,
    /// `U+200B` ZERO WIDTH SPACE, an ASCII space, or a newline.
    ZwspSpaceOrNewline,
}

/// Whether `c` is a separator of class `sep`.
pub open spec fn sep_holds(sep: Sep, c: char) -> bool {
    match sep {
        Sep::Char(x) => c == x,
        Sep::Whitespace => is_ws(c),
        Sep::WhitespaceOrZwsp => is_ws(c) || c == '\u{200B}',
        Sep::ZwspOrSpace => c == '\u{200B}' || c == ' ',
        Sep::ZwspSpaceOrNewline => c == '\u{200B}' || c == ' ' || c == '\n',
    }
}

/// Whether `c` is a separator of class `sep`.
pub fn is_sep(sep: Sep, c: char) -> (b: bool)
    ensures
        b == sep_holds(sep, c),
{
    match sep {
        Sep::Char(x) => c == x,
        Sep::Whitespace => is_whitespace(c),
        Sep::WhitespaceOrZwsp => is_whitespace(c) || c == '\u{200B}',
        Sep::ZwspOrSpace => c == '\u{200B}' || c == ' ',
        Sep::ZwspSpaceOrNewline => c == '\u{200B}' || c == ' ' || c == '\n',
    }
}

/// The first index at or after `i` holding a separator, or `s.len()`.
pub open spec fn find_from(s: Seq<char>, i: int, sep: Sep) -> int
    decreases s.len() - i,
{
    if i >= s.len() {
        s.len() as int
    } else if sep_holds(sep, s[i]) {
        i
    } else {
        find_from(s, i + 1, sep)
    }
}

pub proof fn lemma_find_from_bounds(s: Seq<char>, i: int, sep: Sep)
    requires
        0 <= i,
    ensures
        i <= s.len() ==> i <= find_from(s, i, sep) <= s.len(),
        find_from(s, i, sep) < s.len() ==> sep_holds(sep, s[find_from(s, i, sep)]),
        forall|j: int| i <= j < find_from(s, i, sep) ==> !sep_holds(sep, #[trigger] s[j]),
    decreases s.len() - i,
{
    if i < s.len() && !sep_holds(sep, s[i]) {
        lemma_find_from_bounds(s, i + 1, sep);
    }
}

/// Scan for the first separator at or after `i`.
pub fn find_sep(s: &[char], i: usize, sep: Sep) -> (k: usize)
    requires
        i <= s.len(),
    ensures
        k == find_from(s@, i as int, sep),
        i <= k <= s.len(),
{
    proof {
        lemma_find_from_bounds(s@, i as int, sep);
    }
    let mut j = i;
    while j < s.len() && !is_sep(sep, s[j])
        invariant
            i <= j <= s.len(),
            find_from(s@, i as int, sep) == find_from(s@, j as int, sep),
        decreases s.len() - j,
    {
        j = j + 1;
    }
    j
}

/// The pieces of `s[i..]` between separators, empty pieces included
/// (`str::split` with a character predicate).
pub open spec fn split_from(s: Seq<char>, i: int, sep: Sep) -> Seq<Seq<char>>
    decreases s.len() - i,
{
    if i < 0 || i > s.len() {
        Seq::empty()
    } else {
        let k = find_from(s, i, sep);
        if k >= s.len() {
            seq![s.subrange(i, s.len() as int)]
        } else {
            proof {
                lemma_find_from_bounds(s, i, sep);
            }
            seq![s.subrange(i, k)] + split_from(s, k + 1, sep)
        }
    }
}

/// `str::split` by separator class: the pieces of `s` between separators.
pub open spec fn split_on(s: Seq<char>, sep: Sep) -> Seq<Seq<char>> {
    split_from(s, 0, sep)
}

/// Split `s` at every separator of class `sep`, keeping empty pieces.
pub fn split_chars(s: &[char], sep: Sep) -> (out: Vec<Vec<char>>)
    ensures
        vviews(out@) == split_on(s@, sep),
{
    let mut out: Vec<Vec<char>> = Vec::new();
    let mut i: usize = 0;
    loop
        invariant
            i <= s.len(),
            vviews(out@) + split_from(s@, i as int, sep) == split_on(s@, sep),
        decreases s.len() - i,
    {
        let k = find_sep(s, i, sep);
        let piece = copy_range(s, i, k);
        let ghost before = vviews(out@);
        out.push(piece);
        assert(vviews(out@) =~= before.push(s@.subrange(i as int, k as int)));
        if k >= s.len() {
            assert(vviews(out@) + split_from(s@, i as int, sep).drop_first() =~= before
                + split_from(s@, i as int, sep));
            assert(split_from(s@, i as int, sep).drop_first() =~= Seq::<Seq<char>>::empty());
            assert(vviews(out@) =~= vviews(out@) + Seq::<Seq<char>>::empty());
            return out;
        }
        assert(split_from(s@, i as int, sep) =~= seq![s@.subrange(i as int, k as int)]
            + split_from(s@, k + 1, sep));
        assert(vviews(out@) + split_from(s@, k + 1, sep) =~= before + split_from(
            s@,
            i as int,
            sep,
        ));
        i = k + 1;
    }
}

/// The non-empty members of `ss`, in order.
pub open spec fn nonempty(ss: Seq<Seq<char>>) -> Seq<Seq<char>>
    decreases ss.len(),
{
    if ss.len() == 0 {
        ss
    } else if ss.last().len() > 0 {
        nonempty(ss.drop_last()).push(ss.last())
    } else {
        nonempty(ss.drop_last())
    }
}

/// Keep the non-empty pieces.
pub fn keep_nonempty(v: Vec<Vec<char>>) -> (out: Vec<Vec<char>>)
    ensures
        vviews(out@) == nonempty(vviews(v@)),
{
    let mut out: Vec<Vec<char>> = Vec::new();
    let mut i: usize = 0;
    while i < v.len()
        invariant
            i <= v.len(),
            vviews(out@) == nonempty(vviews(v@).take(i as int)),
        decreases v.len() - i,
    {
        let ghost before = vviews(out@);
        assert(vviews(v@).take(i as int + 1).drop_last() =~= vviews(v@).take(i as int));
        if v[i].len() > 0 {
            out.push(v[i].clone());
            assert(vviews(out@) =~= before.push(v@[i as int]@));
        }
        i = i + 1;
    }
    assert(vviews(v@).take(i as int) =~= vviews(v@));
    out
}

/// `str::split_whitespace`: the maximal runs of non-whitespace.
pub open spec fn words_of(s: Seq<char>) -> Seq<Seq<char>> {
    nonempty(split_on(s, Sep::Whitespace))
}

/// The non-empty pieces of `s` between separators of class `sep`.
pub fn fields(s: &[char], sep: Sep) -> (out: Vec<Vec<char>>)
    ensures
        vviews(out@) == nonempty(split_on(s@, sep)),
{
    let pieces = split_chars(s, sep);
    keep_nonempty(pieces)
}

/// `l` without one trailing carriage return.
pub open spec fn strip_cr(l: Seq<char>) -> Seq<char> {
    if l.len() > 0 && l.last() == '\r' {
        l.drop_last()
    } else {
        l
    }
}

/// The lines of `s[i..]` (`str::lines`): split at `\n`, a `\r` directly
/// before a `\n` dropped, and no empty final line after a final `\n`.
pub open spec fn lines_from(s: Seq<char>, i: int) -> Seq<Seq<char>>
    decreases s.len() - i,
{
    if i < 0 || i >= s.len() {
        Seq::empty()
    } else {
        let k = find_from(s, i, Sep::Char('\n'));
        if k >= s.len() {
            seq![s.subrange(i, s.len() as int)]
        } else {
            proof {
                lemma_find_from_bounds(s, i, Sep::Char('\n'));
            }
            seq![strip_cr(s.subrange(i, k))] + lines_from(s, k + 1)
        }
    }
}

/// The lines of `s`.
pub open spec fn lines_of(s: Seq<char>) -> Seq<Seq<char>> {
    lines_from(s, 0)
}

/// Split `s` into lines as `str::lines` does.
pub fn lines(s: &[char]) -> (out: Vec<Vec<char>>)
    ensures
        vviews(out@) == lines_of(s@),
{
    let mut out: Vec<Vec<char>> = Vec::new();
    let mut i: usize = 0;
    while i < s.len()
        invariant
            i <= s.len(),
            vviews(out@) + lines_from(s@, i as int) == lines_of(s@),
        decreases s.len() - i,
    {
        let k = find_sep(s, i, Sep::Char('\n'));
        let ghost before = vviews(out@);
        if k >= s.len() {
            let piece = copy_range(s, i, k);
            out.push(piece);
            assert(vviews(out@) =~= before.push(s@.subrange(i as int, s.len() as int)));
            assert(lines_from(s@, s.len() as int) =~= Seq::<Seq<char>>::empty());
            assert(vviews(out@) + lines_from(s@, s.len() as int) =~= before + lines_from(
                s@,
                i as int,
            ));
            i = s.len();
        } else {
            let end = if k > i && s[k - 1] == '\r' {
                k - 1
            } else {
                k
            };
            let piece = copy_range(s, i, end);
            assert(piece@ =~= strip_cr(s@.subrange(i as int, k as int)));
            out.push(piece);
            assert(vviews(out@) =~= before.push(strip_cr(s@.subrange(i as int, k as int))));
            assert(vviews(out@) + lines_from(s@, k + 1) =~= before + lines_from(s@, i as int));
            i = k + 1;
        }
    }
    assert(lines_from(s@, i as int) =~= Seq::<Seq<char>>::empty());
    assert(vviews(out@) =~= vviews(out@) + lines_from(s@, i as int));
    out
}

/// Whether `s` begins with `c`.
pub open spec fn starts_with(s: Seq<char>, c: char) -> bool {
    s.len() > 0 && s[0] == c
}

/// The characters of `s` that are not separators of class `sep`, in order.
pub open spec fn without(s: Seq<char>, sep: Sep) -> Seq<char> {
    s.filter(|c: char| !sep_holds(sep, c))
}

/// Drop every separator of class `sep` from `s`.
pub fn remove_seps(s: &[char], sep: Sep) -> (out: Vec<char>)
    ensures
        out@ == without(s@, sep),
{
    let mut out: Vec<char> = Vec::new();
    let mut i: usize = 0;
    while i < s.len()
        invariant
            i <= s.len(),
            out@ == without(s@.take(i as int), sep),
        decreases s.len() - i,
    {
        proof {
            reveal_with_fuel(Seq::filter, 1);
            assert(s@.take(i as int + 1).drop_last() =~= s@.take(i as int));
        }
        if !is_sep(sep, s[i]) {
            out.push(s[i]);
        }
        i = i + 1;
    }
    assert(s@.take(i as int) =~= s@);
    out
}

// ---------------------------------------------------------------------------
// Concatenation
// ---------------------------------------------------------------------------

/// Concatenate every piece.
pub fn concat_chars(parts: &Vec<Vec<char>>) -> (out: Vec<char>)
    ensures
        out@ == vviews(parts@).flatten(),
{
    let mut out: Vec<char> = Vec::new();
    let mut i: usize = 0;
    while i < parts.len()
        invariant
            i <= parts.len(),
            out@ == vviews(parts@).take(i as int).flatten(),
        decreases parts.len() - i,
    {
        proof {
            assert(vviews(parts@).take(i as int + 1) =~= vviews(parts@).take(i as int).push(
                parts@[i as int]@,
            ));
            vviews(parts@).take(i as int).lemma_flatten_push(parts@[i as int]@);
        }
        push_all(&mut out, parts[i].as_slice());
        i = i + 1;
    }
    assert(vviews(parts@).take(i as int) =~= vviews(parts@));
    out
}

/// Concatenate every string.
pub fn concat_strings(parts: &Vec<String>) -> (out: String)
    ensures
        out@ == views(parts@).flatten(),
{
    let mut out: Vec<char> = Vec::new();
    let mut i: usize = 0;
    while i < parts.len()
        invariant
            i <= parts.len(),
            out@ == views(parts@).take(i as int).flatten(),
        decreases parts.len() - i,
    {
        proof {
            assert(views(parts@).take(i as int + 1) =~= views(parts@).take(i as int).push(
                parts@[i as int]@,
            ));
            views(parts@).take(i as int).lemma_flatten_push(parts@[i as int]@);
        }
        let cs = str_chars(parts[i].as_str());
        push_all(&mut out, cs.as_slice());
        i = i + 1;
    }
    assert(views(parts@).take(i as int) =~= views(parts@));
    string_of(out.as_slice())
}

/// Strings made from each character vector.
pub fn to_strings(v: &Vec<Vec<char>>) -> (out: Vec<String>)
    ensures
        views(out@) == vviews(v@),
{
    let mut out: Vec<String> = Vec::new();
    let mut i: usize = 0;
    while i < v.len()
        invariant
            i <= v.len(),
            views(out@) == vviews(v@).take(i as int),
        decreases v.len() - i,
    {
        let s = string_of(v[i].as_slice());
        let ghost prev = views(out@);
        out.push(s);
        assert(views(out@) =~= prev.push(v@[i as int]@));
        assert(vviews(v@).take(i as int + 1) =~= vviews(v@).take(i as int).push(v@[i as int]@));
        i = i + 1;
    }
    assert(vviews(v@).take(i as int) =~= vviews(v@));
    out
}


/// The ASCII digit for `d` (taken modulo ten).
pub open spec fn digit_of(d: nat) -> char {
    let d = d % 10;
    if d == 0 {
        '0'
    } else if d == 1 {
        '1'
    } else if d == 2 {
        '2'
    } else if d == 3 {
        '3'
    } else if d == 4 {
        '4'
    } else if d == 5 {
        '5'
    } else if d == 6 {
        '6'
    } else if d == 7 {
        '7'
    } else if d == 8 {
        '8'
    } else {
        '9'
    }
}

/// The decimal digits of `n`, most significant first, without leading
/// zeros (a single `0` for zero).
pub open spec fn decimal(n: nat) -> Seq<char>
    decreases n,
{
    if n < 10 {
        seq![digit_of(n)]
    } else {
        decimal(n / 10).push(digit_of(n % 10))
    }
}

fn digit_char(d: u64) -> (c: char)
    requires
        d < 10,
    ensures
        c == digit_of(d as nat),
{
    if d == 0 {
        '0'
    } else if d == 1 {
        '1'
    } else if d == 2 {
        '2'
    } else if d == 3 {
        '3'
    } else if d == 4 {
        '4'
    } else if d == 5 {
        '5'
    } else if d == 6 {
        '6'
    } else if d == 7 {
        '7'
    } else if d == 8 {
        '8'
    } else {
        '9'
    }
}

/// Append the decimal digits of `n` to `out`.
pub fn push_decimal(out: &mut Vec<char>, n: u64)
    ensures
        final(out)@ == old(out)@ + decimal(n as nat),
    decreases n,
{
    if n >= 10 {
        push_decimal(out, n / 10);
        out.push(digit_char(n % 10));
        assert(old(out)@ + decimal((n / 10) as nat).push(digit_of((n % 10) as nat)) =~= old(
            out,
        )@ + decimal(n as nat));
    } else {
        out.push(digit_char(n));
    }
}

/// Append the characters of `s` to `out`.
pub fn push_str_chars(out: &mut Vec<char>, s: &str)
    ensures
        final(out)@ == old(out)@ + s@,
{
    let cs = str_chars(s);
    push_all(out, cs.as_slice());
}


/// How `{:?}` renders a string.
pub uninterp spec fn debug_quoted(s: Seq<char>) -> Seq<char>;

/// std's `Debug` rendering of a string (`<str as Debug>::fmt`, through
/// `format!("{:?}")`). Claimed: the result depends on `s` alone and is named
/// `debug_quoted(s)`. Left unsaid: what it is (the text in double quotes
/// with quotes, backslashes and unprintable characters escaped, by std's
/// own tables).
#[verifier::external_body]
pub(crate) fn debug_string(s: &str) -> (r: String)
    ensures
        r@ == debug_quoted(s@),
{
    format!("{:?}", s)
}

/// Whether every character of `s` is an ASCII digit.
pub open spec fn all_digits(s: Seq<char>) -> bool {
    forall|i: int| 0 <= i < s.len() ==> 48 <= (#[trigger] s[i]) as u32 <= 57
}

/// The value of an ASCII digit.
pub open spec fn digit_value(c: char) -> nat {
    ((c as u32) - 48) as nat
}

/// The value of a string of ASCII digits.
pub open spec fn digits_value(s: Seq<char>) -> nat
    decreases s.len(),
{
    if s.len() == 0 {
        0
    } else {
        digits_value(s.drop_last()) * 10 + digit_value(s.last())
    }
}

/// What parsing `s` as a `u64` gives: an optional `+`, then at least one
/// ASCII digit, with a value that fits; anything else fails.
pub open spec fn parsed_u64(s: Seq<char>) -> Option<u64> {
    let d = if s.len() > 0 && s[0] == '+' {
        s.drop_first()
    } else {
        s
    };
    if d.len() > 0 && all_digits(d) && digits_value(d) <= u64::MAX {
        Some(digits_value(d) as u64)
    } else {
        None
    }
}

proof fn lemma_digits_value_prefix(s: Seq<char>, i: int)
    requires
        0 <= i <= s.len(),
    ensures
        digits_value(s.take(i)) <= digits_value(s),
    decreases s.len() - i,
{
    if i < s.len() {
        lemma_digits_value_prefix(s, i + 1);
        assert(s.take(i + 1).drop_last() =~= s.take(i));
    } else {
        assert(s.take(i) =~= s);
    }
}

/// Parse `s` as a `u64` the way `str::parse` does.
pub fn parse_u64(s: &[char]) -> (r: Option<u64>)
    ensures
        r == parsed_u64(s@),
{
    let n = s.len();
    let start: usize = if n > 0 && s[0] == '+' {
        1
    } else {
        0
    };
    let ghost d = if s@.len() > 0 && s@[0] == '+' {
        s@.drop_first()
    } else {
        s@
    };
    assert(d =~= s@.subrange(start as int, n as int));
    if start == n {
        return None;
    }
    let mut v: u64 = 0;
    let mut i: usize = start;
    while i < n
        invariant
            start <= i <= n,
            n == s@.len(),
            d == s@.subrange(start as int, n as int),
            d == (if s@.len() > 0 && s@[0] == '+' {
                s@.drop_first()
            } else {
                s@
            }),
            all_digits(d.take(i - start)),
            v == digits_value(d.take(i - start)),
        decreases n - i,
    {
        let c = s[i];
        let u = c as u32;
        if u < 48 || u > 57 {
            assert(d[i - start] == c);
            return None;
        }
        let k = i - start;
        assert(d.take(k + 1).drop_last() =~= d.take(k as int));
        assert(d.take(k + 1).last() == c);
        let dv: u64 = (u - 48) as u64;
        match v.checked_mul(10) {
            Some(t) => match t.checked_add(dv) {
                Some(u) => {
                    v = u;
                },
                None => {
                    proof {
                        lemma_digits_value_prefix(d, k + 1);
                    }
                    return None;
                },
            },
            None => {
                proof {
                    lemma_digits_value_prefix(d, k + 1);
                }
                return None;
            },
        }
        i = i + 1;
        assert(all_digits(d.take(i - start))) by {
            assert forall|j: int| 0 <= j < d.take(i - start).len() implies 48 <= (#[trigger] d.take(
                i - start,
            )[j]) as u32 <= 57 by {
                if j < k {
                    assert(d.take(i - start)[j] == d.take(k as int)[j]);
                }
            }
        }
    }
    assert(d.take(n - start) =~= d);
    Some(v)
}


proof fn lemma_trim_start_keeps(s: Seq<char>, j: int) -> (k: int)
    requires
        0 <= j < s.len(),
        !is_ws(s[j]),
    ensures
        0 <= k <= j,
        trim_start(s) == s.subrange(k, s.len() as int),
    decreases s.len(),
{
    if is_ws(s[0]) {
        let k = lemma_trim_start_keeps(s.drop_first(), j - 1);
        assert(s.drop_first().subrange(k, s.len() - 1) =~= s.subrange(k + 1, s.len() as int));
        k + 1
    } else {
        assert(s.subrange(0, s.len() as int) =~= s);
        0
    }
}

proof fn lemma_trim_end_keeps(t: Seq<char>, m: int)
    requires
        0 <= m < t.len(),
        !is_ws(t[m]),
    ensures
        trim_end(t).len() > m,
    decreases t.len(),
{
    if is_ws(t.last()) {
        assert(m < t.len() - 1);
        assert(t.drop_last()[m] == t[m]);
        lemma_trim_end_keeps(t.drop_last(), m);
    }
}

/// A text with a character that is not whitespace does not trim to
/// nothing.
pub proof fn lemma_trimmed_nonempty(s: Seq<char>, j: int)
    requires
        0 <= j < s.len(),
        !is_ws(s[j]),
    ensures
        trimmed(s).len() > 0,
{
    let k = lemma_trim_start_keeps(s, j);
    let t = s.subrange(k, s.len() as int);
    assert(t[j - k] == s[j]);
    lemma_trim_end_keeps(t, j - k);
}

/// Removing characters that are all kept does nothing.
pub proof fn lemma_without_keeps_all(s: Seq<char>, sep: Sep)
    requires
        forall|m: int| 0 <= m < s.len() ==> !sep_holds(sep, #[trigger] s[m]),
    ensures
        without(s, sep) == s,
    decreases s.len(),
{
    if s.len() > 0 {
        let init = s.drop_last();
        assert forall|m: int| 0 <= m < init.len() implies !sep_holds(sep, #[trigger] init[m]) by {
            assert(init[m] == s[m]);
        }
        lemma_without_keeps_all(init, sep);
        assert(init.push(s.last()) =~= s);
        assert(!sep_holds(sep, s[s.len() - 1]));
        reveal_with_fuel(Seq::filter, 1);
    }
}

} // verus!
