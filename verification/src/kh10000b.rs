//! The `kh_data_10000b` article pairs: a raw `_orig.txt` and a segmented
//! `_seg_200b.txt` whose word boundaries are marked with `U+200B` ZERO
//! WIDTH SPACE and, less consistently, plain spaces. A pair is trusted only
//! if both sides hold the same text once every boundary marker (and every
//! newline) is removed.

use vstd::prelude::*;
use crate::corpus::{Example, example_view, example_views, from_gold};
use crate::text::{
    views, vviews, str_chars, lines, lines_of, trim, trimmed, fields, nonempty, split_on,
    remove_seps, without, string_of, chars_eq, Sep, sep_holds,
};

verus! {

/// Whether `c` marks a word boundary: ZERO WIDTH SPACE or a space.
pub fn is_boundary(c: char) -> (b: bool)
    ensures
        b == sep_holds(Sep::ZwspOrSpace, c),
{
    c == '\u{200B}' || c == ' '
}

/// The gold tokens of a segmented line: the non-empty pieces between
/// boundary markers.
pub open spec fn line_tokens(line: Seq<char>) -> Seq<Seq<char>> {
    nonempty(split_on(line, Sep::ZwspOrSpace))
}

/// Split one segmented line into gold tokens on runs of boundary markers.
pub fn split_tokens(line: &str) -> (out: Vec<String>)
    ensures
        views(out@) == line_tokens(line@),
{
    let cs = str_chars(line);
    let pieces = fields(cs.as_slice(), Sep::ZwspOrSpace);
    let mut out: Vec<String> = Vec::new();
    let mut k: usize = 0;
    while k < pieces.len()
        invariant
            k <= pieces@.len(),
            vviews(pieces@) == line_tokens(line@),
            views(out@) == vviews(pieces@).take(k as int),
        decreases pieces.len() - k,
    {
        let ghost prev = views(out@);
        let s = string_of(pieces[k].as_slice());
        out.push(s);
        assert(views(out@) =~= prev.push(s@));
        k = k + 1;
        assert(views(out@) =~= vviews(pieces@).take(k as int));
    }
    assert(vviews(pieces@).take(k as int) =~= vviews(pieces@));
    out
}

/// A text with every boundary marker and newline removed.
pub open spec fn stripped(text: Seq<char>) -> Seq<char> {
    without(text, Sep::ZwspSpaceOrNewline)
}

/// Remove every boundary marker and newline, for alignment checking.
pub fn strip_boundaries(text: &str) -> (out: String)
    ensures
        out@ == stripped(text@),
{
    let cs = str_chars(text);
    let kept = remove_seps(cs.as_slice(), Sep::ZwspSpaceOrNewline);
    string_of(kept.as_slice())
}

/// The examples of a segmented file's lines: one per non-blank line that
/// has at least one token.
pub open spec fn seg_examples(ls: Seq<Seq<char>>) -> Seq<(Seq<char>, Seq<Seq<char>>)>
    decreases ls.len(),
{
    if ls.len() == 0 {
        Seq::empty()
    } else if trimmed(ls.last()).len() > 0 && line_tokens(ls.last()).len() > 0 {
        seg_examples(ls.drop_last()).push(from_gold(line_tokens(ls.last())))
    } else {
        seg_examples(ls.drop_last())
    }
}

/// What a pair yields: nothing if its texts differ once boundary markers
/// are stripped, else one example per usable line of the segmented side.
pub open spec fn pair_examples(orig: Seq<char>, seg: Seq<char>) -> Option<
    Seq<(Seq<char>, Seq<Seq<char>>)>,
> {
    if stripped(orig) != stripped(seg) {
        None
    } else {
        Some(seg_examples(lines_of(seg)))
    }
}

/// Parse an `_orig.txt` / `_seg_200b.txt` pair into examples, one per
/// non-empty line of the segmented file; `None` if the two texts do not
/// align once boundary markers are stripped from both.
pub fn parse_pair(orig: &str, seg: &str) -> (r: Option<Vec<Example>>)
    ensures
        match r {
            Some(v) => pair_examples(orig@, seg@) == Some(example_views(v@)),
            None => pair_examples(orig@, seg@) is None,
        },
{
    let a = strip_boundaries(orig);
    let b = strip_boundaries(seg);
    let ca = str_chars(a.as_str());
    let cb = str_chars(b.as_str());
    if !chars_eq(ca.as_slice(), cb.as_slice()) {
        return None;
    }
    let cs = str_chars(seg);
    let ls = lines(cs.as_slice());
    let mut out: Vec<Example> = Vec::new();
    let mut i: usize = 0;
    while i < ls.len()
        invariant
            i <= ls@.len(),
            vviews(ls@) == lines_of(seg@),
            example_views(out@) == seg_examples(vviews(ls@).take(i as int)),
        decreases ls.len() - i,
    {
        proof {
            assert(vviews(ls@).take(i + 1).drop_last() =~= vviews(ls@).take(i as int));
            assert(vviews(ls@).take(i + 1).last() == ls@[i as int]@);
        }
        let t = trim(ls[i].as_slice());
        if t.len() > 0 {
            let line = string_of(ls[i].as_slice());
            let gold = split_tokens(line.as_str());
            if gold.len() > 0 {
                let ghost before = example_views(out@);
                let input = crate::text::concat_strings(&gold);
                let e = Example { input, gold_tokens: gold };
                out.push(e);
                assert(example_views(out@) =~= before.push(from_gold(line_tokens(ls@[i as int]@))));
            }
        }
        i = i + 1;
    }
    assert(vviews(ls@).take(i as int) =~= vviews(ls@));
    Some(out)
}

/// The outcome of loading a directory of article pairs: the examples of
/// the pairs that aligned, how many pairs were skipped (a missing
/// segmented side, or texts that do not align), and how many were found.
pub struct LoadResult {
    pub examples: Vec<Example>,
    pub skipped_pairs: usize,
    pub total_pairs: usize,
}

impl LoadResult {
    /// Nothing loaded yet.
    pub fn new() -> (r: Self)
        ensures
            r.examples@.len() == 0,
            r.skipped_pairs == 0,
            r.total_pairs == 0,
    {
        LoadResult { examples: Vec::new(), skipped_pairs: 0, total_pairs: 0 }
    }

    /// Take in one pair: its raw text, and its segmented text if that file
    /// was found. An aligned pair adds its examples; a missing or
    /// misaligned one counts as skipped.
    pub fn record_pair(&mut self, orig: &str, seg: Option<&str>)
        requires
            old(self).total_pairs < usize::MAX,
            old(self).skipped_pairs <= old(self).total_pairs,
        ensures
            final(self).total_pairs == old(self).total_pairs + 1,
            match seg {
                Some(s) => match pair_examples(orig@, s@) {
                    Some(exs) => final(self).skipped_pairs == old(self).skipped_pairs
                        && example_views(final(self).examples@) == example_views(
                        old(self).examples@,
                    ) + exs,
                    None => final(self).skipped_pairs == old(self).skipped_pairs + 1
                        && final(self).examples@ == old(self).examples@,
                },
                None => final(self).skipped_pairs == old(self).skipped_pairs + 1
                    && final(self).examples@ == old(self).examples@,
            },
            final(self).skipped_pairs <= final(self).total_pairs,
    {
        self.total_pairs = self.total_pairs + 1;
        match seg {
            Some(s) => match parse_pair(orig, s) {
                Some(exs) => {
                    let ghost before = example_views(self.examples@);
                    let mut v = exs;
                    let ghost added = example_views(v@);
                    self.examples.append(&mut v);
                    assert(example_views(self.examples@) =~= before + added);
                },
                None => {
                    self.skipped_pairs = self.skipped_pairs + 1;
                },
            },
            None => {
                self.skipped_pairs = self.skipped_pairs + 1;
            },
        }
    }
}

} // verus!
