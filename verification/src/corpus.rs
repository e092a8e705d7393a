//! Evaluation corpora: the khPOS `.word` format (one sentence per line,
//! gold words separated by spaces, compound parts joined with `_` or `~`)
//! and the ALT `.nova` format (`<id>\t<tokens>`, split into train and test
//! by article number).

use vstd::prelude::*;
use crate::text::{
    views, vviews, str_chars, lines, lines_of, trim, trimmed, fields, words_of, split_chars,
    split_on, remove_seps, without, string_of, concat_strings, parse_u64, parsed_u64, Sep,
};

verus! {

/// One evaluation example: the space-free input the tokenizer sees, and
/// the gold segmentation of that same text.
pub struct Example {
    pub input: String,
    pub gold_tokens: Vec<String>,
}

/// An example as plain values: the input and the gold words.
pub open spec fn example_view(e: Example) -> (Seq<char>, Seq<Seq<char>>) {
    (e.input@, views(e.gold_tokens@))
}

/// A list of examples as plain values.
pub open spec fn example_views(v: Seq<Example>) -> Seq<(Seq<char>, Seq<Seq<char>>)> {
    v.map_values(|e: Example| example_view(e))
}

/// An example made of gold words: their concatenation is the input.
pub open spec fn from_gold(gold: Seq<Seq<char>>) -> (Seq<char>, Seq<Seq<char>>) {
    (gold.flatten(), gold)
}

fn example_of(gold: Vec<String>) -> (e: Example)
    ensures
        example_view(e) == from_gold(views(gold@)),
{
    let input = concat_strings(&gold);
    Example { input, gold_tokens: gold }
}

/// Which khPOS split to load.
#[derive(Clone, Copy, PartialEq, Eq, Structural, Debug)]
pub enum Split {
    OpenTest,
    CloseTest,
    /// The full training corpus; it is disjoint from `OpenTest` but wholly
    /// contained in `CloseTest`, so never evaluate against `CloseTest`
    /// with anything derived from it.
    Train,
}

/// The file of a split, relative to the corpus data directory.
pub open spec fn split_file(s: Split) -> Seq<char> {
    match s {
        Split::OpenTest => "OPEN-TEST.word"@,
        Split::CloseTest => "CLOSE-TEST.word"@,
        Split::Train => "before-replace/train6.word"@,
    }
}

impl Split {
    /// The file of this split, relative to the corpus data directory.
    pub fn relative_path(self) -> (p: &'static str)
        ensures
            p@ == split_file(self),
    {
        match self {
            Split::OpenTest => "OPEN-TEST.word",
            Split::CloseTest => "CLOSE-TEST.word",
            Split::Train => "before-replace/train6.word",
        }
    }
}

/// A gold token with the compound joiners `_` and `~` removed.
pub open spec fn unjoined(t: Seq<char>) -> Seq<char> {
    without(without(t, Sep::Char('_')), Sep::Char('~'))
}

/// The example of one khPOS line.
pub open spec fn khpos_example(line: Seq<char>) -> (Seq<char>, Seq<Seq<char>>) {
    from_gold(words_of(line).map_values(|t: Seq<char>| unjoined(t)))
}

/// The examples of khPOS lines: one per line that is not blank.
pub open spec fn khpos_from(ls: Seq<Seq<char>>) -> Seq<(Seq<char>, Seq<Seq<char>>)>
    decreases ls.len(),
{
    if ls.len() == 0 {
        Seq::empty()
    } else if trimmed(ls.last()).len() > 0 {
        khpos_from(ls.drop_last()).push(khpos_example(ls.last()))
    } else {
        khpos_from(ls.drop_last())
    }
}

fn khpos_line(line: &[char]) -> (e: Example)
    ensures
        example_view(e) == khpos_example(line@),
{
    let ws = fields(line, Sep::Whitespace);
    let mut gold: Vec<String> = Vec::new();
    let mut k: usize = 0;
    while k < ws.len()
        invariant
            k <= ws@.len(),
            vviews(ws@) == words_of(line@),
            views(gold@) == words_of(line@).take(k as int).map_values(
                |t: Seq<char>| unjoined(t),
            ),
        decreases ws.len() - k,
    {
        let a = remove_seps(ws[k].as_slice(), Sep::Char('_'));
        let b = remove_seps(a.as_slice(), Sep::Char('~'));
        let ghost prev = views(gold@);
        assert(vviews(ws@)[k as int] == ws@[k as int]@);
        assert(b@ == unjoined(words_of(line@)[k as int]));
        gold.push(string_of(b.as_slice()));
        assert(views(gold@) =~= prev.push(b@));
        assert(words_of(line@).take(k + 1) =~= words_of(line@).take(k as int).push(
            words_of(line@)[k as int],
        ));
        k = k + 1;
        assert(views(gold@) =~= words_of(line@).take(k as int).map_values(
            |t: Seq<char>| unjoined(t),
        ));
    }
    assert(words_of(line@).take(k as int) =~= words_of(line@));
    example_of(gold)
}

/// Parse khPOS `.word` text into evaluation examples: one per non-blank
/// line, the gold words split on whitespace with their compound joiners
/// removed, and the input their concatenation.
pub fn parse_khpos(raw: &str) -> (out: Vec<Example>)
    ensures
        example_views(out@) == khpos_from(lines_of(raw@)),
{
    let cs = str_chars(raw);
    let ls = lines(cs.as_slice());
    let mut out: Vec<Example> = Vec::new();
    let mut i: usize = 0;
    while i < ls.len()
        invariant
            i <= ls@.len(),
            vviews(ls@) == lines_of(raw@),
            example_views(out@) == khpos_from(vviews(ls@).take(i as int)),
        decreases ls.len() - i,
    {
        proof {
            assert(vviews(ls@).take(i + 1).drop_last() =~= vviews(ls@).take(i as int));
            assert(vviews(ls@).take(i + 1).last() == ls@[i as int]@);
        }
        let t = trim(ls[i].as_slice());
        if t.len() > 0 {
            let e = khpos_line(ls[i].as_slice());
            let ghost before = example_views(out@);
            out.push(e);
            assert(example_views(out@) =~= before.push(khpos_example(ls@[i as int]@)));
        }
        i = i + 1;
    }
    assert(vviews(ls@).take(i as int) =~= vviews(ls@));
    out
}

/// Which ALT split to load.
#[derive(Clone, Copy, PartialEq, Eq, Structural, Debug)]
pub enum AltSplit {
    /// About nine articles in ten.
    Train,
    /// About one article in ten.
    Test,
}

/// The article number of an ALT sentence id (`SNT.<article>.<n>`); one
/// that does not parse counts as article 0.
pub open spec fn article_of(id: Seq<char>) -> u64 {
    match parsed_u64(split_on(id, Sep::Char('.'))[1]) {
        Some(v) => v,
        None => 0,
    }
}

/// The example of one ALT line, if it is well formed and belongs to
/// `split`: articles whose number is a multiple of ten are the test split.
pub open spec fn alt_example(line: Seq<char>, split: AltSplit) -> Option<
    (Seq<char>, Seq<Seq<char>>),
> {
    let parts = split_on(line, Sep::Char('\t'));
    if parts.len() != 2 {
        None
    } else if split_on(parts[0], Sep::Char('.')).len() < 2 {
        None
    } else if (article_of(parts[0]) % 10 == 0) != (split == AltSplit::Test) {
        None
    } else {
        Some(from_gold(words_of(parts[1])))
    }
}

/// The examples of ALT lines: one per non-blank line that is well formed
/// and belongs to `split`.
pub open spec fn alt_from(ls: Seq<Seq<char>>, split: AltSplit) -> Seq<
    (Seq<char>, Seq<Seq<char>>),
>
    decreases ls.len(),
{
    if ls.len() == 0 {
        Seq::empty()
    } else {
        let rest = alt_from(ls.drop_last(), split);
        if trimmed(ls.last()).len() > 0 {
            match alt_example(ls.last(), split) {
                Some(e) => rest.push(e),
                None => rest,
            }
        } else {
            rest
        }
    }
}

fn alt_line(line: &[char], split: AltSplit) -> (r: Option<Example>)
    ensures
        match r {
            Some(e) => alt_example(line@, split) == Some(example_view(e)),
            None => alt_example(line@, split) is None,
        },
{
    let parts = split_chars(line, Sep::Char('\t'));
    if parts.len() != 2 {
        return None;
    }
    let ids = split_chars(parts[0].as_slice(), Sep::Char('.'));
    if ids.len() < 2 {
        return None;
    }
    let article = match parse_u64(ids[1].as_slice()) {
        Some(v) => v,
        None => 0,
    };
    let is_test = article % 10 == 0;
    let wanted = match split {
        AltSplit::Train => !is_test,
        AltSplit::Test => is_test,
    };
    if !wanted {
        return None;
    }
    let ws = fields(parts[1].as_slice(), Sep::Whitespace);
    let mut gold: Vec<String> = Vec::new();
    let mut k: usize = 0;
    while k < ws.len()
        invariant
            k <= ws@.len(),
            views(gold@) == vviews(ws@).take(k as int),
        decreases ws.len() - k,
    {
        let ghost prev = views(gold@);
        let g = string_of(ws[k].as_slice());
        assert(g@ == vviews(ws@)[k as int]);
        gold.push(g);
        assert(views(gold@) =~= prev.push(g@));
        k = k + 1;
        assert(views(gold@) =~= vviews(ws@).take(k as int));
    }
    assert(vviews(ws@).take(k as int) =~= vviews(ws@));
    Some(example_of(gold))
}

/// Parse ALT `.nova` text into the examples of one split.
pub fn parse_alt(raw: &str, split: AltSplit) -> (out: Vec<Example>)
    ensures
        example_views(out@) == alt_from(lines_of(raw@), split),
{
    let cs = str_chars(raw);
    let ls = lines(cs.as_slice());
    let mut out: Vec<Example> = Vec::new();
    let mut i: usize = 0;
    while i < ls.len()
        invariant
            i <= ls@.len(),
            vviews(ls@) == lines_of(raw@),
            example_views(out@) == alt_from(vviews(ls@).take(i as int), split),
        decreases ls.len() - i,
    {
        proof {
            assert(vviews(ls@).take(i + 1).drop_last() =~= vviews(ls@).take(i as int));
            assert(vviews(ls@).take(i + 1).last() == ls@[i as int]@);
        }
        let t = trim(ls[i].as_slice());
        if t.len() > 0 {
            match alt_line(ls[i].as_slice(), split) {
                Some(e) => {
                    let ghost before = example_views(out@);
                    let ghost ev = example_view(e);
                    out.push(e);
                    assert(example_views(out@) =~= before.push(ev));
                },
                None => {},
            }
        }
        i = i + 1;
    }
    assert(vviews(ls@).take(i as int) =~= vviews(ls@));
    out
}


/// The ALT split is by article, one in ten to test: a well-formed line
/// (a sentence id with an article number, a tab, the words) gives an
/// example in exactly one of the two splits, in the test split exactly
/// when its article number (0 if it does not parse) is a multiple of ten.
pub proof fn law_alt_split_by_article(line: Seq<char>)
    requires
        split_on(line, Sep::Char('\t')).len() == 2,
        split_on(split_on(line, Sep::Char('\t'))[0], Sep::Char('.')).len() >= 2,
    ensures
        ({
            let article: u64 = match parsed_u64(
                split_on(split_on(line, Sep::Char('\t'))[0], Sep::Char('.'))[1],
            ) {
                Some(v) => v,
                None => 0,
            };
            &&& alt_example(line, AltSplit::Test) is Some <==> article % 10 == 0
            &&& alt_example(line, AltSplit::Train) is Some <==> article % 10 != 0
        }),
{
}

} // verus!
