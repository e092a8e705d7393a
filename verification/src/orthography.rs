//! Full normalization: combining-mark reordering, orthographic and
//! spelling corrections, then re-spacing of the segmented words.

use vstd::prelude::*;
use crate::dictionary::{dict_of_words, dict_entries, DEFAULT_DICT};
use crate::matching::Dict;
use crate::normalize::{
    normalize, normal_form, normal_form_of, law_normalize_only_reorders, law_normal_form_exists,
};
use crate::strategy::Strategy;
use crate::text::{
    views, str_chars, string_of, push_all, trim, trimmed, str_eq, without, Sep, trim_start, trim_end,
};
use crate::tokenizer::{KhmerTokenizer, segmented, segment_input, law_segment_rejoins};

verus! {

// ---------------------------------------------------------------------------
// Replacement
// ---------------------------------------------------------------------------

/// `s` with every occurrence of `pat` replaced by `rep`, scanning left to
/// right and never overlapping matches. An empty pattern replaces nothing.
pub open spec fn replace_all(s: Seq<char>, pat: Seq<char>, rep: Seq<char>) -> Seq<char>
    decreases s.len(),
{
    if pat.len() == 0 || s.len() < pat.len() {
        s
    } else if s.subrange(0, pat.len() as int) == pat {
        rep + replace_all(s.subrange(pat.len() as int, s.len() as int), pat, rep)
    } else {
        seq![s[0]] + replace_all(s.subrange(1, s.len() as int), pat, rep)
    }
}

/// Whether `pat` occurs in `s` at `i`.
fn matches_at(s: &[char], i: usize, pat: &[char]) -> (b: bool)
    requires
        i + pat@.len() <= s@.len(),
    ensures
        b == (s@.subrange(i as int, i + pat@.len()) == pat@),
{
    let n = s.len();
    let mut j: usize = 0;
    while j < pat.len()
        invariant
            n == s@.len(),
            i + pat@.len() <= s@.len(),
            j <= pat@.len(),
            forall|k: int| 0 <= k < j ==> s@[i + k] == pat@[k],
        decreases pat.len() - j,
    {
        if s[i + j] != pat[j] {
            assert(s@.subrange(i as int, i + pat@.len())[j as int] != pat@[j as int]);
            return false;
        }
        j = j + 1;
    }
    assert(s@.subrange(i as int, i + pat@.len()) =~= pat@);
    true
}

/// Replace every occurrence of `pat` in `s` by `rep`.
pub fn replace_chars(s: &[char], pat: &[char], rep: &[char]) -> (out: Vec<char>)
    ensures
        out@ == replace_all(s@, pat@, rep@),
{
    let mut out: Vec<char> = Vec::new();
    let n = s.len();
    let p = pat.len();
    if p == 0 {
        push_all(&mut out, s);
        return out;
    }
    let mut i: usize = 0;
    assert(s@.subrange(0, n as int) =~= s@);
    assert(Seq::<char>::empty() + replace_all(s@, pat@, rep@) =~= replace_all(s@, pat@, rep@));
    while i < n
        invariant
            n == s@.len(),
            p == pat@.len(),
            p > 0,
            i <= n,
            out@ + replace_all(s@.subrange(i as int, n as int), pat@, rep@) == replace_all(
                s@,
                pat@,
                rep@,
            ),
        decreases n - i,
    {
        let ghost t = s@.subrange(i as int, n as int);
        if p <= n - i && matches_at(s, i, pat) {
            proof {
                assert(t.subrange(0, p as int) =~= s@.subrange(i as int, i + p));
                assert(t.subrange(p as int, t.len() as int) =~= s@.subrange(i + p, n as int));
                let r = replace_all(s@.subrange(i + p, n as int), pat@, rep@);
                assert(out@ + (rep@ + r) =~= (out@ + rep@) + r);
            }
            push_all(&mut out, rep);
            i = i + p;
        } else {
            proof {
                assert(t.subrange(1, t.len() as int) =~= s@.subrange(i + 1, n as int));
                if t.len() >= p {
                    assert(t.subrange(0, p as int) =~= s@.subrange(i as int, i + p));
                }
                let r = replace_all(s@.subrange(i + 1, n as int), pat@, rep@);
                assert(out@ + (seq![s@[i as int]] + r) =~= out@.push(s@[i as int]) + r);
            }
            out.push(s[i]);
            i = i + 1;
        }
    }
    assert(s@.subrange(n as int, n as int) =~= Seq::<char>::empty());
    assert(out@ + Seq::<char>::empty() =~= out@);
    out
}

fn replace_str(s: Vec<char>, pat: &str, rep: &str) -> (out: Vec<char>)
    ensures
        out@ == replace_all(s@, pat@, rep@),
{
    let p = str_chars(pat);
    let r = str_chars(rep);
    replace_chars(s.as_slice(), p.as_slice(), r.as_slice())
}

/// The orthographic and spelling corrections, in order. The common variant
/// spelling of the word "oy" is rewritten before the bare letter, so it is
/// never doubled; two-keystroke vowels are fused; the deprecated
/// independent vowel is replaced; three misspellings are corrected.
pub open spec fn corrected(s: Seq<char>) -> Seq<char> {
    let s = replace_all(s, "\u{17B2}\u{17D2}\u{1799}"@, "\u{17B1}\u{17D2}\u{1799}"@);
    let s = replace_all(s, "\u{17B2}"@, "\u{17B1}\u{17D2}\u{1799}"@);
    let s = replace_all(s, "\u{17C1}\u{17B6}"@, "\u{17C4}"@);
    let s = replace_all(s, "\u{17C1}\u{17B8}"@, "\u{17BE}"@);
    let s = replace_all(s, "\u{17A3}"@, "\u{17A2}"@);
    let s = replace_all(s, "យូលង់"@, "យូរលង់"@);
    let s = replace_all(s, "ចរិក"@, "ចរិត"@);
    replace_all(s, "ប្រភទ"@, "ប្រភេទ"@)
}

fn apply_corrections(s: Vec<char>) -> (out: Vec<char>)
    ensures
        out@ == corrected(s@),
{
    let s = replace_str(s, "\u{17B2}\u{17D2}\u{1799}", "\u{17B1}\u{17D2}\u{1799}");
    let s = replace_str(s, "\u{17B2}", "\u{17B1}\u{17D2}\u{1799}");
    let s = replace_str(s, "\u{17C1}\u{17B6}", "\u{17C4}");
    let s = replace_str(s, "\u{17C1}\u{17B8}", "\u{17BE}");
    let s = replace_str(s, "\u{17A3}", "\u{17A2}");
    let s = replace_str(s, "យូលង់", "យូរលង់");
    let s = replace_str(s, "ចរិក", "ចរិត");
    replace_str(s, "ប្រភទ", "ប្រភេទ")
}

// ---------------------------------------------------------------------------
// Spacing
// ---------------------------------------------------------------------------

/// Conjunctions and clause markers that take a space before them.
pub open spec fn spaced_before(t: Seq<char>) -> bool {
    t == "ឬក៏ជា"@
        || t == "ប៉ុន្តែ"@
        || t == "តែ"@
        || t == "ហើយ"@
        || t == "ព្រោះ"@
        || t == "ពីព្រោះ"@
        || t == "ព្រមទាំង"@
        || t == "កាលណា"@
        || t == "ខណៈពេល"@
        || t == "ដូចជា"@
        || t == "មាន"@
        || t == "មិនមាន"@
        || t == "មិនមែន"@
        || t == "និង"@
        || t == "ឬ"@
}

/// Whether `t` takes a space before it.
pub fn is_spaced_before(t: &str) -> (b: bool)
    ensures
        b == spaced_before(t@),
{
    str_eq(t, "ឬក៏ជា")
        || str_eq(t, "ប៉ុន្តែ")
        || str_eq(t, "តែ")
        || str_eq(t, "ហើយ")
        || str_eq(t, "ព្រោះ")
        || str_eq(t, "ពីព្រោះ")
        || str_eq(t, "ព្រមទាំង")
        || str_eq(t, "កាលណា")
        || str_eq(t, "ខណៈពេល")
        || str_eq(t, "ដូចជា")
        || str_eq(t, "មាន")
        || str_eq(t, "មិនមាន")
        || str_eq(t, "មិនមែន")
        || str_eq(t, "និង")
        || str_eq(t, "ឬ")
}

/// Clause-starting markers that take a space after them.
pub open spec fn spaced_after(t: Seq<char>) -> bool {
    t == "ឬក៏ជា"@
        || t == "ប៉ុន្តែ"@
        || t == "តែ"@
        || t == "ហើយ"@
        || t == "ព្រោះ"@
        || t == "ពីព្រោះ"@
        || t == "ព្រមទាំង"@
        || t == "កាលណា"@
        || t == "ខណៈពេល"@
        || t == "ដូចជា"@
}

/// Whether `t` takes a space after it.
pub fn is_spaced_after(t: &str) -> (b: bool)
    ensures
        b == spaced_after(t@),
{
    str_eq(t, "ឬក៏ជា")
        || str_eq(t, "ប៉ុន្តែ")
        || str_eq(t, "តែ")
        || str_eq(t, "ហើយ")
        || str_eq(t, "ព្រោះ")
        || str_eq(t, "ពីព្រោះ")
        || str_eq(t, "ព្រមទាំង")
        || str_eq(t, "កាលណា")
        || str_eq(t, "ខណៈពេល")
        || str_eq(t, "ដូចជា")
}

/// Suffixes and modifiers that never take a space before them.
pub open spec fn merges_left(t: Seq<char>) -> bool {
    t == "ខ្មែរ"@
        || t == "ជាតិ"@
        || t == "ធំ"@
        || t == "តូច"@
        || t == "ថ្មី"@
        || t == "ចាស់"@
        || t == "ល្អ"@
        || t == "អាក្រក់"@
        || t == "ច្រើន"@
        || t == "តិច"@
        || t == "ខ្លាំង"@
        || t == "ខ្សោយ"@
        || t == "គ្រប់"@
        || t == "ទាំងអស់"@
        || t == "នីមួយៗ"@
        || t == "ផ្ទាល់ខ្លួន"@
        || t == "ផ្ទាល់"@
        || t == "ផ្ទាល់មាត់"@
        || t == "ក្នុងស្រុក"@
        || t == "ក្រៅប្រទេស"@
        || t == "ទៅ"@
        || t == "មក"@
        || t == "ឡើង"@
        || t == "ចុះ"@
        || t == "ចេញ"@
        || t == "ចូល"@
        || t == "ទៀត"@
        || t == "ដែរ"@
        || t == "ណាស់"@
        || t == "ពេក"@
        || t == "ជាង"@
        || t == "បំផុត"@
        || t == "ពិតប្រាកដ"@
        || t == "ពិត"@
        || t == "ប្រាកដ"@
        || t == "របស់ខ្លួន"@
        || t == "ខ្លួន"@
        || t == "ឃើញថា"@
        || t == "យល់ឃើញ"@
        || t == "អារាម"@
        || t == "សិល្ប៍"@
        || t == "សាស្ត្រ"@
        || t == "សង្គម"@
}

/// Whether `t` never takes a space before it.
pub fn is_merged_left(t: &str) -> (b: bool)
    ensures
        b == merges_left(t@),
{
    str_eq(t, "ខ្មែរ")
        || str_eq(t, "ជាតិ")
        || str_eq(t, "ធំ")
        || str_eq(t, "តូច")
        || str_eq(t, "ថ្មី")
        || str_eq(t, "ចាស់")
        || str_eq(t, "ល្អ")
        || str_eq(t, "អាក្រក់")
        || str_eq(t, "ច្រើន")
        || str_eq(t, "តិច")
        || str_eq(t, "ខ្លាំង")
        || str_eq(t, "ខ្សោយ")
        || str_eq(t, "គ្រប់")
        || str_eq(t, "ទាំងអស់")
        || str_eq(t, "នីមួយៗ")
        || str_eq(t, "ផ្ទាល់ខ្លួន")
        || str_eq(t, "ផ្ទាល់")
        || str_eq(t, "ផ្ទាល់មាត់")
        || str_eq(t, "ក្នុងស្រុក")
        || str_eq(t, "ក្រៅប្រទេស")
        || str_eq(t, "ទៅ")
        || str_eq(t, "មក")
        || str_eq(t, "ឡើង")
        || str_eq(t, "ចុះ")
        || str_eq(t, "ចេញ")
        || str_eq(t, "ចូល")
        || str_eq(t, "ទៀត")
        || str_eq(t, "ដែរ")
        || str_eq(t, "ណាស់")
        || str_eq(t, "ពេក")
        || str_eq(t, "ជាង")
        || str_eq(t, "បំផុត")
        || str_eq(t, "ពិតប្រាកដ")
        || str_eq(t, "ពិត")
        || str_eq(t, "ប្រាកដ")
        || str_eq(t, "របស់ខ្លួន")
        || str_eq(t, "ខ្លួន")
        || str_eq(t, "ឃើញថា")
        || str_eq(t, "យល់ឃើញ")
        || str_eq(t, "អារាម")
        || str_eq(t, "សិល្ប៍")
        || str_eq(t, "សាស្ត្រ")
        || str_eq(t, "សង្គម")
}

/// Prefixes and particles that never take a space after them.
pub open spec fn merges_right(t: Seq<char>) -> bool {
    t == "មិន"@
        || t == "កុំ"@
        || t == "គ្មាន"@
        || t == "ឥត"@
        || t == "និង"@
        || t == "នៃ"@
        || t == "ក្នុង"@
        || t == "ចំពោះ"@
        || t == "លើ"@
        || t == "ក្រោម"@
        || t == "ពី"@
        || t == "ទៅ"@
        || t == "ដល់"@
        || t == "តាម"@
        || t == "ដោយ"@
        || t == "នៅ"@
        || t == "ជាមួយ"@
        || t == "ជាមួយនឹង"@
        || t == "ការ"@
        || t == "សេចក្តី"@
        || t == "ភាព"@
        || t == "រឿង"@
        || t == "វត្ត"@
        || t == "ព្រះ"@
        || t == "អក្សរ"@
        || t == "ត្រូវ"@
        || t == "អាច"@
        || t == "បាន"@
        || t == "កំពុង"@
        || t == "តែង"@
        || t == "ធ្លាប់"@
        || t == "ឱ្យ"@
        || t == "ជា"@
        || t == "គឺ"@
        || t == "គឺជា"@
}

/// Whether `t` never takes a space after it.
pub fn is_merged_right(t: &str) -> (b: bool)
    ensures
        b == merges_right(t@),
{
    str_eq(t, "មិន")
        || str_eq(t, "កុំ")
        || str_eq(t, "គ្មាន")
        || str_eq(t, "ឥត")
        || str_eq(t, "និង")
        || str_eq(t, "នៃ")
        || str_eq(t, "ក្នុង")
        || str_eq(t, "ចំពោះ")
        || str_eq(t, "លើ")
        || str_eq(t, "ក្រោម")
        || str_eq(t, "ពី")
        || str_eq(t, "ទៅ")
        || str_eq(t, "ដល់")
        || str_eq(t, "តាម")
        || str_eq(t, "ដោយ")
        || str_eq(t, "នៅ")
        || str_eq(t, "ជាមួយ")
        || str_eq(t, "ជាមួយនឹង")
        || str_eq(t, "ការ")
        || str_eq(t, "សេចក្តី")
        || str_eq(t, "ភាព")
        || str_eq(t, "រឿង")
        || str_eq(t, "វត្ត")
        || str_eq(t, "ព្រះ")
        || str_eq(t, "អក្សរ")
        || str_eq(t, "ត្រូវ")
        || str_eq(t, "អាច")
        || str_eq(t, "បាន")
        || str_eq(t, "កំពុង")
        || str_eq(t, "តែង")
        || str_eq(t, "ធ្លាប់")
        || str_eq(t, "ឱ្យ")
        || str_eq(t, "ជា")
        || str_eq(t, "គឺ")
        || str_eq(t, "គឺជា")
}

/// Sentence and clause punctuation, always followed by a space.
pub open spec fn ends_clause(t: Seq<char>) -> bool {
    t == "\u{17D4}"@ || t == "\u{17D5}"@ || t == "\u{17D6}"@
}

/// Whether a space goes between the tokens `prev` and `tok`.
pub open spec fn space_between(prev: Seq<char>, tok: Seq<char>) -> bool {
    ends_clause(prev) || ((spaced_before(tok) || spaced_after(prev)) && !merges_right(prev)
        && !merges_left(tok))
}

/// The tokens written out in order, with a space wherever
/// [`space_between`] asks for one.
pub open spec fn spaced_text(toks: Seq<Seq<char>>) -> Seq<char>
    decreases toks.len(),
{
    if toks.len() == 0 {
        Seq::empty()
    } else if toks.len() == 1 {
        toks[0]
    } else {
        let init = toks.drop_last();
        spaced_text(init) + (if space_between(init.last(), toks.last()) {
            seq![' ']
        } else {
            Seq::empty()
        }) + toks.last()
    }
}

fn join_spaced(tokens: &Vec<String>) -> (out: Vec<char>)
    ensures
        out@ == spaced_text(views(tokens@)),
{
    let mut out: Vec<char> = Vec::new();
    let mut i: usize = 0;
    while i < tokens.len()
        invariant
            i <= tokens@.len(),
            out@ == spaced_text(views(tokens@).take(i as int)),
        decreases tokens.len() - i,
    {
        let ghost before = views(tokens@).take(i as int);
        let ghost after = views(tokens@).take(i + 1);
        proof {
            assert(after.drop_last() =~= before);
        }
        if i > 0 {
            let sp = ends_clause_str(tokens[i - 1].as_str()) || ((is_spaced_before(
                tokens[i].as_str(),
            ) || is_spaced_after(tokens[i - 1].as_str())) && !is_merged_right(
                tokens[i - 1].as_str(),
            ) && !is_merged_left(tokens[i].as_str()));
            assert(before.last() == tokens@[i - 1]@);
            if sp {
                out.push(' ');
            }
        } else {
            assert(before =~= Seq::<Seq<char>>::empty());
        }
        let cs = str_chars(tokens[i].as_str());
        push_all(&mut out, cs.as_slice());
        i = i + 1;
    }
    assert(views(tokens@).take(i as int) =~= views(tokens@));
    out
}

fn ends_clause_str(t: &str) -> (b: bool)
    ensures
        b == ends_clause(t@),
{
    str_eq(t, "\u{17D4}") || str_eq(t, "\u{17D5}") || str_eq(t, "\u{17D6}")
}

// ---------------------------------------------------------------------------
// Where spaces go
// ---------------------------------------------------------------------------

/// The conjunctions and clause markers written with a space before them.
pub open spec fn conjunction(t: Seq<char>) -> bool {
    t == "ឬក៏ជា"@
        || t == "ប៉ុន្តែ"@
        || t == "តែ"@
        || t == "ហើយ"@
        || t == "ព្រោះ"@
        || t == "ពីព្រោះ"@
        || t == "ព្រមទាំង"@
        || t == "កាលណា"@
        || t == "ខណៈពេល"@
        || t == "ដូចជា"@
        || t == "មាន"@
        || t == "មិនមាន"@
        || t == "មិនមែន"@
        || t == "និង"@
        || t == "ឬ"@
}

/// The clause-opening markers written with a space after them.
pub open spec fn clause_opener(t: Seq<char>) -> bool {
    t == "ឬក៏ជា"@
        || t == "ប៉ុន្តែ"@
        || t == "តែ"@
        || t == "ហើយ"@
        || t == "ព្រោះ"@
        || t == "ពីព្រោះ"@
        || t == "ព្រមទាំង"@
        || t == "កាលណា"@
        || t == "ខណៈពេល"@
        || t == "ដូចជា"@
}

/// No conjunction is a suffix that merges to the left.
proof fn lemma_conjunctions_not_merged_left(t: Seq<char>)
    ensures
        conjunction(t) ==> !merges_left(t),
{
    reveal_strlit("ឬក៏ជា");
    reveal_strlit("ប៉ុន្តែ");
    reveal_strlit("តែ");
    reveal_strlit("ហើយ");
    reveal_strlit("ព្រោះ");
    reveal_strlit("ពីព្រោះ");
    reveal_strlit("ព្រមទាំង");
    reveal_strlit("កាលណា");
    reveal_strlit("ខណៈពេល");
    reveal_strlit("ដូចជា");
    reveal_strlit("មាន");
    reveal_strlit("មិនមាន");
    reveal_strlit("មិនមែន");
    reveal_strlit("និង");
    reveal_strlit("ឬ");
    reveal_strlit("ខ្មែរ");
    reveal_strlit("ជាតិ");
    reveal_strlit("ធំ");
    reveal_strlit("តូច");
    reveal_strlit("ថ្មី");
    reveal_strlit("ចាស់");
    reveal_strlit("ល្អ");
    reveal_strlit("អាក្រក់");
    reveal_strlit("ច្រើន");
    reveal_strlit("តិច");
    reveal_strlit("ខ្លាំង");
    reveal_strlit("ខ្សោយ");
    reveal_strlit("គ្រប់");
    reveal_strlit("ទាំងអស់");
    reveal_strlit("នីមួយៗ");
    reveal_strlit("ផ្ទាល់ខ្លួន");
    reveal_strlit("ផ្ទាល់");
    reveal_strlit("ផ្ទាល់មាត់");
    reveal_strlit("ក្នុងស្រុក");
    reveal_strlit("ក្រៅប្រទេស");
    reveal_strlit("ទៅ");
    reveal_strlit("មក");
    reveal_strlit("ឡើង");
    reveal_strlit("ចុះ");
    reveal_strlit("ចេញ");
    reveal_strlit("ចូល");
    reveal_strlit("ទៀត");
    reveal_strlit("ដែរ");
    reveal_strlit("ណាស់");
    reveal_strlit("ពេក");
    reveal_strlit("ជាង");
    reveal_strlit("បំផុត");
    reveal_strlit("ពិតប្រាកដ");
    reveal_strlit("ពិត");
    reveal_strlit("ប្រាកដ");
    reveal_strlit("របស់ខ្លួន");
    reveal_strlit("ខ្លួន");
    reveal_strlit("ឃើញថា");
    reveal_strlit("យល់ឃើញ");
    reveal_strlit("អារាម");
    reveal_strlit("សិល្ប៍");
    reveal_strlit("សាស្ត្រ");
    reveal_strlit("សង្គម");
    assert("ឬក៏ជា"@.len() == 5);
    assert("ប៉ុន្តែ"@.len() == 7);
    assert("តែ"@.len() == 2);
    assert("ហើយ"@.len() == 3);
    assert("ព្រោះ"@.len() == 5);
    assert("ពីព្រោះ"@.len() == 7);
    assert("ព្រមទាំង"@.len() == 8);
    assert("កាលណា"@.len() == 5);
    assert("ខណៈពេល"@.len() == 6);
    assert("ដូចជា"@.len() == 5);
    assert("មាន"@.len() == 3);
    assert("មិនមាន"@.len() == 6);
    assert("មិនមែន"@.len() == 6);
    assert("និង"@.len() == 3);
    assert("ឬ"@.len() == 1);
    assert("ខ្មែរ"@.len() == 5);
    assert("ជាតិ"@.len() == 4);
    assert("ធំ"@.len() == 2);
    assert("តូច"@.len() == 3);
    assert("ថ្មី"@.len() == 4);
    assert("ចាស់"@.len() == 4);
    assert("ល្អ"@.len() == 3);
    assert("អាក្រក់"@.len() == 7);
    assert("ច្រើន"@.len() == 5);
    assert("តិច"@.len() == 3);
    assert("ខ្លាំង"@.len() == 6);
    assert("ខ្សោយ"@.len() == 5);
    assert("គ្រប់"@.len() == 5);
    assert("ទាំងអស់"@.len() == 7);
    assert("នីមួយៗ"@.len() == 6);
    assert("ផ្ទាល់ខ្លួន"@.len() == 11);
    assert("ផ្ទាល់"@.len() == 6);
    assert("ផ្ទាល់មាត់"@.len() == 10);
    assert("ក្នុងស្រុក"@.len() == 10);
    assert("ក្រៅប្រទេស"@.len() == 10);
    assert("ទៅ"@.len() == 2);
    assert("មក"@.len() == 2);
    assert("ឡើង"@.len() == 3);
    assert("ចុះ"@.len() == 3);
    assert("ចេញ"@.len() == 3);
    assert("ចូល"@.len() == 3);
    assert("ទៀត"@.len() == 3);
    assert("ដែរ"@.len() == 3);
    assert("ណាស់"@.len() == 4);
    assert("ពេក"@.len() == 3);
    assert("ជាង"@.len() == 3);
    assert("បំផុត"@.len() == 5);
    assert("ពិតប្រាកដ"@.len() == 9);
    assert("ពិត"@.len() == 3);
    assert("ប្រាកដ"@.len() == 6);
    assert("របស់ខ្លួន"@.len() == 9);
    assert("ខ្លួន"@.len() == 5);
    assert("ឃើញថា"@.len() == 5);
    assert("យល់ឃើញ"@.len() == 6);
    assert("អារាម"@.len() == 5);
    assert("សិល្ប៍"@.len() == 6);
    assert("សាស្ត្រ"@.len() == 7);
    assert("សង្គម"@.len() == 5);
    assert("ឬក៏ជា"@[0] != "ខ្មែរ"@[0]);
    assert("ឬក៏ជា"@[0] != "ច្រើន"@[0]);
    assert("ឬក៏ជា"@[0] != "ខ្សោយ"@[0]);
    assert("ឬក៏ជា"@[0] != "គ្រប់"@[0]);
    assert("ឬក៏ជា"@[0] != "បំផុត"@[0]);
    assert("ឬក៏ជា"@[0] != "ខ្លួន"@[0]);
    assert("ឬក៏ជា"@[0] != "ឃើញថា"@[0]);
    assert("ឬក៏ជា"@[0] != "អារាម"@[0]);
    assert("ឬក៏ជា"@[0] != "សង្គម"@[0]);
    assert("ប៉ុន្តែ"@[0] != "អាក្រក់"@[0]);
    assert("ប៉ុន្តែ"@[0] != "ទាំងអស់"@[0]);
    assert("ប៉ុន្តែ"@[0] != "សាស្ត្រ"@[0]);
    assert("តែ"@[0] != "ធំ"@[0]);
    assert("តែ"@[0] != "ទៅ"@[0]);
    assert("តែ"@[0] != "មក"@[0]);
    assert("ហើយ"@[0] != "តូច"@[0]);
    assert("ហើយ"@[0] != "ល្អ"@[0]);
    assert("ហើយ"@[0] != "តិច"@[0]);
    assert("ហើយ"@[0] != "ឡើង"@[0]);
    assert("ហើយ"@[0] != "ចុះ"@[0]);
    assert("ហើយ"@[0] != "ចេញ"@[0]);
    assert("ហើយ"@[0] != "ចូល"@[0]);
    assert("ហើយ"@[0] != "ទៀត"@[0]);
    assert("ហើយ"@[0] != "ដែរ"@[0]);
    assert("ហើយ"@[0] != "ពេក"@[0]);
    assert("ហើយ"@[0] != "ជាង"@[0]);
    assert("ហើយ"@[0] != "ពិត"@[0]);
    assert("ព្រោះ"@[0] != "ខ្មែរ"@[0]);
    assert("ព្រោះ"@[0] != "ច្រើន"@[0]);
    assert("ព្រោះ"@[0] != "ខ្សោយ"@[0]);
    assert("ព្រោះ"@[0] != "គ្រប់"@[0]);
    assert("ព្រោះ"@[0] != "បំផុត"@[0]);
    assert("ព្រោះ"@[0] != "ខ្លួន"@[0]);
    assert("ព្រោះ"@[0] != "ឃើញថា"@[0]);
    assert("ព្រោះ"@[0] != "អារាម"@[0]);
    assert("ព្រោះ"@[0] != "សង្គម"@[0]);
    assert("ពីព្រោះ"@[0] != "អាក្រក់"@[0]);
    assert("ពីព្រោះ"@[0] != "ទាំងអស់"@[0]);
    assert("ពីព្រោះ"@[0] != "សាស្ត្រ"@[0]);
    assert("កាលណា"@[0] != "ខ្មែរ"@[0]);
    assert("កាលណា"@[0] != "ច្រើន"@[0]);
    assert("កាលណា"@[0] != "ខ្សោយ"@[0]);
    assert("កាលណា"@[0] != "គ្រប់"@[0]);
    assert("កាលណា"@[0] != "បំផុត"@[0]);
    assert("កាលណា"@[0] != "ខ្លួន"@[0]);
    assert("កាលណា"@[0] != "ឃើញថា"@[0]);
    assert("កាលណា"@[0] != "អារាម"@[0]);
    assert("កាលណា"@[0] != "សង្គម"@[0]);
    assert("ខណៈពេល"@[1] != "ខ្លាំង"@[1]);
    assert("ខណៈពេល"@[0] != "នីមួយៗ"@[0]);
    assert("ខណៈពេល"@[0] != "ផ្ទាល់"@[0]);
    assert("ខណៈពេល"@[0] != "ប្រាកដ"@[0]);
    assert("ខណៈពេល"@[0] != "យល់ឃើញ"@[0]);
    assert("ខណៈពេល"@[0] != "សិល្ប៍"@[0]);
    assert("ដូចជា"@[0] != "ខ្មែរ"@[0]);
    assert("ដូចជា"@[0] != "ច្រើន"@[0]);
    assert("ដូចជា"@[0] != "ខ្សោយ"@[0]);
    assert("ដូចជា"@[0] != "គ្រប់"@[0]);
    assert("ដូចជា"@[0] != "បំផុត"@[0]);
    assert("ដូចជា"@[0] != "ខ្លួន"@[0]);
    assert("ដូចជា"@[0] != "ឃើញថា"@[0]);
    assert("ដូចជា"@[0] != "អារាម"@[0]);
    assert("ដូចជា"@[0] != "សង្គម"@[0]);
    assert("មាន"@[0] != "តូច"@[0]);
    assert("មាន"@[0] != "ល្អ"@[0]);
    assert("មាន"@[0] != "តិច"@[0]);
    assert("មាន"@[0] != "ឡើង"@[0]);
    assert("មាន"@[0] != "ចុះ"@[0]);
    assert("មាន"@[0] != "ចេញ"@[0]);
    assert("មាន"@[0] != "ចូល"@[0]);
    assert("មាន"@[0] != "ទៀត"@[0]);
    assert("មាន"@[0] != "ដែរ"@[0]);
    assert("មាន"@[0] != "ពេក"@[0]);
    assert("មាន"@[0] != "ជាង"@[0]);
    assert("មាន"@[0] != "ពិត"@[0]);
    assert("មិនមាន"@[0] != "ខ្លាំង"@[0]);
    assert("មិនមាន"@[0] != "នីមួយៗ"@[0]);
    assert("មិនមាន"@[0] != "ផ្ទាល់"@[0]);
    assert("មិនមាន"@[0] != "ប្រាកដ"@[0]);
    assert("មិនមាន"@[0] != "យល់ឃើញ"@[0]);
    assert("មិនមាន"@[0] != "សិល្ប៍"@[0]);
    assert("មិនមែន"@[0] != "ខ្លាំង"@[0]);
    assert("មិនមែន"@[0] != "នីមួយៗ"@[0]);
    assert("មិនមែន"@[0] != "ផ្ទាល់"@[0]);
    assert("មិនមែន"@[0] != "ប្រាកដ"@[0]);
    assert("មិនមែន"@[0] != "យល់ឃើញ"@[0]);
    assert("មិនមែន"@[0] != "សិល្ប៍"@[0]);
    assert("និង"@[0] != "តូច"@[0]);
    assert("និង"@[0] != "ល្អ"@[0]);
    assert("និង"@[0] != "តិច"@[0]);
    assert("និង"@[0] != "ឡើង"@[0]);
    assert("និង"@[0] != "ចុះ"@[0]);
    assert("និង"@[0] != "ចេញ"@[0]);
    assert("និង"@[0] != "ចូល"@[0]);
    assert("និង"@[0] != "ទៀត"@[0]);
    assert("និង"@[0] != "ដែរ"@[0]);
    assert("និង"@[0] != "ពេក"@[0]);
    assert("និង"@[0] != "ជាង"@[0]);
    assert("និង"@[0] != "ពិត"@[0]);
}

/// No clause-opening marker is a particle that merges to the right.
proof fn lemma_openers_not_merged_right(t: Seq<char>)
    ensures
        clause_opener(t) ==> !merges_right(t),
{
    reveal_strlit("ឬក៏ជា");
    reveal_strlit("ប៉ុន្តែ");
    reveal_strlit("តែ");
    reveal_strlit("ហើយ");
    reveal_strlit("ព្រោះ");
    reveal_strlit("ពីព្រោះ");
    reveal_strlit("ព្រមទាំង");
    reveal_strlit("កាលណា");
    reveal_strlit("ខណៈពេល");
    reveal_strlit("ដូចជា");
    reveal_strlit("មិន");
    reveal_strlit("កុំ");
    reveal_strlit("គ្មាន");
    reveal_strlit("ឥត");
    reveal_strlit("និង");
    reveal_strlit("នៃ");
    reveal_strlit("ក្នុង");
    reveal_strlit("ចំពោះ");
    reveal_strlit("លើ");
    reveal_strlit("ក្រោម");
    reveal_strlit("ពី");
    reveal_strlit("ទៅ");
    reveal_strlit("ដល់");
    reveal_strlit("តាម");
    reveal_strlit("ដោយ");
    reveal_strlit("នៅ");
    reveal_strlit("ជាមួយ");
    reveal_strlit("ជាមួយនឹង");
    reveal_strlit("ការ");
    reveal_strlit("សេចក្តី");
    reveal_strlit("ភាព");
    reveal_strlit("រឿង");
    reveal_strlit("វត្ត");
    reveal_strlit("ព្រះ");
    reveal_strlit("អក្សរ");
    reveal_strlit("ត្រូវ");
    reveal_strlit("អាច");
    reveal_strlit("បាន");
    reveal_strlit("កំពុង");
    reveal_strlit("តែង");
    reveal_strlit("ធ្លាប់");
    reveal_strlit("ឱ្យ");
    reveal_strlit("ជា");
    reveal_strlit("គឺ");
    reveal_strlit("គឺជា");
    assert("ឬក៏ជា"@.len() == 5);
    assert("ប៉ុន្តែ"@.len() == 7);
    assert("តែ"@.len() == 2);
    assert("ហើយ"@.len() == 3);
    assert("ព្រោះ"@.len() == 5);
    assert("ពីព្រោះ"@.len() == 7);
    assert("ព្រមទាំង"@.len() == 8);
    assert("កាលណា"@.len() == 5);
    assert("ខណៈពេល"@.len() == 6);
    assert("ដូចជា"@.len() == 5);
    assert("មិន"@.len() == 3);
    assert("កុំ"@.len() == 3);
    assert("គ្មាន"@.len() == 5);
    assert("ឥត"@.len() == 2);
    assert("និង"@.len() == 3);
    assert("នៃ"@.len() == 2);
    assert("ក្នុង"@.len() == 5);
    assert("ចំពោះ"@.len() == 5);
    assert("លើ"@.len() == 2);
    assert("ក្រោម"@.len() == 5);
    assert("ពី"@.len() == 2);
    assert("ទៅ"@.len() == 2);
    assert("ដល់"@.len() == 3);
    assert("តាម"@.len() == 3);
    assert("ដោយ"@.len() == 3);
    assert("នៅ"@.len() == 2);
    assert("ជាមួយ"@.len() == 5);
    assert("ជាមួយនឹង"@.len() == 8);
    assert("ការ"@.len() == 3);
    assert("សេចក្តី"@.len() == 7);
    assert("ភាព"@.len() == 3);
    assert("រឿង"@.len() == 3);
    assert("វត្ត"@.len() == 4);
    assert("ព្រះ"@.len() == 4);
    assert("អក្សរ"@.len() == 5);
    assert("ត្រូវ"@.len() == 5);
    assert("អាច"@.len() == 3);
    assert("បាន"@.len() == 3);
    assert("កំពុង"@.len() == 5);
    assert("តែង"@.len() == 3);
    assert("ធ្លាប់"@.len() == 6);
    assert("ឱ្យ"@.len() == 3);
    assert("ជា"@.len() == 2);
    assert("គឺ"@.len() == 2);
    assert("គឺជា"@.len() == 4);
    assert("ឬក៏ជា"@[0] != "គ្មាន"@[0]);
    assert("ឬក៏ជា"@[0] != "ក្នុង"@[0]);
    assert("ឬក៏ជា"@[0] != "ចំពោះ"@[0]);
    assert("ឬក៏ជា"@[0] != "ក្រោម"@[0]);
    assert("ឬក៏ជា"@[0] != "ជាមួយ"@[0]);
    assert("ឬក៏ជា"@[0] != "អក្សរ"@[0]);
    assert("ឬក៏ជា"@[0] != "ត្រូវ"@[0]);
    assert("ឬក៏ជា"@[0] != "កំពុង"@[0]);
    assert("ប៉ុន្តែ"@[0] != "សេចក្តី"@[0]);
    assert("តែ"@[0] != "ឥត"@[0]);
    assert("តែ"@[0] != "នៃ"@[0]);
    assert("តែ"@[0] != "លើ"@[0]);
    assert("តែ"@[0] != "ពី"@[0]);
    assert("តែ"@[0] != "ទៅ"@[0]);
    assert("តែ"@[0] != "នៅ"@[0]);
    assert("តែ"@[0] != "ជា"@[0]);
    assert("តែ"@[0] != "គឺ"@[0]);
    assert("ហើយ"@[0] != "មិន"@[0]);
    assert("ហើយ"@[0] != "កុំ"@[0]);
    assert("ហើយ"@[0] != "និង"@[0]);
    assert("ហើយ"@[0] != "ដល់"@[0]);
    assert("ហើយ"@[0] != "តាម"@[0]);
    assert("ហើយ"@[0] != "ដោយ"@[0]);
    assert("ហើយ"@[0] != "ការ"@[0]);
    assert("ហើយ"@[0] != "ភាព"@[0]);
    assert("ហើយ"@[0] != "រឿង"@[0]);
    assert("ហើយ"@[0] != "អាច"@[0]);
    assert("ហើយ"@[0] != "បាន"@[0]);
    assert("ហើយ"@[0] != "តែង"@[0]);
    assert("ហើយ"@[0] != "ឱ្យ"@[0]);
    assert("ព្រោះ"@[0] != "គ្មាន"@[0]);
    assert("ព្រោះ"@[0] != "ក្នុង"@[0]);
    assert("ព្រោះ"@[0] != "ចំពោះ"@[0]);
    assert("ព្រោះ"@[0] != "ក្រោម"@[0]);
    assert("ព្រោះ"@[0] != "ជាមួយ"@[0]);
    assert("ព្រោះ"@[0] != "អក្សរ"@[0]);
    assert("ព្រោះ"@[0] != "ត្រូវ"@[0]);
    assert("ព្រោះ"@[0] != "កំពុង"@[0]);
    assert("ពីព្រោះ"@[0] != "សេចក្តី"@[0]);
    assert("ព្រមទាំង"@[0] != "ជាមួយនឹង"@[0]);
    assert("កាលណា"@[0] != "គ្មាន"@[0]);
    assert("កាលណា"@[1] != "ក្នុង"@[1]);
    assert("កាលណា"@[0] != "ចំពោះ"@[0]);
    assert("កាលណា"@[1] != "ក្រោម"@[1]);
    assert("កាលណា"@[0] != "ជាមួយ"@[0]);
    assert("កាលណា"@[0] != "អក្សរ"@[0]);
    assert("កាលណា"@[0] != "ត្រូវ"@[0]);
    assert("កាលណា"@[1] != "កំពុង"@[1]);
    assert("ខណៈពេល"@[0] != "ធ្លាប់"@[0]);
    assert("ដូចជា"@[0] != "គ្មាន"@[0]);
    assert("ដូចជា"@[0] != "ក្នុង"@[0]);
    assert("ដូចជា"@[0] != "ចំពោះ"@[0]);
    assert("ដូចជា"@[0] != "ក្រោម"@[0]);
    assert("ដូចជា"@[0] != "ជាមួយ"@[0]);
    assert("ដូចជា"@[0] != "អក្សរ"@[0]);
    assert("ដូចជា"@[0] != "ត្រូវ"@[0]);
    assert("ដូចជា"@[0] != "កំពុង"@[0]);
}

/// Conjunctions and clause markers are set off by spaces: one goes before
/// a conjunction unless the token before it never takes a space after it,
/// after a clause-opening marker unless the next token never takes a space
/// before it, and after sentence or clause punctuation (U+17D4, U+17D5,
/// U+17D6) always.
pub proof fn law_conjunctions_are_spaced(prev: Seq<char>, tok: Seq<char>)
    ensures
        conjunction(tok) && !merges_right(prev) ==> space_between(prev, tok),
        clause_opener(prev) && !merges_left(tok) ==> space_between(prev, tok),
        prev == seq!['\u{17D4}'] || prev == seq!['\u{17D5}'] || prev == seq!['\u{17D6}']
            ==> space_between(prev, tok),
{
    lemma_conjunctions_not_merged_left(tok);
    lemma_openers_not_merged_right(prev);
    reveal_strlit("\u{17D4}");
    assert("\u{17D4}"@ == seq!['\u{17D4}']);
    reveal_strlit("\u{17D5}");
    reveal_strlit("\u{17D6}");
    assert("\u{17D5}"@ == seq!['\u{17D5}']);
    assert("\u{17D6}"@ == seq!['\u{17D6}']);
}

/// The re-spaced text of a token list grows token by token: each token is
/// written after the ones before it, with one space first exactly when
/// [`space_between`] asks for one.
pub proof fn law_spaced_text_grows(toks: Seq<Seq<char>>, k: int)
    requires
        1 <= k < toks.len(),
    ensures
        spaced_text(toks.take(k + 1)) == spaced_text(toks.take(k)) + (if space_between(
            toks[k - 1],
            toks[k],
        ) {
            seq![' ']
        } else {
            Seq::empty()
        }) + toks[k],
{
    let t = toks.take(k + 1);
    assert(t.drop_last() =~= toks.take(k));
    assert(t.last() == toks[k]);
    assert(toks.take(k).last() == toks[k - 1]);
}

// ---------------------------------------------------------------------------
// Full normalization
// ---------------------------------------------------------------------------

/// What full normalization makes of `text` when words are found with
/// `strategy` and dictionary `d` (the corrected text normalized again
/// before segmenting when `renormalize`): the normal form, corrected,
/// segmented, re-spaced and trimmed.
pub open spec fn full_form(text: Seq<char>, strategy: Strategy, d: Dict, renormalize: bool) -> Seq<
    char,
> {
    trimmed(
        spaced_text(
            segmented(segment_input(corrected(normal_form(text)), renormalize), strategy, d),
        ),
    )
}

/// Fully normalize `text`, finding word boundaries with `tokenizer`.
pub fn normalize_full_with(text: &str, tokenizer: &KhmerTokenizer) -> (out: String)
    requires
        tokenizer.wf(),
    ensures
        out@ == full_form(
            text@,
            tokenizer.strategy_of(),
            tokenizer.dict(),
            tokenizer.normalizes(),
        ),
{
    let reordered = normalize(text);
    let cs = str_chars(reordered.as_str());
    let fixed = apply_corrections(cs);
    let fixed_text = string_of(fixed.as_slice());
    let tokens = tokenizer.segment(fixed_text.as_str());
    let spaced = join_spaced(&tokens);
    let t = trim(spaced.as_slice());
    string_of(t.as_slice())
}

/// Fully normalize text: combining-mark reordering, orthographic
/// replacements (such as the variant letter "oy" to its standard
/// spelling), common spelling corrections, and spacing cleanup around the
/// words of the default dictionary. This changes the text's length, so
/// offsets into the input do not carry over.
pub fn normalize_full(text: &str) -> (out: String)
    ensures
        out@ == full_form(
            text@,
            Strategy::MinWordsDp,
            dict_of_words(dict_entries(DEFAULT_DICT@)),
            true,
        ),
{
    let tokenizer = KhmerTokenizer::with_default_dict();
    normalize_full_with(text, &tokenizer)
}


// ---------------------------------------------------------------------------
// What full normalization never leaves behind
// ---------------------------------------------------------------------------

proof fn lemma_concat_free(a: Seq<char>, b: Seq<char>, c: char)
    requires
        !a.contains(c),
        !b.contains(c),
    ensures
        !(a + b).contains(c),
{
    if (a + b).contains(c) {
        let k = (a + b).index_of(c);
        if k < a.len() {
            assert(a[k] == c);
        } else {
            assert(b[k - a.len()] == c);
        }
    }
}

proof fn lemma_rest_free(s: Seq<char>, i: int, c: char)
    requires
        !s.contains(c),
        0 <= i <= s.len(),
    ensures
        !s.subrange(i, s.len() as int).contains(c),
{
    if s.subrange(i, s.len() as int).contains(c) {
        let k = s.subrange(i, s.len() as int).index_of(c);
        assert(s[i + k] == c);
    }
}

/// Replacing never brings in a character that neither the text nor the
/// replacement holds.
proof fn lemma_replace_keeps_free(s: Seq<char>, pat: Seq<char>, rep: Seq<char>, c: char)
    requires
        !s.contains(c),
        !rep.contains(c),
    ensures
        !replace_all(s, pat, rep).contains(c),
    decreases s.len(),
{
    if pat.len() > 0 && s.len() >= pat.len() {
        if s.subrange(0, pat.len() as int) == pat {
            lemma_rest_free(s, pat.len() as int, c);
            lemma_replace_keeps_free(s.subrange(pat.len() as int, s.len() as int), pat, rep, c);
            lemma_concat_free(rep, replace_all(s.subrange(pat.len() as int, s.len() as int), pat, rep), c);
        } else {
            lemma_rest_free(s, 1, c);
            lemma_replace_keeps_free(s.subrange(1, s.len() as int), pat, rep, c);
            assert(!seq![s[0]].contains(c)) by {
                if seq![s[0]].contains(c) {
                    assert(seq![s[0]][0] == c);
                    assert(s[0] == c);
                }
            }
            lemma_concat_free(seq![s[0]], replace_all(s.subrange(1, s.len() as int), pat, rep), c);
        }
    }
}

/// Replacing a single character by text that does not hold it removes it
/// everywhere.
proof fn lemma_replace_removes(s: Seq<char>, c: char, rep: Seq<char>)
    requires
        !rep.contains(c),
    ensures
        !replace_all(s, seq![c], rep).contains(c),
    decreases s.len(),
{
    let pat = seq![c];
    if s.len() >= 1 {
        let rest = s.subrange(1, s.len() as int);
        lemma_replace_removes(rest, c, rep);
        if s.subrange(0, 1) == pat {
            lemma_concat_free(rep, replace_all(rest, pat, rep), c);
        } else {
            assert(s[0] != c) by {
                if s[0] == c {
                    assert(s.subrange(0, 1) =~= pat);
                }
            }
            assert(!seq![s[0]].contains(c)) by {
                if seq![s[0]].contains(c) {
                    assert(seq![s[0]][0] == c);
                }
            }
            lemma_concat_free(seq![s[0]], replace_all(rest, pat, rep), c);
        }
    }
}

proof fn lemma_corrected_free(s: Seq<char>)
    ensures
        !corrected(s).contains('\u{17B2}'),
        !corrected(s).contains('\u{17A3}'),
{
    reveal_strlit("\u{17B2}\u{17D2}\u{1799}");
    reveal_strlit("\u{17B1}\u{17D2}\u{1799}");
    reveal_strlit("\u{17B2}");
    reveal_strlit("\u{17C1}\u{17B6}");
    reveal_strlit("\u{17C4}");
    reveal_strlit("\u{17C1}\u{17B8}");
    reveal_strlit("\u{17BE}");
    reveal_strlit("\u{17A3}");
    reveal_strlit("\u{17A2}");
    reveal_strlit("យូលង់");
    reveal_strlit("យូរលង់");
    reveal_strlit("ចរិក");
    reveal_strlit("ចរិត");
    reveal_strlit("ប្រភទ");
    reveal_strlit("ប្រភេទ");
    let oy = "\u{17B1}\u{17D2}\u{1799}"@;
    let s1 = replace_all(s, "\u{17B2}\u{17D2}\u{1799}"@, oy);
    assert("\u{17B2}"@ =~= seq!['\u{17B2}']);
    assert("\u{17A3}"@ =~= seq!['\u{17A3}']);
    let s2 = replace_all(s1, "\u{17B2}"@, oy);
    let s3 = replace_all(s2, "\u{17C1}\u{17B6}"@, "\u{17C4}"@);
    let s4 = replace_all(s3, "\u{17C1}\u{17B8}"@, "\u{17BE}"@);
    let s5 = replace_all(s4, "\u{17A3}"@, "\u{17A2}"@);
    let s6 = replace_all(s5, "យូលង់"@, "យូរលង់"@);
    let s7 = replace_all(s6, "ចរិក"@, "ចរិត"@);
    let s8 = replace_all(s7, "ប្រភទ"@, "ប្រភេទ"@);
    assert(!oy.contains('\u{17B2}')) by {
        if oy.contains('\u{17B2}') {
            let k = oy.index_of('\u{17B2}');
            assert(0 <= k < 3);
        }
    }
    lemma_replace_removes(s1, '\u{17B2}', oy);
    let reps = seq!["\u{17C4}"@, "\u{17BE}"@, "\u{17A2}"@, "យូរលង់"@, "ចរិត"@, "ប្រភេទ"@];
    assert forall|k: int| 0 <= k < 6 implies !(#[trigger] reps[k]).contains('\u{17B2}')
        && !reps[k].contains('\u{17A3}') by {
        if reps[k].contains('\u{17B2}') {
            let m = reps[k].index_of('\u{17B2}');
            assert(reps[k][m] == '\u{17B2}');
        }
        if reps[k].contains('\u{17A3}') {
            let m = reps[k].index_of('\u{17A3}');
            assert(reps[k][m] == '\u{17A3}');
        }
    }
    assert(reps[0] == "\u{17C4}"@ && reps[1] == "\u{17BE}"@ && reps[2] == "\u{17A2}"@);
    assert(reps[3] == "យូរលង់"@ && reps[4] == "ចរិត"@ && reps[5] == "ប្រភេទ"@);
    lemma_replace_keeps_free(s2, "\u{17C1}\u{17B6}"@, "\u{17C4}"@, '\u{17B2}');
    lemma_replace_keeps_free(s3, "\u{17C1}\u{17B8}"@, "\u{17BE}"@, '\u{17B2}');
    lemma_replace_keeps_free(s4, "\u{17A3}"@, "\u{17A2}"@, '\u{17B2}');
    lemma_replace_keeps_free(s5, "យូលង់"@, "យូរលង់"@, '\u{17B2}');
    lemma_replace_keeps_free(s6, "ចរិក"@, "ចរិត"@, '\u{17B2}');
    lemma_replace_keeps_free(s7, "ប្រភទ"@, "ប្រភេទ"@, '\u{17B2}');
    lemma_replace_removes(s4, '\u{17A3}', "\u{17A2}"@);
    lemma_replace_keeps_free(s5, "យូលង់"@, "យូរលង់"@, '\u{17A3}');
    lemma_replace_keeps_free(s6, "ចរិក"@, "ចរិត"@, '\u{17A3}');
    lemma_replace_keeps_free(s7, "ប្រភទ"@, "ប្រភេទ"@, '\u{17A3}');
}


proof fn lemma_trim_free(w: Seq<char>, c: char)
    requires
        !w.contains(c),
    ensures
        !trimmed(w).contains(c),
{
    lemma_trim_start_free(w, c);
    lemma_trim_end_free(trim_start(w), c);
}

proof fn lemma_trim_start_free(w: Seq<char>, c: char)
    requires
        !w.contains(c),
    ensures
        !trim_start(w).contains(c),
    decreases w.len(),
{
    if w.len() > 0 && crate::text::is_ws(w[0]) {
        lemma_rest_free(w, 1, c);
        assert(w.drop_first() =~= w.subrange(1, w.len() as int));
        lemma_trim_start_free(w.drop_first(), c);
    }
}

proof fn lemma_trim_end_free(w: Seq<char>, c: char)
    requires
        !w.contains(c),
    ensures
        !trim_end(w).contains(c),
    decreases w.len(),
{
    if w.len() > 0 && crate::text::is_ws(w.last()) {
        assert(!w.drop_last().contains(c)) by {
            if w.drop_last().contains(c) {
                let k = w.drop_last().index_of(c);
                assert(w[k] == c);
            }
        }
        lemma_trim_end_free(w.drop_last(), c);
    }
}

proof fn lemma_token_in_flatten(toks: Seq<Seq<char>>, k: int, c: char)
    requires
        0 <= k < toks.len(),
        !toks.flatten().contains(c),
    ensures
        !toks[k].contains(c),
    decreases toks.len(),
{
    assert(toks.flatten() == toks[0] + toks.drop_first().flatten());
    if k == 0 {
        if toks[0].contains(c) {
            let m = toks[0].index_of(c);
            assert(toks.flatten()[m] == c);
        }
    } else {
        assert(!toks.drop_first().flatten().contains(c)) by {
            if toks.drop_first().flatten().contains(c) {
                let m = toks.drop_first().flatten().index_of(c);
                assert(toks.flatten()[toks[0].len() + m] == c);
            }
        }
        assert(toks[k] == toks.drop_first()[k - 1]);
        lemma_token_in_flatten(toks.drop_first(), k - 1, c);
    }
}

proof fn lemma_spaced_free(toks: Seq<Seq<char>>, c: char)
    requires
        c != ' ',
        forall|k: int| 0 <= k < toks.len() ==> !(#[trigger] toks[k]).contains(c),
    ensures
        !spaced_text(toks).contains(c),
    decreases toks.len(),
{
    if toks.len() == 1 {
        assert(!toks[0].contains(c));
    } else if toks.len() > 1 {
        let init = toks.drop_last();
        assert forall|k: int| 0 <= k < init.len() implies !(#[trigger] init[k]).contains(c) by {
            assert(init[k] == toks[k]);
        }
        lemma_spaced_free(init, c);
        let sep: Seq<char> = if space_between(init.last(), toks.last()) {
            seq![' ']
        } else {
            Seq::empty()
        };
        assert(!sep.contains(c)) by {
            if sep.contains(c) {
                let m = sep.index_of(c);
                assert(sep[m] == ' ');
            }
        }
        assert(!toks.last().contains(c)) by {
            assert(toks.last() == toks[toks.len() - 1]);
        }
        lemma_concat_free(spaced_text(init), sep, c);
        lemma_concat_free(spaced_text(init) + sep, toks.last(), c);
    }
}

proof fn lemma_full_form_free(text: Seq<char>, strategy: Strategy, d: Dict, renormalize: bool, c: char)
    requires
        c != ' ',
        !corrected(normal_form(text)).contains(c),
    ensures
        !full_form(text, strategy, d, renormalize).contains(c),
{
    broadcast use vstd::seq_lib::group_to_multiset_ensures;

    let y = corrected(normal_form(text));
    let z = segment_input(y, renormalize);
    if renormalize {
        law_normal_form_exists(y);
        law_normalize_only_reorders(y, z);
        assert(y.to_multiset().count(c) == 0);
        assert(z.to_multiset().count(c) == 0);
    }
    assert(!z.contains(c));
    let toks = segmented(z, strategy, d);
    law_segment_rejoins(z, strategy, d);
    assert(!without(z, Sep::WhitespaceOrZwsp).contains(c)) by {
        if without(z, Sep::WhitespaceOrZwsp).contains(c) {
            z.lemma_filter_contains_rev(|x: char| !crate::text::sep_holds(Sep::WhitespaceOrZwsp, x), c);
        }
    }
    assert forall|k: int| 0 <= k < toks.len() implies !(#[trigger] toks[k]).contains(c) by {
        lemma_token_in_flatten(toks, k, c);
    }
    lemma_spaced_free(toks, c);
    lemma_trim_free(spaced_text(toks), c);
}

/// Full normalization never leaves the variant letter U+17B2 nor the
/// deprecated independent vowel U+17A3 in its output: the first is always
/// respelled with U+17B1 and a subscript, the second replaced by U+17A2,
/// and nothing after the corrections brings either back.
pub proof fn law_full_form_drops_variant_letters(
    text: Seq<char>,
    strategy: Strategy,
    d: Dict,
    renormalize: bool,
)
    ensures
        !full_form(text, strategy, d, renormalize).contains('\u{17B2}'),
        !full_form(text, strategy, d, renormalize).contains('\u{17A3}'),
{
    lemma_corrected_free(normal_form(text));
    lemma_full_form_free(text, strategy, d, renormalize, '\u{17B2}');
    lemma_full_form_free(text, strategy, d, renormalize, '\u{17A3}');
}

} // verus!
