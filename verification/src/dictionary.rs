//! Building a tokenizer from word lists and dictionary text, and the
//! embedded seed dictionary.

use vstd::prelude::*;
use crate::kcc::kcc;
use crate::matching::{Run, Dict};
use crate::strategy::Strategy;
use crate::text::{vviews, str_views, str_chars, lines, lines_of, trim, trimmed, starts_with};
use crate::tokenizer::KhmerTokenizer;

verus! {

/// The dictionary after adding `w`: its trimmed clusters, unless it trims
/// to nothing.
pub open spec fn add_word(d: Dict, w: Seq<char>) -> Dict {
    if trimmed(w).len() == 0 {
        d
    } else {
        d.insert(kcc(trimmed(w)))
    }
}

/// The dictionary holding the given words.
pub open spec fn dict_of_words(ws: Seq<Seq<char>>) -> Dict
    decreases ws.len(),
{
    if ws.len() == 0 {
        Set::empty()
    } else {
        add_word(dict_of_words(ws.drop_last()), ws.last())
    }
}

/// The entries of a newline-separated word list: each line trimmed, with
/// blank lines and lines starting with `#` skipped.
pub open spec fn entries_of(lines: Seq<Seq<char>>) -> Seq<Seq<char>>
    decreases lines.len(),
{
    if lines.len() == 0 {
        Seq::empty()
    } else {
        let t = trimmed(lines.last());
        if t.len() > 0 && !starts_with(t, '#') {
            entries_of(lines.drop_last()).push(t)
        } else {
            entries_of(lines.drop_last())
        }
    }
}

/// The entries of dictionary text.
pub open spec fn dict_entries(text: Seq<char>) -> Seq<Seq<char>> {
    entries_of(lines_of(text))
}

proof fn lemma_dict_of_words_size(ws: Seq<Seq<char>>)
    ensures
        dict_of_words(ws).finite(),
        dict_of_words(ws).len() <= ws.len(),
    decreases ws.len(),
{
    if ws.len() > 0 {
        lemma_dict_of_words_size(ws.drop_last());
    }
}

impl KhmerTokenizer {
    /// Build a tokenizer from a list of words given as character vectors.
    pub fn from_char_words(words: &Vec<Vec<char>>) -> (t: Self)
        ensures
            t.wf(),
            t.dict() == dict_of_words(vviews(words@)),
            t.strategy_of() == Strategy::MinWordsDp,
            t.normalizes(),
    {
        let mut t = KhmerTokenizer::empty();
        let mut i: usize = 0;
        while i < words.len()
            invariant
                i <= words.len(),
                t.wf(),
                t.strategy_of() == Strategy::MinWordsDp,
            t.normalizes(),
                t.dict() == dict_of_words(vviews(words@).take(i as int)),
            decreases words.len() - i,
        {
            proof {
                lemma_dict_of_words_size(vviews(words@).take(i as int));
                assert(vviews(words@).take(i + 1).drop_last() =~= vviews(words@).take(i as int));
            }
            t.insert_chars(words[i].as_slice());
            i = i + 1;
        }
        assert(vviews(words@).take(i as int) =~= vviews(words@));
        t
    }

    /// Build a tokenizer from dictionary words. Each word is trimmed;
    /// words that trim to nothing are skipped.
    pub fn from_words(words: &[&str]) -> (t: Self)
        ensures
            t.wf(),
            t.dict() == dict_of_words(str_views(words@)),
            t.strategy_of() == Strategy::MinWordsDp,
            t.normalizes(),
    {
        let mut cw: Vec<Vec<char>> = Vec::new();
        let mut i: usize = 0;
        while i < words.len()
            invariant
                i <= words.len(),
                cw@.len() == i,
                forall|j: int| 0 <= j < i ==> #[trigger] cw@[j]@ == words@[j]@,
            decreases words.len() - i,
        {
            let c = str_chars(words[i]);
            cw.push(c);
            i = i + 1;
        }
        assert(vviews(cw@) =~= str_views(words@));
        KhmerTokenizer::from_char_words(&cw)
    }

    /// Build a tokenizer from a newline-separated word list. Blank lines
    /// and lines beginning with `#` are skipped, so dictionary files may
    /// carry comments.
    pub fn from_dict_str(dict: &str) -> (t: Self)
        ensures
            t.wf(),
            t.dict() == dict_of_words(dict_entries(dict@)),
            t.strategy_of() == Strategy::MinWordsDp,
            t.normalizes(),
    {
        let cs = str_chars(dict);
        let ls = lines(cs.as_slice());
        let mut entries: Vec<Vec<char>> = Vec::new();
        let mut i: usize = 0;
        while i < ls.len()
            invariant
                i <= ls.len(),
                vviews(ls@) == lines_of(dict@),
                vviews(entries@) == entries_of(vviews(ls@).take(i as int)),
            decreases ls.len() - i,
        {
            let t = trim(ls[i].as_slice());
            proof {
                assert(vviews(ls@).take(i + 1).drop_last() =~= vviews(ls@).take(i as int));
            }
            if t.len() > 0 && t[0] != '#' {
                let ghost before = vviews(entries@);
                entries.push(t);
                assert(vviews(entries@) =~= before.push(trimmed(ls@[i as int]@)));
            }
            i = i + 1;
        }
        assert(vviews(ls@).take(i as int) =~= vviews(ls@));
        KhmerTokenizer::from_char_words(&entries)
    }

    /// Build a tokenizer pre-loaded with the embedded seed dictionary
    /// ([`DEFAULT_DICT`]).
    pub fn with_default_dict() -> (t: Self)
        ensures
            t.wf(),
            t.dict() == dict_of_words(dict_entries(DEFAULT_DICT@)),
            t.strategy_of() == Strategy::MinWordsDp,
            t.normalizes(),
    {
        KhmerTokenizer::from_dict_str(DEFAULT_DICT)
    }
}

/// The embedded seed dictionary: one word per line; blank lines and lines
/// starting with `#` are ignored. It holds the conjunctions, particles and
/// modifiers that full normalization's spacing rules are keyed on, and
/// common everyday words; replace or extend it for production use.
pub const DEFAULT_DICT: &'static str = "# Khmer seed dictionary.
# One word per line. Blank lines and lines starting with '#' are ignored.

# Conjunctions and clause markers
ឬក៏ជា
ប៉ុន្តែ
តែ
ហើយ
ព្រោះ
ពីព្រោះ
ព្រមទាំង
កាលណា
ខណៈពេល
ដូចជា
មាន
មិនមាន
មិនមែន
និង
ឬ

# Modifiers and suffixes
ខ្មែរ
ជាតិ
ធំ
តូច
ថ្មី
ចាស់
ល្អ
អាក្រក់
ច្រើន
តិច
ខ្លាំង
ខ្សោយ
គ្រប់
ទាំងអស់
នីមួយៗ
ផ្ទាល់ខ្លួន
ផ្ទាល់
ផ្ទាល់មាត់
ក្នុងស្រុក
ក្រៅប្រទេស
ទៅ
មក
ឡើង
ចុះ
ចេញ
ចូល
ទៀត
ដែរ
ណាស់
ពេក
ជាង
បំផុត
ពិតប្រាកដ
ពិត
ប្រាកដ
របស់ខ្លួន
ខ្លួន
ឃើញថា
យល់ឃើញ
អារាម
សិល្ប៍
សាស្ត្រ
សង្គម

# Prefixes and particles
មិន
កុំ
គ្មាន
ឥត
នៃ
ក្នុង
ចំពោះ
លើ
ក្រោម
ពី
ដល់
តាម
ដោយ
នៅ
ជាមួយ
ជាមួយនឹង
ការ
សេចក្តី
ភាព
រឿង
វត្ត
ព្រះ
អក្សរ
ត្រូវ
អាច
បាន
កំពុង
តែង
ធ្លាប់
ឱ្យ
ជា
គឺ
គឺជា

# Everyday words
សួស្តី
អ្នក
ទាំងអស់គ្នា
កម្ពុជា
ភាសា
ខ្ញុំ
ស្រឡាញ់
";

} // verus!
