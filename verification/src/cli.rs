//! The decisions of the command-line front end: reading a word-frequency
//! table, taking a flag's value, choosing the strategy a flag names, and
//! escaping tokens for JSON output.

use vstd::prelude::*;
use crate::text::{
    is_ws, is_whitespace, views, vviews, str_chars, lines, lines_of, trim, trimmed, copy_range,
    push_all, push_str_chars, push_decimal, decimal, string_of, parse_u64, parsed_u64,
};
use crate::strategy::{Strategy, strategy_named, strategy_from_name};

verus! {

/// The index of the last whitespace character in `s[..j]`, or -1.
pub open spec fn last_ws(s: Seq<char>, j: int) -> int
    decreases j,
{
    if j <= 0 {
        -1
    } else if is_ws(s[j - 1]) {
        j - 1
    } else {
        last_ws(s, j - 1)
    }
}

/// What one line of a frequency table holds.
pub enum FreqLine {
    /// A blank or comment line.
    Skip,
    /// A word and its count.
    Entry(Seq<char>, u64),
    /// No whitespace separates a word from a count.
    Missing,
    /// The count field is not a non-negative integer.
    BadCount(Seq<char>),
}

/// One line of a frequency table, read after trimming: the count is the
/// last whitespace-separated field, the word everything before it,
/// trimmed.
pub open spec fn freq_line(raw: Seq<char>) -> FreqLine {
    let line = trimmed(raw);
    if line.len() == 0 || line[0] == '#' {
        FreqLine::Skip
    } else {
        let p = last_ws(line, line.len() as int);
        if p < 0 {
            FreqLine::Missing
        } else {
            let count = line.subrange(p + 1, line.len() as int);
            match parsed_u64(count) {
                Some(c) => FreqLine::Entry(trimmed(line.subrange(0, p)), c),
                None => FreqLine::BadCount(count),
            }
        }
    }
}

/// The message for a line with no count.
pub open spec fn missing_message(path: Seq<char>, line_no: nat, line: Seq<char>) -> Seq<char> {
    path + ":"@ + decimal(line_no) + ": expected 'word<whitespace>count', found '"@ + line + "'"@
}

/// The message for a count that is not a non-negative integer.
pub open spec fn bad_count_message(path: Seq<char>, line_no: nat, count: Seq<char>) -> Seq<char> {
    path + ":"@ + decimal(line_no) + ": count '"@ + count + "' is not a non-negative integer"@
}

/// Reading lines `ls[i..]` of the table at `path`, with the entries `acc`
/// of the lines before: the entries in order, or the message of the first
/// malformed line.
pub open spec fn freqs_from(
    ls: Seq<Seq<char>>,
    i: int,
    acc: Seq<(Seq<char>, u64)>,
    path: Seq<char>,
) -> Result<Seq<(Seq<char>, u64)>, Seq<char>>
    decreases ls.len() - i,
{
    if i < 0 || i >= ls.len() {
        Ok(acc)
    } else {
        match freq_line(ls[i]) {
            FreqLine::Skip => freqs_from(ls, i + 1, acc, path),
            FreqLine::Entry(w, c) => freqs_from(ls, i + 1, acc.push((w, c)), path),
            FreqLine::Missing => Err(missing_message(path, (i + 1) as nat, trimmed(ls[i]))),
            FreqLine::BadCount(cs) => Err(bad_count_message(path, (i + 1) as nat, cs)),
        }
    }
}

/// The plain view of word-count pairs.
pub open spec fn pair_views(v: Seq<(String, u64)>) -> Seq<(Seq<char>, u64)> {
    v.map_values(|p: (String, u64)| (p.0@, p.1))
}

fn find_last_ws(s: &[char]) -> (p: Option<usize>)
    ensures
        match p {
            Some(k) => k < s@.len() && last_ws(s@, s@.len() as int) == k,
            None => last_ws(s@, s@.len() as int) == -1,
        },
{
    let mut j: usize = s.len();
    while j > 0
        invariant
            j <= s@.len(),
            last_ws(s@, s@.len() as int) == last_ws(s@, j as int),
        decreases j,
    {
        if is_whitespace(s[j - 1]) {
            return Some(j - 1);
        }
        j = j - 1;
    }
    None
}

/// Parse a frequency table: one `word<whitespace>count` entry per line.
/// Blank lines and `#` comments are ignored. The first line with no count,
/// or a count that is not a non-negative integer, is an error naming
/// `path` and the line.
pub fn parse_freqs(text: &str, path: &str) -> (r: Result<Vec<(String, u64)>, String>)
    ensures
        match r {
            Ok(v) => freqs_from(lines_of(text@), 0, Seq::empty(), path@) == Ok::<
                Seq<(Seq<char>, u64)>,
                Seq<char>,
            >(pair_views(v@)),
            Err(m) => freqs_from(lines_of(text@), 0, Seq::empty(), path@) == Err::<
                Seq<(Seq<char>, u64)>,
                Seq<char>,
            >(m@),
        },
{
    let cs = str_chars(text);
    let ls = lines(cs.as_slice());
    let ghost lv = vviews(ls@);
    let mut freqs: Vec<(String, u64)> = Vec::new();
    let mut n: usize = 0;
    assert(pair_views(freqs@) =~= Seq::<(Seq<char>, u64)>::empty());
    while n < ls.len()
        invariant
            n <= ls@.len(),
            lv == vviews(ls@),
            lv == lines_of(text@),
            freqs_from(lv, n as int, pair_views(freqs@), path@) == freqs_from(
                lv,
                0,
                Seq::empty(),
                path@,
            ),
        decreases ls.len() - n,
    {
        let line = trim(ls[n].as_slice());
        assert(line@ == trimmed(lv[n as int]));
        if line.len() == 0 || line[0] == '#' {
            n = n + 1;
            continue;
        }
        match find_last_ws(line.as_slice()) {
            None => {
                let mut m = str_chars(path);
                push_str_chars(&mut m, ":");
                push_decimal(&mut m, (n + 1) as u64);
                push_str_chars(&mut m, ": expected 'word<whitespace>count', found '");
                push_all(&mut m, line.as_slice());
                push_str_chars(&mut m, "'");
                assert(m@ =~= missing_message(path@, (n + 1) as nat, line@));
                return Err(string_of(m.as_slice()));
            },
            Some(p) => {
                let count = copy_range(line.as_slice(), p + 1, line.len());
                match parse_u64(count.as_slice()) {
                    None => {
                        let mut m = str_chars(path);
                        push_str_chars(&mut m, ":");
                        push_decimal(&mut m, (n + 1) as u64);
                        push_str_chars(&mut m, ": count '");
                        push_all(&mut m, count.as_slice());
                        push_str_chars(&mut m, "' is not a non-negative integer");
                        assert(m@ =~= bad_count_message(path@, (n + 1) as nat, count@));
                        return Err(string_of(m.as_slice()));
                    },
                    Some(c) => {
                        let word_part = copy_range(line.as_slice(), 0, p);
                        let word = trim(word_part.as_slice());
                        let ghost before = pair_views(freqs@);
                        freqs.push((string_of(word.as_slice()), c));
                        assert(pair_views(freqs@) =~= before.push((word@, c)));
                        n = n + 1;
                    },
                }
            },
        }
    }
    Ok(freqs)
}

/// The message when a flag is given without its value.
pub open spec fn missing_value_message(flag: Seq<char>) -> Seq<char> {
    flag + " requires a value"@
}

/// Take the value following the flag at `args[*i]`, advancing `i` past it;
/// an error if the flag is the last argument.
pub fn value_for(args: &[String], i: &mut usize, flag: &str) -> (r: Result<String, String>)
    requires
        *old(i) < usize::MAX,
    ensures
        *final(i) == *old(i) + 1,
        match r {
            Ok(v) => *final(i) < args@.len() && v@ == args@[*final(i) as int]@,
            Err(m) => *final(i) >= args@.len() && m@ == missing_value_message(flag@),
        },
{
    *i = *i + 1;
    if *i < args.len() {
        Ok(args[*i].clone())
    } else {
        let mut m = str_chars(flag);
        push_str_chars(&mut m, " requires a value");
        Err(string_of(m.as_slice()))
    }
}

/// The message for a `--strategy` value that names no strategy.
pub open spec fn unknown_strategy_flag_message(name: Seq<char>) -> Seq<char> {
    "unknown strategy '"@ + name + "' (expected minwords, fmm, bimm, unigram, or tagger)"@
}

/// The strategy a `--strategy` value selects, or the message naming the
/// value when it selects none.
pub fn strategy_flag(name: &str) -> (r: Result<Strategy, String>)
    ensures
        match strategy_named(name@) {
            Some(s) => r == Ok::<Strategy, String>(s),
            None => r matches Err(m) && m@ == unknown_strategy_flag_message(name@),
        },
{
    match strategy_from_name(name) {
        Some(s) => Ok(s),
        None => {
            let mut m = str_chars("unknown strategy '");
            push_str_chars(&mut m, name);
            push_str_chars(&mut m, "' (expected minwords, fmm, bimm, unigram, or tagger)");
            Err(string_of(m.as_slice()))
        },
    }
}

/// The JSON escape of one character.
pub open spec fn json_char(c: char) -> Seq<char> {
    if c == '"' {
        seq!['\\', '"']
    } else if c == '\\' {
        seq!['\\', '\\']
    } else if c == '\n' {
        seq!['\\', 'n']
    } else if c == '\t' {
        seq!['\\', 't']
    } else if c == '\r' {
        seq!['\\', 'r']
    } else {
        seq![c]
    }
}

/// The characters of `s`, each JSON-escaped.
pub open spec fn json_body(s: Seq<char>) -> Seq<char>
    decreases s.len(),
{
    if s.len() == 0 {
        Seq::empty()
    } else {
        json_body(s.drop_last()) + json_char(s.last())
    }
}

/// A JSON string literal holding `s`.
pub open spec fn json_string(s: Seq<char>) -> Seq<char> {
    seq!['"'] + json_body(s) + seq!['"']
}

/// Minimal JSON string escaping for tokens.
pub fn json_escape(s: &str) -> (out: String)
    ensures
        out@ == json_string(s@),
{
    let cs = str_chars(s);
    let mut out: Vec<char> = Vec::new();
    out.push('"');
    let mut i: usize = 0;
    while i < cs.len()
        invariant
            i <= cs@.len(),
            cs@ == s@,
            out@ == seq!['"'] + json_body(cs@.take(i as int)),
        decreases cs.len() - i,
    {
        let c = cs[i];
        if c == '"' {
            out.push('\\');
            out.push('"');
        } else if c == '\\' {
            out.push('\\');
            out.push('\\');
        } else if c == '\n' {
            out.push('\\');
            out.push('n');
        } else if c == '\t' {
            out.push('\\');
            out.push('t');
        } else if c == '\r' {
            out.push('\\');
            out.push('r');
        } else {
            out.push(c);
        }
        proof {
            assert(cs@.take(i + 1).drop_last() =~= cs@.take(i as int));
            assert(cs@.take(i + 1).last() == c);
        }
        i = i + 1;
        assert(out@ =~= seq!['"'] + json_body(cs@.take(i as int)));
    }
    out.push('"');
    assert(cs@.take(i as int) =~= cs@);
    string_of(out.as_slice())
}

} // verus!
