//! The line format of a saved tagger model: a header line, then one record
//! per line, fields separated by tabs. `S` holds the four start weights,
//! `T` a transition row index and its four weights, `F` an escaped feature
//! key and its four weights; blank lines are skipped. Reading checks the
//! shape of every record and hands the weights on as text.

use vstd::prelude::*;
use crate::text::{
    Sep, split_on, split_chars, lines, lines_of, vviews, views, str_chars, string_of, push_all,
    push_str_chars, push_decimal, decimal, parse_u64, parsed_u64, debug_quoted, debug_string,
};
use crate::features::{unescaped, unescape_key};

verus! {

/// The first line of every saved model.
pub const MODEL_HEADER: &'static str = "khmer-tokenizer-tagger v1";

/// What a record line holds, the weights still as text.
pub enum LineShape {
    /// An empty line.
    Blank,
    /// The start weights.
    Start(Seq<Seq<char>>),
    /// A transition row and its weights.
    Trans(nat, Seq<Seq<char>>),
    /// A feature key, unescaped, and its weights.
    Feature(Seq<char>, Seq<Seq<char>>),
}

/// The message for a record with the wrong number of weights.
pub open spec fn weight_count_message(line_no: nat, n: nat) -> Seq<char> {
    "line "@ + decimal(line_no) + ": expected 4 weights, found "@ + decimal(n)
}

/// The message for a transition record whose row is not 0 to 3.
pub open spec fn row_index_message(line_no: nat) -> Seq<char> {
    "line "@ + decimal(line_no) + ": bad transition row index"@
}

/// The message for a feature record without exactly a key and four weights.
pub open spec fn feature_line_message(line_no: nat) -> Seq<char> {
    "line "@ + decimal(line_no) + ": malformed feature line"@
}

/// The message for a record of an unknown type, given its first field.
pub open spec fn record_type_message(line_no: nat, kind: Seq<char>) -> Seq<char> {
    "line "@ + decimal(line_no) + ": unknown record type "@ + debug_quoted(kind)
}

/// Weights `w` of the record on line `line_no`: exactly four, or an error.
pub open spec fn four_weights(
    w: Seq<Seq<char>>,
    line_no: nat,
    shape: LineShape,
) -> Result<LineShape, Seq<char>> {
    if w.len() != 4 {
        Err(weight_count_message(line_no, w.len()))
    } else {
        Ok(shape)
    }
}

/// What line number `line_no` of a model holds, or the message for it.
pub open spec fn line_shape(line: Seq<char>, line_no: nat) -> Result<LineShape, Seq<char>> {
    let f = split_on(line, Sep::Char('\t'));
    if line.len() == 0 {
        Ok(LineShape::Blank)
    } else if f[0] == seq!['S'] {
        let w = f.drop_first();
        four_weights(w, line_no, LineShape::Start(w))
    } else if f[0] == seq!['T'] {
        let row = if f.len() > 1 {
            parsed_u64(f[1])
        } else {
            None
        };
        match row {
            Some(r) => if r < 4 {
                let w = f.subrange(2, f.len() as int);
                four_weights(w, line_no, LineShape::Trans(r as nat, w))
            } else {
                Err(row_index_message(line_no))
            },
            None => Err(row_index_message(line_no)),
        }
    } else if f[0] == seq!['F'] {
        if f.len() != 6 {
            Err(feature_line_message(line_no))
        } else {
            Ok(LineShape::Feature(unescaped(f[1]), f.subrange(2, 6)))
        }
    } else {
        Err(record_type_message(line_no, f[0]))
    }
}

/// Reading record lines `ls[i..]` (line `i` is numbered `i + 1`) after the
/// records `acc` of the lines before: the numbered records up to the first
/// malformed line, and that line's message if there is one.
pub open spec fn records_from(
    ls: Seq<Seq<char>>,
    i: int,
    acc: Seq<(nat, LineShape)>,
) -> (Seq<(nat, LineShape)>, Option<Seq<char>>)
    decreases ls.len() - i,
{
    if i < 0 || i >= ls.len() {
        (acc, None)
    } else {
        match line_shape(ls[i], (i + 1) as nat) {
            Ok(LineShape::Blank) => records_from(ls, i + 1, acc),
            Ok(shape) => records_from(ls, i + 1, acc.push(((i + 1) as nat, shape))),
            Err(m) => (acc, Some(m)),
        }
    }
}

/// The message for a missing or wrong header, given the first line if any.
pub open spec fn header_message(first: Option<Seq<char>>) -> Seq<char> {
    "expected header \"khmer-tokenizer-tagger v1\", found "@ + match first {
        None => "None"@,
        Some(l) => "Some("@ + debug_quoted(l) + ")"@,
    }
}

/// What a saved model's text holds: its records in order up to the first
/// malformed line, and the message for the header or that line.
pub open spec fn model_records(text: Seq<char>) -> (Seq<(nat, LineShape)>, Option<Seq<char>>) {
    let ls = lines_of(text);
    if ls.len() == 0 {
        (Seq::empty(), Some(header_message(None)))
    } else if ls[0] != MODEL_HEADER@ {
        (Seq::empty(), Some(header_message(Some(ls[0]))))
    } else {
        records_from(ls, 1, Seq::empty())
    }
}

/// One record of a saved model, the weights still as text.
#[derive(Debug)]
pub enum ModelLine {
    /// The start weights.
    Start(Vec<String>),
    /// A transition row (0 to 3) and its weights.
    Trans(usize, Vec<String>),
    /// A feature key, unescaped, and its weights.
    Feature(String, Vec<String>),
}

/// A record and the number of the line it stands on.
#[derive(Debug)]
pub struct ModelRecord {
    pub line_no: usize,
    pub line: ModelLine,
}

/// The records of a saved model up to the first malformed line, and the
/// message for the header or that line if there is one.
#[derive(Debug)]
pub struct ModelRead {
    pub records: Vec<ModelRecord>,
    pub error: Option<String>,
}

/// The plain view of a record.
pub open spec fn shape_of(l: ModelLine) -> LineShape {
    match l {
        ModelLine::Start(w) => LineShape::Start(views(w@)),
        ModelLine::Trans(r, w) => LineShape::Trans(r as nat, views(w@)),
        ModelLine::Feature(k, w) => LineShape::Feature(k@, views(w@)),
    }
}

/// The plain view of numbered records.
pub open spec fn record_views(v: Seq<ModelRecord>) -> Seq<(nat, LineShape)> {
    v.map_values(|r: ModelRecord| (r.line_no as nat, shape_of(r.line)))
}

/// The plain view of an optional message.
pub open spec fn message_view(e: Option<String>) -> Option<Seq<char>> {
    match e {
        Some(m) => Some(m@),
        None => None,
    }
}

/// The strings of fields `f[from..]`.
fn fields_from(f: &Vec<Vec<char>>, from: usize) -> (out: Vec<String>)
    requires
        from <= f@.len(),
    ensures
        views(out@) == vviews(f@).subrange(from as int, f@.len() as int),
{
    let mut out: Vec<String> = Vec::new();
    let mut i: usize = from;
    while i < f.len()
        invariant
            from <= i <= f@.len(),
            views(out@) == vviews(f@).subrange(from as int, i as int),
        decreases f.len() - i,
    {
        let s = string_of(f[i].as_slice());
        let ghost prev = views(out@);
        out.push(s);
        assert(views(out@) =~= prev.push(f@[i as int]@));
        assert(vviews(f@).subrange(from as int, i + 1) =~= vviews(f@).subrange(
            from as int,
            i as int,
        ).push(f@[i as int]@));
        i = i + 1;
    }
    out
}

/// `"line N"` followed by `rest`.
fn line_message(line_no: usize, rest: &str) -> (m: String)
    ensures
        m@ == "line "@ + decimal(line_no as nat) + rest@,
{
    let mut cs = str_chars("line ");
    push_decimal(&mut cs, line_no as u64);
    push_str_chars(&mut cs, rest);
    string_of(cs.as_slice())
}

proof fn lemma_split_nonempty(s: Seq<char>, sep: Sep)
    ensures
        split_on(s, sep).len() >= 1,
{
    assert(split_on(s, sep) == crate::text::split_from(s, 0, sep));
}

/// Read one record line, numbered `line_no`: `None` for a blank line.
fn read_line(line: &[char], line_no: usize) -> (r: Result<Option<ModelLine>, String>)
    ensures
        match r {
            Ok(None) => line_shape(line@, line_no as nat) == Ok::<LineShape, Seq<char>>(
                LineShape::Blank,
            ),
            Ok(Some(l)) => line_shape(line@, line_no as nat) == Ok::<LineShape, Seq<char>>(
                shape_of(l),
            ) && !(shape_of(l) is Blank),
            Err(m) => line_shape(line@, line_no as nat) == Err::<LineShape, Seq<char>>(m@),
        },
{
    if line.len() == 0 {
        return Ok(None);
    }
    let f = split_chars(line, Sep::Char('\t'));
    let ghost fv = vviews(f@);
    proof {
        lemma_split_nonempty(line@, Sep::Char('\t'));
    }
    assert(fv == split_on(line@, Sep::Char('\t')));
    let kind = f[0].as_slice();
    assert(kind@ == fv[0]);
    if kind.len() == 1 && kind[0] == 'S' {
        assert(fv[0] =~= seq!['S']);
        let w = fields_from(&f, 1);
        assert(vviews(f@).subrange(1, f@.len() as int) =~= fv.drop_first());
        if w.len() != 4 {
            let mut cs = str_chars("line ");
            push_decimal(&mut cs, line_no as u64);
            push_str_chars(&mut cs, ": expected 4 weights, found ");
            push_decimal(&mut cs, w.len() as u64);
            assert(cs@ =~= weight_count_message(line_no as nat, fv.drop_first().len()));
            return Err(string_of(cs.as_slice()));
        }
        return Ok(Some(ModelLine::Start(w)));
    }
    if kind.len() == 1 && kind[0] == 'T' {
        assert(fv[0] =~= seq!['T']);
        assert(!(fv[0] =~= seq!['S']));
        let row = if f.len() > 1 {
            parse_u64(f[1].as_slice())
        } else {
            None
        };
        match row {
            Some(r) => {
                if r < 4 {
                    let w = fields_from(&f, 2);
                    if w.len() != 4 {
                        let mut cs = str_chars("line ");
                        push_decimal(&mut cs, line_no as u64);
                        push_str_chars(&mut cs, ": expected 4 weights, found ");
                        push_decimal(&mut cs, w.len() as u64);
                        assert(cs@ =~= weight_count_message(line_no as nat, w@.len() as nat));
                        return Err(string_of(cs.as_slice()));
                    }
                    return Ok(Some(ModelLine::Trans(r as usize, w)));
                }
                return Err(line_message(line_no, ": bad transition row index"));
            },
            None => {
                return Err(line_message(line_no, ": bad transition row index"));
            },
        }
    }
    if kind.len() == 1 && kind[0] == 'F' {
        assert(fv[0] =~= seq!['F']);
        assert(!(fv[0] =~= seq!['S']));
        assert(!(fv[0] =~= seq!['T']));
        if f.len() != 6 {
            return Err(line_message(line_no, ": malformed feature line"));
        }
        let raw = string_of(f[1].as_slice());
        let key = unescape_key(raw.as_str());
        let w = fields_from(&f, 2);
        return Ok(Some(ModelLine::Feature(key, w)));
    }
    assert(!(fv[0] =~= seq!['S']));
    assert(!(fv[0] =~= seq!['T']));
    assert(!(fv[0] =~= seq!['F']));
    let kind_text = string_of(kind);
    let quoted = debug_string(kind_text.as_str());
    let mut cs = str_chars("line ");
    push_decimal(&mut cs, line_no as u64);
    push_str_chars(&mut cs, ": unknown record type ");
    let qs = str_chars(quoted.as_str());
    push_all(&mut cs, qs.as_slice());
    assert(cs@ =~= record_type_message(line_no as nat, fv[0]));
    Err(string_of(cs.as_slice()))
}

/// Read a saved model's text: its records in order, each with its line
/// number, up to the first malformed line; the error is the message for a
/// missing or wrong header, or for that line.
pub fn read_model(text: &str) -> (r: ModelRead)
    ensures
        (record_views(r.records@), message_view(r.error)) == model_records(text@),
{
    let cs = str_chars(text);
    let ls = lines(cs.as_slice());
    let ghost lv = vviews(ls@);
    assert(lv == lines_of(text@));
    let mut records: Vec<ModelRecord> = Vec::new();
    if ls.len() == 0 {
        let m = header_error(None);
        assert(record_views(records@) =~= Seq::<(nat, LineShape)>::empty());
        return ModelRead { records, error: Some(m) };
    }
    let header = str_chars(MODEL_HEADER);
    if !crate::text::chars_eq(ls[0].as_slice(), header.as_slice()) {
        let first = string_of(ls[0].as_slice());
        let m = header_error(Some(first.as_str()));
        assert(record_views(records@) =~= Seq::<(nat, LineShape)>::empty());
        return ModelRead { records, error: Some(m) };
    }
    let mut n: usize = 1;
    assert(record_views(records@) =~= Seq::<(nat, LineShape)>::empty());
    while n < ls.len()
        invariant
            1 <= n <= ls@.len(),
            lv == vviews(ls@),
            lv == lines_of(text@),
            lv.len() > 0 && lv[0] == MODEL_HEADER@,
            records_from(lv, n as int, record_views(records@)) == model_records(text@),
        decreases ls.len() - n,
    {
        assert(ls@[n as int]@ == lv[n as int]);
        match read_line(ls[n].as_slice(), n + 1) {
            Ok(None) => {},
            Ok(Some(l)) => {
                let ghost before = record_views(records@);
                records.push(ModelRecord { line_no: n + 1, line: l });
                assert(record_views(records@) =~= before.push(((n + 1) as nat, shape_of(l))));
            },
            Err(m) => {
                return ModelRead { records, error: Some(m) };
            },
        }
        n = n + 1;
    }
    ModelRead { records, error: None }
}

/// The message for a missing (`None`) or wrong first line.
fn header_error(first: Option<&str>) -> (m: String)
    ensures
        m@ == header_message(
            match first {
                Some(l) => Some(l@),
                None => None,
            },
        ),
{
    let mut cs = str_chars("expected header \"khmer-tokenizer-tagger v1\", found ");
    match first {
        None => {
            push_str_chars(&mut cs, "None");
        },
        Some(l) => {
            push_str_chars(&mut cs, "Some(");
            let q = debug_string(l);
            let qs = str_chars(q.as_str());
            push_all(&mut cs, qs.as_slice());
            push_str_chars(&mut cs, ")");
        },
    }
    string_of(cs.as_slice())
}

} // verus!
