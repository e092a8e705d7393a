//! The checks that the JavaScript and Python constructors make on their
//! configuration: which option keys exist, which strategy a name selects,
//! and the messages for what they refuse.

use vstd::prelude::*;
use crate::strategy::{Strategy, strategy_named, strategy_from_name};
use crate::text::{str_eq, str_chars, push_str_chars, string_of, debug_quoted, debug_string};

verus! {

/// Whether `key` is one of the constructor's option keys.
pub open spec fn option_known(key: Seq<char>) -> bool {
    ||| key == "words"@
    ||| key == "strategy"@
    ||| key == "frequencies"@
    ||| key == "tagger"@
    ||| key == "normalization"@
    ||| key == "oovGrouping"@
}

/// The message for an option key that does not exist, given the key as
/// `{:?}` renders it.
pub open spec fn unknown_option_text(quoted: Seq<char>) -> Seq<char> {
    "unknown option "@ + quoted
        + "; expected words, strategy, frequencies, tagger, normalization, oovGrouping"@
}

/// The message for a strategy name that selects nothing, given the name as
/// `{:?}` renders it.
pub open spec fn unknown_strategy_text(quoted: Seq<char>) -> Seq<char> {
    "unknown strategy "@ + quoted
        + "; expected \"minwords\", \"fmm\", \"bimm\", \"unigram\", or \"tagger\""@
}

/// The strategies the Python constructor accepts by name: all but
/// `minwords`.
pub open spec fn python_strategy_named(name: Seq<char>) -> Option<Strategy> {
    if name == "minwords"@ {
        None
    } else {
        strategy_named(name)
    }
}

/// The Python constructor's message for a strategy name it refuses.
pub open spec fn python_unknown_strategy_text(name: Seq<char>) -> Seq<char> {
    "unknown strategy '"@ + name + "' (expected 'fmm', 'bimm', 'unigram', or 'tagger')"@
}

/// Whether `key` is one of the constructor's option keys: `words`,
/// `strategy`, `frequencies`, `tagger`, `normalization`, `oovGrouping`.
pub fn is_option_key(key: &str) -> (b: bool)
    ensures
        b == option_known(key@),
{
    str_eq(key, "words") || str_eq(key, "strategy") || str_eq(key, "frequencies") || str_eq(
        key,
        "tagger",
    ) || str_eq(key, "normalization") || str_eq(key, "oovGrouping")
}

/// The message for the unknown option key whose `{:?}` rendering is
/// `quoted`.
pub fn unknown_option_message(quoted: &str) -> (m: String)
    ensures
        m@ == unknown_option_text(quoted@),
{
    let mut cs = str_chars("unknown option ");
    push_str_chars(&mut cs, quoted);
    push_str_chars(
        &mut cs,
        "; expected words, strategy, frequencies, tagger, normalization, oovGrouping",
    );
    string_of(cs.as_slice())
}

/// The message for the strategy name whose `{:?}` rendering is `quoted`.
pub fn unknown_strategy_message(quoted: &str) -> (m: String)
    ensures
        m@ == unknown_strategy_text(quoted@),
{
    let mut cs = str_chars("unknown strategy ");
    push_str_chars(&mut cs, quoted);
    push_str_chars(&mut cs, "; expected \"minwords\", \"fmm\", \"bimm\", \"unigram\", or \"tagger\"");
    string_of(cs.as_slice())
}

/// Check the keys of an options object: a typo is an error rather than
/// an option silently ignored. `Ok` exactly when every key is known;
/// otherwise the message names the first unknown key.
pub fn check_option_keys(keys: &Vec<String>) -> (r: Result<(), String>)
    ensures
        r is Ok <==> (forall|i: int| 0 <= i < keys@.len() ==> option_known(#[trigger] keys@[i]@)),
        r matches Err(m) ==> exists|i: int|
            0 <= i < keys@.len() && !option_known(#[trigger] keys@[i]@) && (forall|j: int|
                0 <= j < i ==> option_known(#[trigger] keys@[j]@)) && m@ == unknown_option_text(
                debug_quoted(keys@[i]@),
            ),
{
    let mut n: usize = 0;
    while n < keys.len()
        invariant
            n <= keys@.len(),
            forall|j: int| 0 <= j < n ==> option_known(#[trigger] keys@[j]@),
        decreases keys.len() - n,
    {
        if !is_option_key(keys[n].as_str()) {
            let quoted = debug_string(keys[n].as_str());
            let m = unknown_option_message(quoted.as_str());
            assert(!option_known(keys@[n as int]@));
            return Err(m);
        }
        n = n + 1;
    }
    Ok(())
}

/// The strategy the `strategy` option selects: the default
/// ([`Strategy::MinWordsDp`]) when it is absent, the named one when the
/// name is one of `minwords`, `fmm`, `bimm`, `unigram`, `tagger`, and
/// otherwise an error naming it.
pub fn strategy_option(name: Option<&str>) -> (r: Result<Strategy, String>)
    ensures
        match name {
            None => r == Ok::<Strategy, String>(Strategy::MinWordsDp),
            Some(n) => match strategy_named(n@) {
                Some(s) => r == Ok::<Strategy, String>(s),
                None => r matches Err(m) && m@ == unknown_strategy_text(debug_quoted(n@)),
            },
        },
{
    match name {
        None => Ok(Strategy::MinWordsDp),
        Some(n) => match strategy_from_name(n) {
            Some(s) => Ok(s),
            None => {
                let quoted = debug_string(n);
                Err(unknown_strategy_message(quoted.as_str()))
            },
        },
    }
}

/// The strategy the Python constructor's `strategy` argument selects:
/// `fmm`, `bimm`, `unigram` or `tagger`; any other name is an error naming
/// it.
pub fn python_strategy(name: &str) -> (r: Result<Strategy, String>)
    ensures
        match python_strategy_named(name@) {
            Some(s) => r == Ok::<Strategy, String>(s),
            None => r matches Err(m) && m@ == python_unknown_strategy_text(name@),
        },
{
    let found = if str_eq(name, "minwords") {
        None
    } else {
        strategy_from_name(name)
    };
    match found {
        Some(s) => Ok(s),
        None => {
            let mut cs = str_chars("unknown strategy '");
            push_str_chars(&mut cs, name);
            push_str_chars(&mut cs, "' (expected 'fmm', 'bimm', 'unigram', or 'tagger')");
            Err(string_of(cs.as_slice()))
        },
    }
}

} // verus!
