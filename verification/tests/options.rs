use khmer_tokenizer::options::{
    check_option_keys, is_option_key, python_strategy, strategy_option, unknown_option_message,
    unknown_strategy_message,
};
use khmer_tokenizer::Strategy;

#[test]
fn every_documented_option_key_is_known() {
    for key in ["words", "strategy", "frequencies", "tagger", "normalization", "oovGrouping"] {
        assert!(is_option_key(key));
    }
    assert!(!is_option_key("strateggy"));
    assert!(!is_option_key("oov_grouping"));
}

#[test]
fn known_option_keys_pass() {
    let keys = vec!["words".to_string(), "strategy".to_string(), "oovGrouping".to_string()];
    assert_eq!(check_option_keys(&keys), Ok(()));
    assert_eq!(check_option_keys(&Vec::new()), Ok(()));
}

#[test]
fn a_misspelt_option_key_is_named_in_the_error() {
    let keys = vec!["words".to_string(), "strateggy".to_string(), "bogus".to_string()];
    assert_eq!(
        check_option_keys(&keys),
        Err("unknown option \"strateggy\"; expected words, strategy, frequencies, tagger, normalization, oovGrouping"
            .to_string())
    );
}

#[test]
fn an_option_key_is_quoted_with_escapes() {
    let keys = vec!["a\"b".to_string()];
    assert_eq!(
        check_option_keys(&keys),
        Err("unknown option \"a\\\"b\"; expected words, strategy, frequencies, tagger, normalization, oovGrouping"
            .to_string())
    );
}

#[test]
fn option_messages_wrap_the_rendered_name() {
    assert_eq!(
        unknown_option_message("\"x\""),
        "unknown option \"x\"; expected words, strategy, frequencies, tagger, normalization, oovGrouping"
    );
    assert_eq!(
        unknown_strategy_message("\"crf\""),
        "unknown strategy \"crf\"; expected \"minwords\", \"fmm\", \"bimm\", \"unigram\", or \"tagger\""
    );
}

#[test]
fn the_strategy_option_defaults_to_fewest_words() {
    assert_eq!(strategy_option(None), Ok(Strategy::MinWordsDp));
    assert_eq!(strategy_option(Some("minwords")), Ok(Strategy::MinWordsDp));
    assert_eq!(strategy_option(Some("fmm")), Ok(Strategy::ForwardMaxMatch));
    assert_eq!(strategy_option(Some("bimm")), Ok(Strategy::BiMaxMatch));
    assert_eq!(strategy_option(Some("unigram")), Ok(Strategy::UnigramDp));
    assert_eq!(strategy_option(Some("tagger")), Ok(Strategy::Tagger));
}

#[test]
fn an_unknown_strategy_option_is_an_error() {
    assert_eq!(
        strategy_option(Some("crf")),
        Err("unknown strategy \"crf\"; expected \"minwords\", \"fmm\", \"bimm\", \"unigram\", or \"tagger\""
            .to_string())
    );
}

#[test]
fn the_python_constructor_accepts_four_strategy_names() {
    assert_eq!(python_strategy("fmm"), Ok(Strategy::ForwardMaxMatch));
    assert_eq!(python_strategy("bimm"), Ok(Strategy::BiMaxMatch));
    assert_eq!(python_strategy("unigram"), Ok(Strategy::UnigramDp));
    assert_eq!(python_strategy("tagger"), Ok(Strategy::Tagger));
    assert_eq!(
        python_strategy("minwords"),
        Err("unknown strategy 'minwords' (expected 'fmm', 'bimm', 'unigram', or 'tagger')".to_string())
    );
    assert_eq!(
        python_strategy("crf"),
        Err("unknown strategy 'crf' (expected 'fmm', 'bimm', 'unigram', or 'tagger')".to_string())
    );
}
