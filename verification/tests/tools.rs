use khmer_tokenizer::strategy::{run_plan, Fallback, RunTier};
use khmer_tokenizer::cli::{json_escape, parse_freqs, strategy_flag, value_for};
use khmer_tokenizer::strategy::strategy_from_name;
use khmer_tokenizer::{clean_wordlist, render_dict_txt, Strategy};

#[test]
fn parses_freq_table_ignoring_comments_and_blanks() {
    let text = "# comment\n\nភាសា 500\nខ្មែរ\t800\n";
    let freqs = parse_freqs(text, "test").unwrap();
    assert_eq!(freqs, vec![("ភាសា".to_string(), 500), ("ខ្មែរ".to_string(), 800)]);
}

#[test]
fn freq_words_may_be_absent_of_spaces_only_at_line_end() {
    let freqs = parse_freqs("  ក   42  ", "test").unwrap();
    assert_eq!(freqs, vec![("ក".to_string(), 42)]);
}

#[test]
fn freq_table_errors_name_the_file_and_line() {
    assert_eq!(
        parse_freqs("ក 1\nខ\n", "f.txt"),
        Err("f.txt:2: expected 'word<whitespace>count', found 'ខ'".to_string())
    );
    assert_eq!(
        parse_freqs("\n\nគ -3\n", "f.txt"),
        Err("f.txt:3: count '-3' is not a non-negative integer".to_string())
    );
    assert_eq!(
        parse_freqs("ក 18446744073709551616", "big"),
        Err("big:1: count '18446744073709551616' is not a non-negative integer".to_string())
    );
    assert_eq!(
        parse_freqs("ក +18446744073709551615", "big"),
        Ok(vec![("ក".to_string(), u64::MAX)])
    );
}

#[test]
fn flag_values_are_taken_and_missing_ones_reported() {
    let args: Vec<String> = ["--dict", "words.txt", "--freq"].iter().map(|s| s.to_string()).collect();
    let mut i = 0;
    assert_eq!(value_for(&args, &mut i, "--dict"), Ok("words.txt".to_string()));
    assert_eq!(i, 1);
    let mut j = 2;
    assert_eq!(value_for(&args, &mut j, "--freq"), Err("--freq requires a value".to_string()));
    assert_eq!(j, 3);
}

#[test]
fn json_escape_quotes_and_escapes() {
    assert_eq!(json_escape("ភាសា"), "\"ភាសា\"");
    assert_eq!(json_escape("a\"b\\c\nd\te\rf"), "\"a\\\"b\\\\c\\nd\\te\\rf\"");
    assert_eq!(json_escape(""), "\"\"");
}

#[test]
fn strategy_names_select_strategies() {
    assert_eq!(strategy_from_name("minwords"), Some(Strategy::MinWordsDp));
    assert_eq!(strategy_from_name("fmm"), Some(Strategy::ForwardMaxMatch));
    assert_eq!(strategy_from_name("bimm"), Some(Strategy::BiMaxMatch));
    assert_eq!(strategy_from_name("unigram"), Some(Strategy::UnigramDp));
    assert_eq!(strategy_from_name("tagger"), Some(Strategy::Tagger));
    assert_eq!(strategy_from_name("greedy"), None);
    assert_eq!(Strategy::default(), Strategy::MinWordsDp);
}

#[test]
fn trims_skips_blanks_and_comments() {
    let words = clean_wordlist(" ខ្មែរ \n\n# comment\nភាសា\n");
    assert_eq!(words, vec!["ខ្មែរ", "ភាសា"]);
}

#[test]
fn dedupes_preserving_first_occurrence_order() {
    let words = clean_wordlist("ខ្មែរ\nភាសា\nខ្មែរ\n");
    assert_eq!(words, vec!["ខ្មែរ", "ភាសា"]);
}

#[test]
fn renders_header_and_words() {
    let rendered = render_dict_txt(&["ខ្មែរ".to_string(), "ភាសា".to_string()]);
    assert!(rendered.starts_with("# Khmer dictionary"));
    assert!(rendered.contains("2 words"));
    assert!(rendered.ends_with("ខ្មែរ\nភាសា\n"));
}

#[test]
fn rendered_dictionary_reads_back_as_its_words() {
    let words = clean_wordlist("ក\nខ\nក\n # x\n");
    let rendered = render_dict_txt(&words);
    assert_eq!(clean_wordlist(&rendered), words);
    assert!(render_dict_txt(&[]).contains("# 0 words"));
}

#[test]
fn strategy_flag_names_an_unknown_value() {
    assert_eq!(strategy_flag("bimm"), Ok(Strategy::BiMaxMatch));
    assert_eq!(strategy_flag("minwords"), Ok(Strategy::MinWordsDp));
    assert_eq!(
        strategy_flag("crf"),
        Err("unknown strategy 'crf' (expected minwords, fmm, bimm, unigram, or tagger)".to_string())
    );
}

#[test]
fn run_plan_picks_the_tier_and_the_fallback() {
    assert_eq!(run_plan(Strategy::UnigramDp, true, false, false), (RunTier::Unigram, Fallback::Clusters));
    assert_eq!(run_plan(Strategy::UnigramDp, false, false, true), (RunTier::Dictionary, Fallback::Hmm));
    assert_eq!(run_plan(Strategy::Tagger, false, true, true), (RunTier::Tagger, Fallback::Clusters));
    assert_eq!(run_plan(Strategy::Tagger, false, false, false), (RunTier::Dictionary, Fallback::Clusters));
    assert_eq!(run_plan(Strategy::MinWordsDp, true, true, true), (RunTier::Dictionary, Fallback::Tagger));
    assert_eq!(run_plan(Strategy::BiMaxMatch, false, false, true), (RunTier::Dictionary, Fallback::Hmm));
}
