use khmer_tokenizer::corpus::Split;
use khmer_tokenizer::{parse_alt, parse_khpos, AltSplit};

#[test]
fn splits_gold_tokens_and_rebuilds_input() {
    let examples = parse_khpos("សួស្តី អ្នក\nគាត់ ឈ្មោះ មឿន\n");
    assert_eq!(examples.len(), 2);
    assert_eq!(examples[0].gold_tokens, vec!["សួស្តី", "អ្នក"]);
    assert_eq!(examples[0].input, "សួស្តីអ្នក");
    assert_eq!(examples[1].gold_tokens, vec!["គាត់", "ឈ្មោះ", "មឿន"]);
}

#[test]
fn strips_compound_word_joiners() {
    let examples = parse_khpos("លោក~ស្រី ឃុន កង_ទ័ព");
    assert_eq!(examples[0].gold_tokens, vec!["លោកស្រី", "ឃុន", "កងទ័ព"]);
    assert_eq!(examples[0].input, "លោកស្រីឃុនកងទ័ព");
}

#[test]
fn corpus_skips_blank_lines() {
    let examples = parse_khpos("សួស្តី\n\nអ្នក\n");
    assert_eq!(examples.len(), 2);
}

#[test]
fn parses_alt_format_and_splits_deterministically() {
    let raw = "SNT.80188.1\tអ៊ីតាលី បាន ឈ្នះ\nSNT.80180.2\tព័រទុយហ្គាល់ 31-5\n";

    let train = parse_alt(raw, AltSplit::Train);
    assert_eq!(train.len(), 1);
    assert_eq!(train[0].gold_tokens, vec!["អ៊ីតាលី", "បាន", "ឈ្នះ"]);
    assert_eq!(train[0].input, "អ៊ីតាលីបានឈ្នះ");

    let test = parse_alt(raw, AltSplit::Test);
    assert_eq!(test.len(), 1);
    assert_eq!(test[0].gold_tokens, vec!["ព័រទុយហ្គាល់", "31-5"]);
    assert_eq!(test[0].input, "ព័រទុយហ្គាល់31-5");
}

#[test]
fn alt_skips_malformed_lines_and_unparsable_ids_count_as_article_zero() {
    // No tab, three fields, an id without a dot: all skipped. An article
    // number that does not parse counts as article 0, a test article.
    let raw = "no tab here\nA.1\tx\ty\nSNT\tក\nSNT.x.1\tខ គ\n";
    assert!(parse_alt(raw, AltSplit::Train).is_empty());
    let test = parse_alt(raw, AltSplit::Test);
    assert_eq!(test.len(), 1);
    assert_eq!(test[0].gold_tokens, vec!["ខ", "គ"]);
}

#[test]
fn khpos_keeps_a_token_that_was_only_joiners_as_empty() {
    let examples = parse_khpos("ក _ ខ");
    assert_eq!(examples[0].gold_tokens, vec!["ក", "", "ខ"]);
    assert_eq!(examples[0].input, "កខ");
}

#[test]
fn split_paths_name_the_corpus_files() {
    assert_eq!(Split::OpenTest.relative_path(), "OPEN-TEST.word");
    assert_eq!(Split::CloseTest.relative_path(), "CLOSE-TEST.word");
    assert_eq!(Split::Train.relative_path(), "before-replace/train6.word");
}
