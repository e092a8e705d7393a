use khmer_tokenizer::bmes::{BEGIN, END, MIDDLE, SINGLE, tag_word};
use khmer_tokenizer::hmm_counts::extract_khmer_runs;
use khmer_tokenizer::kh10000b::split_tokens;
use khmer_tokenizer::metrics::{score_sentence, spans, EvalCounts};
use khmer_tokenizer::{count_frequencies, parse_pair, train_hmm, Example, LoadResult};

fn example(gold: &[&str]) -> Example {
    Example {
        input: gold.concat(),
        gold_tokens: gold.iter().map(|s| s.to_string()).collect(),
    }
}

fn strings(v: &[&str]) -> Vec<String> {
    v.iter().map(|s| s.to_string()).collect()
}

#[test]
fn counts_repeated_words_across_examples() {
    let examples = vec![example(&["សួស្តី", "អ្នក"]), example(&["សួស្តី", "ខ្មែរ"])];
    let counts = count_frequencies(&examples);
    assert_eq!(counts.get("សួស្តី"), Some(2));
    assert_eq!(counts.get("អ្នក"), Some(1));
    assert_eq!(counts.get("ខ្មែរ"), Some(1));
    assert_eq!(counts.get("ភាសា"), None);
}

#[test]
fn frequencies_keep_first_occurrence_order() {
    let examples = vec![example(&["ខ", "ក", "ខ"]), example(&["គ", "ក"])];
    let counts = count_frequencies(&examples);
    assert_eq!(counts.len(), 3);
    assert_eq!(
        counts.to_vec(),
        vec![("ខ".to_string(), 2), ("ក".to_string(), 2), ("គ".to_string(), 1)]
    );
}

#[test]
fn tags_single_cluster_word_as_single() {
    assert_eq!(tag_word(&["a".to_string()]), vec![SINGLE]);
}

#[test]
fn tags_multi_cluster_word_as_begin_middle_end() {
    let clusters = strings(&["a", "b", "c", "d"]);
    assert_eq!(tag_word(&clusters), vec![BEGIN, MIDDLE, MIDDLE, END]);
}

#[test]
fn tags_of_two_clusters_and_of_none() {
    assert_eq!(tag_word(&strings(&["a", "b"])), vec![BEGIN, END]);
    assert!(tag_word(&[]).is_empty());
}

#[test]
fn breaks_a_run_on_a_non_khmer_word() {
    let examples = vec![example(&["ក", "Rust", "ខ្មែរ"])];
    let runs = extract_khmer_runs(&examples);
    assert_eq!(runs.len(), 2);
    assert_eq!(runs[0].0, vec!["ក".to_string()]);
    assert_eq!(runs[0].1, vec![SINGLE]);
    assert_eq!(runs[1].0, vec!["ខ្មែ".to_string(), "រ".to_string()]);
    assert_eq!(runs[1].1, vec![BEGIN, END]);
}

#[test]
fn counts_start_transition_and_emission_from_one_run() {
    let examples = vec![example(&["ខ្មែរ"])];
    let counts = train_hmm(&examples);

    assert_eq!(counts.start[BEGIN], 1);
    assert_eq!(counts.start.iter().sum::<u64>(), 1);
    assert_eq!(counts.trans[BEGIN][END], 1);
    assert_eq!(counts.emit_counts("ខ្មែ").unwrap()[BEGIN], 1);
    assert_eq!(counts.emit_counts("រ").unwrap()[END], 1);
}

#[test]
fn counts_span_runs_and_sentences() {
    // Khmer digits and punctuation are in the Khmer block, so they do not
    // break a run here; Latin does.
    let examples = vec![example(&["ក", "ខ្មែរ", "x", "ក"]), example(&["ខ្មែរ", "ក"])];
    let counts = train_hmm(&examples);
    assert_eq!(counts.start, [1, 0, 0, 2]);
    assert_eq!(counts.trans[SINGLE][BEGIN], 1);
    assert_eq!(counts.trans[BEGIN][END], 2);
    assert_eq!(counts.trans[END][SINGLE], 1);
    assert_eq!(counts.emit_counts("ក").unwrap(), [0, 0, 0, 3]);
    assert_eq!(counts.emit_counts("រ").unwrap(), [0, 0, 2, 0]);
    assert_eq!(counts.emit_counts("x"), None);
    let keys: Vec<&str> = counts.emit.iter().map(|(k, _)| k.as_str()).collect();
    assert_eq!(keys, vec!["ក", "ខ្មែ", "រ"]);
}

#[test]
fn splits_a_zwsp_and_space_delimited_line_into_gold_tokens() {
    let line = "\u{200B}មក\u{200B}ដឹង\u{200B}ពី ក្រោយ\u{200B}ចាក់\u{200B}!";
    assert_eq!(split_tokens(line), vec!["មក", "ដឹង", "ពី", "ក្រោយ", "ចាក់", "!"]);
}

#[test]
fn parses_an_aligned_pair_into_one_example_per_line() {
    let orig = "សួស្តី\u{200B}អ្នក\nទាំងអស់\u{200B}គ្នា";
    let seg = "សួស្តី\u{200B} អ្នក\nទាំងអស់ គ្នា";
    let examples = parse_pair(orig, seg).expect("aligned pair should parse");
    assert_eq!(examples.len(), 2);
    assert_eq!(examples[0].gold_tokens, vec!["សួស្តី", "អ្នក"]);
    assert_eq!(examples[0].input, "សួស្តីអ្នក");
    assert_eq!(examples[1].gold_tokens, vec!["ទាំងអស់", "គ្នា"]);
}

#[test]
fn rejects_a_pair_whose_underlying_text_diverges() {
    let orig = "សួស្តីអ្នក";
    let seg = "សួស្តី ខ្មែរ";
    assert!(parse_pair(orig, seg).is_none());
}

#[test]
fn tolerates_boundary_markers_already_present_in_the_original() {
    let orig = "សួស្តី\u{200B}អ្នក";
    let seg = "សួស្តី អ្នក";
    assert!(parse_pair(orig, seg).is_some());
}

#[test]
fn kh10000b_skips_blank_lines() {
    let orig = "សួស្តី\n\nអ្នក";
    let seg = "សួស្តី\n\nអ្នក";
    let examples = parse_pair(orig, seg).unwrap();
    assert_eq!(examples.len(), 2);
}

#[test]
fn a_line_of_only_boundary_marks_gives_no_example() {
    let examples = parse_pair("ក\u{200B}", "ក\n\u{200B}").unwrap();
    assert_eq!(examples.len(), 1);
}

#[test]
fn load_result_tallies_pairs() {
    let mut r = LoadResult::new();
    r.record_pair("ក ខ", Some("ក\u{200B}ខ"));
    r.record_pair("ក", None);
    r.record_pair("ក", Some("ខ"));
    assert_eq!(r.total_pairs, 3);
    assert_eq!(r.skipped_pairs, 2);
    assert_eq!(r.examples.len(), 1);
    assert_eq!(r.examples[0].gold_tokens, vec!["ក", "ខ"]);
}

#[test]
fn spans_are_cumulative_byte_offsets() {
    let toks = strings(&["ab", "ក", "", "c"]);
    assert_eq!(spans(&toks), vec![(0, 2), (2, 5), (5, 5), (5, 6)]);
}

#[test]
fn sentence_scores_count_matching_spans() {
    // Predicted ["សួស្តី", "ខ្មែ", "រ"] against gold ["សួស្តី", "ខ្មែរ"]:
    // only the first gold word is right.
    let pred = strings(&["សួស្តី", "ខ្មែ", "រ"]);
    let gold = strings(&["សួស្តី", "ខ្មែរ"]);
    let s = score_sentence(&pred, &gold, &vec![true, false]);
    assert_eq!(s.predicted, 3);
    assert_eq!(s.gold, 2);
    assert_eq!(s.correct, 1);
    assert_eq!(s.gold_iv, 1);
    assert_eq!(s.correct_iv, 1);
    assert_eq!(s.gold_oov, 1);
    assert_eq!(s.correct_oov, 0);
    assert!(!s.exact);

    let mut total = EvalCounts::new();
    assert!(total.can_add(&s));
    total.add(&s);
    let exact = score_sentence(&gold, &gold, &vec![true, true]);
    assert!(exact.exact);
    total.add(&exact);
    assert_eq!(total.sentences, 2);
    assert_eq!(total.exact_sentences, 1);
    assert_eq!(total.correct, 3);
    assert_eq!(total.predicted, 5);
}

#[test]
fn a_wrong_boundary_scores_nothing() {
    let pred = strings(&["អ្នកទាំង", "អស់"]);
    let gold = strings(&["អ្នក", "ទាំងអស់"]);
    let s = score_sentence(&pred, &gold, &vec![false, false]);
    assert_eq!(s.correct, 0);
    assert!(!s.exact);
}
