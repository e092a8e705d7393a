use khmer_tokenizer::metrics::{score_sentence, EvalCounts};
use khmer_tokenizer::KhmerTokenizer;

/// The counts the evaluation harness sums over `examples`: each input
/// segmented, scored against its gold tokens, in-vocabulary meaning in the
/// tokenizer's dictionary.
fn counts(examples: &[(&str, &[&str])], tk: &KhmerTokenizer) -> EvalCounts {
    let mut c = EvalCounts::new();
    for (input, gold) in examples {
        let predicted = tk.segment(input);
        let gold: Vec<String> = gold.iter().map(|s| s.to_string()).collect();
        let in_vocab: Vec<bool> = gold.iter().map(|w| tk.contains(w)).collect();
        let s = score_sentence(&predicted, &gold, &in_vocab);
        assert!(c.can_add(&s));
        c.add(&s);
    }
    c
}

fn ratio(numerator: usize, denominator: usize) -> f64 {
    if denominator == 0 {
        0.0
    } else {
        numerator as f64 / denominator as f64
    }
}

fn f1(c: &EvalCounts) -> f64 {
    let p = ratio(c.correct, c.predicted);
    let r = ratio(c.correct, c.gold);
    if p + r > 0.0 {
        2.0 * p * r / (p + r)
    } else {
        0.0
    }
}

#[test]
fn perfect_match_scores_one() {
    let tk = KhmerTokenizer::from_words(&["សួស្តី", "អ្នក"]);
    let c = counts(&[("សួស្តីអ្នក", &["សួស្តី", "អ្នក"])], &tk);
    assert_eq!(ratio(c.correct, c.predicted), 1.0);
    assert_eq!(ratio(c.correct, c.gold), 1.0);
    assert_eq!(f1(&c), 1.0);
    assert_eq!(ratio(c.correct_iv, c.gold_iv), 1.0);
    assert_eq!(ratio(c.correct_oov, c.gold_oov), 0.0); // no OOV gold words in this sample
    assert_eq!(ratio(c.exact_sentences, c.sentences), 1.0);
}

#[test]
fn oov_word_fragments_and_hurts_precision_and_recall() {
    // "ខ្មែរ" is missing from the dictionary and splits into 2 clusters, so
    // it falls back to 2 single-cluster tokens instead of the 1 gold token.
    let tk = KhmerTokenizer::from_words(&["សួស្តី"]);
    let c = counts(&[("សួស្តីខ្មែរ", &["សួស្តី", "ខ្មែរ"])], &tk);
    assert_eq!(ratio(c.correct, c.predicted), 1.0 / 3.0);
    assert_eq!(ratio(c.correct, c.gold), 1.0 / 2.0);
    assert_eq!(ratio(c.correct_iv, c.gold_iv), 1.0);
    assert_eq!(ratio(c.correct_oov, c.gold_oov), 0.0);
    assert_eq!(ratio(c.exact_sentences, c.sentences), 0.0);
}

#[test]
fn wrong_boundary_penalizes_despite_matching_token_count() {
    // A wrong merged entry puts the boundary one cluster off: the token
    // count matches gold, but both tokens are wrong.
    let tk = KhmerTokenizer::from_words(&["អ្នកទាំង", "អស់"]);
    let c = counts(&[("អ្នកទាំងអស់", &["អ្នក", "ទាំងអស់"])], &tk);
    assert_eq!(ratio(c.correct, c.predicted), 0.0);
    assert_eq!(ratio(c.correct, c.gold), 0.0);
    assert_eq!(ratio(c.exact_sentences, c.sentences), 0.0);
}

#[test]
fn word_accuracy_averages_across_sentences() {
    let tk = KhmerTokenizer::from_words(&["សួស្តី", "អ្នក"]);
    let c = counts(
        &[
            ("សួស្តីអ្នក", &["សួស្តី", "អ្នក"]), // exact
            ("សួស្តីខ្មែរ", &["សួស្តី", "ខ្មែរ"]), // not exact (ខ្មែរ is OOV)
        ],
        &tk,
    );
    assert_eq!(c.sentences, 2);
    assert_eq!(ratio(c.exact_sentences, c.sentences), 0.5);
}
