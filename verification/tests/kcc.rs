use khmer_tokenizer::kcc::is_khmer_digit;
use khmer_tokenizer::{is_khmer, is_khmer_base, split_kcc};

#[test]
fn keeps_base_with_subscripts_and_vowels() {
    assert_eq!(split_kcc("ខ្មែរ"), vec!["ខ្មែ", "រ"]);
    assert_eq!(split_kcc("ស្ត្រី"), vec!["ស្ត្រី"]);
}

#[test]
fn separates_non_khmer_scalars() {
    assert_eq!(split_kcc("ab 1"), vec!["a", "b", " ", "1"]);
}

#[test]
fn classifies_khmer_block() {
    assert!(is_khmer('ខ'));
    assert!(!is_khmer('a'));
    assert!(!is_khmer('1'));
    assert!(is_khmer('១') && is_khmer('។') && is_khmer('៛'));
    assert!(!is_khmer_base('១') && !is_khmer_base('។') && !is_khmer_base('៛'));
    assert!(is_khmer_base('ខ'));
}

#[test]
fn dangling_coeng_never_swallows_what_follows() {
    assert_eq!(split_kcc("ក្ ក"), vec!["ក\u{17D2}", " ", "ក"]);
    assert_eq!(split_kcc("ក្\u{200B}ខ"), vec!["ក\u{17D2}", "\u{200B}", "ខ"]);
    assert_eq!(split_kcc("ក្a"), vec!["ក\u{17D2}", "a"]);
    assert_eq!(split_kcc("ក្"), vec!["ក\u{17D2}"]);
    assert_eq!(split_kcc("ក្ក"), vec!["ក\u{17D2}ក"]);
}

#[test]
fn clusters_rejoin_to_the_input() {
    for text in ["ខ្ញុំស្រឡាញ់ Rust 2026 កម្ពុជា", "ក្\u{200B}ខ", "", "ស្ត្រី។"] {
        let clusters = split_kcc(text);
        assert_eq!(clusters.concat(), text);
        assert!(clusters.iter().all(|c| !c.is_empty()));
    }
}

#[test]
fn khmer_digits_are_classified() {
    assert!(is_khmer_digit('០') && is_khmer_digit('៩'));
    assert!(!is_khmer_digit('ក') && !is_khmer_digit('1'));
}

#[test]
fn empty_text_has_no_clusters() {
    assert!(split_kcc("").is_empty());
}
