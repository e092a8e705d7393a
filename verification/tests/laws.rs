use khmer_tokenizer::bmes::bmes_to_tokens;
use khmer_tokenizer::runs::extract_runs;
use khmer_tokenizer::marked::join_zwsp;
use khmer_tokenizer::{clean_wordlist, normalize, normalize_full, split_kcc, KhmerTokenizer, Strategy};

const ALL: [Strategy; 5] = [
    Strategy::ForwardMaxMatch,
    Strategy::MinWordsDp,
    Strategy::BiMaxMatch,
    Strategy::UnigramDp,
    Strategy::Tagger,
];

#[test]
fn a_dictionary_word_is_kept_whole_by_every_strategy() {
    for word in ["ទាំងអស់គ្នា", "កក្កដា", "ក"] {
        for strategy in ALL {
            let tk = KhmerTokenizer::from_words(&[word, "ក", "ទាំង", "អស់"]).with_strategy(strategy);
            assert_eq!(tk.segment(word), vec![word]);
        }
    }
}

#[test]
fn fewest_words_is_never_longer_than_greedy() {
    let words = ["ខែក", "ខែ", "កក្កដា", "ក្ក", "ដា", "ក", "កខ", "ខគ", "គ"];
    for text in ["ខែកក្កដា", "កខគ", "ខែកខគក្កដា", "គកខែ"] {
        let fmm = KhmerTokenizer::from_words(&words)
            .with_strategy(Strategy::ForwardMaxMatch)
            .segment(text);
        let dp = KhmerTokenizer::from_words(&words).segment(text);
        let bimm = KhmerTokenizer::from_words(&words)
            .with_strategy(Strategy::BiMaxMatch)
            .segment(text);
        assert!(dp.len() <= fmm.len());
        assert!(bimm.len() <= fmm.len());
    }
}

#[test]
fn full_normalization_leaves_no_variant_letters() {
    for text in ["ឲ", "ឲ្យ ឣ", "ខ្ញុំឲនំ ឣក", "ឲឲ្យឲ"] {
        let out = normalize_full(text);
        assert!(!out.contains('\u{17B2}') && !out.contains('\u{17A3}'), "{out:?}");
    }
}

#[test]
fn cleaned_word_lists_hold_each_entry_once() {
    let words = clean_wordlist("ក\nខ\n ក \n#ក\nគ\nខ\n");
    assert_eq!(words, vec!["ក", "ខ", "គ"]);
}

#[test]
fn training_tags_decode_back_into_the_gold_words() {
    let sentence: Vec<String> = ["ខ្មែរ", "ក", "ស្រឡាញ់", "x", "ភាសា"]
        .iter()
        .map(|s| s.to_string())
        .collect();
    let runs = extract_runs(&[sentence]);
    assert_eq!(runs.len(), 2);
    let words = bmes_to_tokens(&runs[0].0, &runs[0].1);
    assert_eq!(words, vec![split_kcc("ខ្មែរ"), split_kcc("ក"), split_kcc("ស្រឡាញ់")]);
    let words = bmes_to_tokens(&runs[1].0, &runs[1].1);
    assert_eq!(words, vec![split_kcc("ភាសា")]);
}

#[test]
fn mark_ordering_moves_only_classed_marks() {
    // A sign typed before its vowel is put after it.
    assert_eq!(normalize("ក\u{17C6}\u{17B6}"), "ក\u{17B6}\u{17C6}");
    // A vowel typed before a register shifter is put after it.
    assert_eq!(normalize("ប\u{17BB}\u{17CA}"), "ប\u{17CA}\u{17BB}");
    // Two vowels keep their order, and so do two signs.
    assert_eq!(normalize("ក\u{17B7}\u{17B8}"), "ក\u{17B7}\u{17B8}");
    assert_eq!(normalize("ក\u{17C8}\u{17C6}"), "ក\u{17C8}\u{17C6}");
    // A joiner or Robat between two marks stays where it is.
    assert_eq!(normalize("ក\u{17C6}\u{200D}\u{17B6}"), "ក\u{17C6}\u{200D}\u{17B6}");
    assert_eq!(normalize("ក\u{17C6}\u{17CC}\u{17B6}"), "ក\u{17C6}\u{17CC}\u{17B6}");
    // Signs behind a vowel and a shifter sort to the end, in their order.
    assert_eq!(
        normalize("ក\u{17C8}\u{17C6}\u{17B6}\u{17C9}"),
        "ក\u{17C9}\u{17B6}\u{17C8}\u{17C6}"
    );
}

#[test]
fn zwsp_marked_output_segments_back_to_its_tokens() {
    let words = ["ខែក", "ខែ", "កក្កដា", "ក្ក", "ដា", "ក", "កខ", "ខគ", "គ", "សិទ្ធិ"];
    let texts = [
        "ខែកក្កដា",
        "កខគ Rust 2026 ខែក",
        "សិទិ្ធ\u{200B}កខ\nគ",
        "",
        "ក\u{17C6}\u{17B6}ខ",
    ];
    for text in texts {
        for strategy in ALL {
            for tk in [
                KhmerTokenizer::from_words(&words).with_strategy(strategy),
                KhmerTokenizer::from_words(&words).with_strategy(strategy).without_normalization(),
            ] {
                let tokens = tk.segment(text);
                let marked = join_zwsp(&tokens);
                assert_eq!(tk.segment(&marked), tokens, "{text:?} under {strategy:?}");
            }
        }
    }
}

#[test]
fn join_zwsp_puts_the_marker_between_tokens_only() {
    let tokens: Vec<String> = ["ភាសា", "ខ្មែរ", "ABC"].iter().map(|s| s.to_string()).collect();
    assert_eq!(join_zwsp(&tokens), "ភាសា\u{200B}ខ្មែរ\u{200B}ABC");
    assert_eq!(join_zwsp(&vec!["ក".to_string()]), "ក");
    assert_eq!(join_zwsp(&Vec::new()), "");
}

#[test]
fn a_mark_before_a_dangling_coeng_stays() {
    // No COENG+consonant pair follows the vowel: nothing moves.
    assert_eq!(normalize("ក\u{17B7}\u{17D2} ក"), "ក\u{17B7}\u{17D2} ក");
    assert_eq!(normalize("ក\u{17B7}\u{17D2}\u{17B8}"), "ក\u{17B7}\u{17D2}\u{17B8}");
    assert_eq!(normalize("ក\u{17B7}\u{17D2}"), "ក\u{17B7}\u{17D2}");
    // With a consonant after the COENG the vowel follows the pair.
    assert_eq!(normalize("ក\u{17B7}\u{17D2}ក"), "ក\u{17D2}ក\u{17B7}");
}

#[test]
fn robat_joiners_and_same_class_marks_keep_their_places() {
    for text in [
        "ស\u{17B7}\u{17D2}ត\u{17B8}",
        "ក\u{17CC}\u{17D2}រ\u{17B6}",
        "ក\u{200D}\u{17B7}\u{17D2}ក",
        "ស\u{17C6}\u{17D2}ត\u{17B6}\u{17C8}",
    ] {
        let out: Vec<char> = normalize(text).chars().collect();
        let inp: Vec<char> = text.chars().collect();
        assert_eq!(out.len(), inp.len());
        for (j, c) in inp.iter().enumerate() {
            if matches!(*c, '\u{17CC}' | '\u{200C}' | '\u{200D}') {
                assert_eq!(out[j], *c, "{text:?}");
            }
        }
        let vowels = |s: &[char]| s.iter().filter(|c| ('\u{17B6}'..='\u{17C5}').contains(c)).copied().collect::<Vec<_>>();
        assert_eq!(vowels(&out), vowels(&inp), "{text:?}");
    }
}

#[test]
fn no_token_mixes_scripts() {
    let tk = KhmerTokenizer::from_words(&["ភាសា", "ខ្មែរ"]);
    let tokens = tk.segment("ភាសាABCខ្មែរ2026។ភាសា");
    for t in &tokens {
        let khmer: Vec<bool> = split_kcc(t)
            .iter()
            .map(|c| c.chars().next().map_or(false, |ch| ('\u{1780}'..='\u{17FF}').contains(&ch)))
            .collect();
        assert!(khmer.iter().all(|k| *k) || khmer.iter().all(|k| !*k), "{t:?}");
    }
    assert_eq!(tokens, vec!["ភាសា", "ABC", "ខ្មែរ", "2026", "។", "ភាសា"]);
}
