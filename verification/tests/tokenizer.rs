use khmer_tokenizer::{KhmerTokenizer, Strategy};

fn tk() -> KhmerTokenizer {
    KhmerTokenizer::from_words(&[
        "សួស្តី",
        "អ្នក",
        "ទាំងអស់គ្នា",
        "កម្ពុជា",
        "ភាសា",
        "ខ្មែរ",
        "ខ្ញុំ",
        "ស្រឡាញ់",
    ])
}

#[test]
fn segments_known_words() {
    assert_eq!(
        tk().segment("សួស្តីអ្នកទាំងអស់គ្នា"),
        vec!["សួស្តី", "អ្នក", "ទាំងអស់គ្នា"]
    );
    assert_eq!(tk().segment("ខ្ញុំស្រឡាញ់កម្ពុជា"), vec!["ខ្ញុំ", "ស្រឡាញ់", "កម្ពុជា"]);
    assert_eq!(tk().segment("ភាសាខ្មែរ"), vec!["ភាសា", "ខ្មែរ"]);
}

#[test]
fn handles_mixed_scripts() {
    assert_eq!(
        tk().segment("ខ្ញុំស្រឡាញ់ Rust 2026 កម្ពុជា"),
        vec!["ខ្ញុំ", "ស្រឡាញ់", "Rust", "2026", "កម្ពុជា"]
    );
}

#[test]
fn oov_falls_back_to_clusters() {
    assert_eq!(tk().segment("ឆ្នាំថ្មី"), vec!["ឆ្នាំ", "ថ្មី"]);
}

#[test]
fn default_dict_loads_and_segments() {
    let tk = KhmerTokenizer::with_default_dict();
    assert!(!tk.is_empty());
    assert_eq!(
        tk.segment("សួស្តីអ្នកទាំងអស់គ្នា"),
        vec!["សួស្តី", "អ្នក", "ទាំងអស់គ្នា"]
    );
}

#[test]
fn dict_str_skips_comments_and_blanks() {
    let tk = KhmerTokenizer::from_dict_str("# comment\n\nខ្មែរ\n  ភាសា  \n");
    assert_eq!(tk.len(), 2);
}

#[test]
fn empty_dict_falls_back_to_clusters() {
    let tk = KhmerTokenizer::empty();
    assert_eq!(tk.segment("ខ្មែរ"), vec!["ខ្មែ", "រ"]);
}

#[test]
fn longest_match_wins() {
    let tk = KhmerTokenizer::from_words(&["ក", "កម្ពុជា"]);
    assert_eq!(tk.segment("កម្ពុជា"), vec!["កម្ពុជា"]);
}

#[test]
fn tracks_word_count() {
    let mut tk = KhmerTokenizer::empty();
    assert!(tk.is_empty());
    tk.insert("ខ្មែរ");
    tk.insert("ខ្មែរ");
    assert_eq!(tk.len(), 1);
}

#[test]
fn contains_checks_exact_dictionary_entries() {
    let tk = KhmerTokenizer::from_words(&["កម្ពុជា"]);
    assert!(tk.contains("កម្ពុជា"));
    assert!(!tk.contains("កម្ពុ"));
    assert!(!tk.contains("ខ្មែរ"));
}

#[test]
fn bimm_matches_forward_when_they_agree() {
    let tk = KhmerTokenizer::from_words(&["សួស្តី", "អ្នក"]).with_strategy(Strategy::BiMaxMatch);
    assert_eq!(tk.segment("សួស្តីអ្នក"), vec!["សួស្តី", "អ្នក"]);
}

#[test]
fn bimm_prefers_fewer_tokens_on_disagreement() {
    let tk = KhmerTokenizer::from_words(&["អ្នកទាំងអស់គ្នា", "អ្នក", "ទាំងអស់គ្នា"])
        .with_strategy(Strategy::BiMaxMatch);
    assert_eq!(tk.segment("អ្នកទាំងអស់គ្នា"), vec!["អ្នកទាំងអស់គ្នា"]);
}

#[test]
fn bimm_falls_back_to_forward_on_full_tie() {
    let tk = KhmerTokenizer::empty().with_strategy(Strategy::BiMaxMatch);
    assert_eq!(tk.segment("ខ្មែរ"), vec!["ខ្មែ", "រ"]);
}

#[test]
fn unigramdp_falls_back_to_forward_without_frequencies() {
    let tk = KhmerTokenizer::from_words(&["សួស្តី", "អ្នក"]).with_strategy(Strategy::UnigramDp);
    assert_eq!(tk.segment("សួស្តីអ្នក"), vec!["សួស្តី", "អ្នក"]);
}

#[test]
fn unigramdp_without_frequencies_is_forward_not_fewest_words() {
    // Forward matching takes កខ and strands គ; fewest words (same count,
    // more characters in dictionary words) would give ក + ខគ.
    let words = ["កខ", "ក", "ខគ"];
    let unigram = KhmerTokenizer::from_words(&words).with_strategy(Strategy::UnigramDp);
    let fmm = KhmerTokenizer::from_words(&words).with_strategy(Strategy::ForwardMaxMatch);
    let fewest = KhmerTokenizer::from_words(&words).with_strategy(Strategy::MinWordsDp);
    assert_eq!(unigram.segment("កខគ"), vec!["កខ", "គ"]);
    assert_eq!(unigram.segment("កខគ"), fmm.segment("កខគ"));
    assert_eq!(fewest.segment("កខគ"), vec!["ក", "ខគ"]);
    for text in ["កខគកខ", "ខគក", "កកខគ Rust ខគ"] {
        assert_eq!(unigram.segment(text), fmm.segment(text));
    }
}

#[test]
fn forward_match_takes_the_longest_first_word() {
    // ក, ខ, គ are single clusters: greedy takes កខ first and strands គ.
    let tk = KhmerTokenizer::from_words(&["ក", "កខ", "ខគ", "គ"])
        .with_strategy(Strategy::ForwardMaxMatch);
    assert_eq!(tk.segment("កខគ"), vec!["កខ", "គ"]);
}

#[test]
fn fewest_words_backtracks_where_greedy_strands_a_cluster() {
    // Greedy: ខែក then ក្កដា falls apart; fewest words finds ខែ + កក្កដា.
    let words = ["ខែក", "ខែ", "កក្កដា"];
    let greedy = KhmerTokenizer::from_words(&words).with_strategy(Strategy::ForwardMaxMatch);
    assert_eq!(greedy.segment("ខែកក្កដា"), vec!["ខែក", "ក្ក", "ដា"]);
    let fewest = KhmerTokenizer::from_words(&words);
    assert_eq!(fewest.segment("ខែកក្កដា"), vec!["ខែ", "កក្កដា"]);
}

#[test]
fn bimm_prefers_fewer_single_cluster_tokens() {
    // Both directions give two tokens; backward strands the single ក, so
    // the forward split wins.
    let tk = KhmerTokenizer::from_words(&["កខ", "ខគង", "គង", "ក"])
        .with_strategy(Strategy::BiMaxMatch);
    assert_eq!(tk.segment("កខគង"), vec!["កខ", "គង"]);
}

#[test]
fn whitespace_separates_and_emits_nothing() {
    assert_eq!(tk().segment("  ភាសា \n ខ្មែរ  "), vec!["ភាសា", "ខ្មែរ"]);
    assert!(tk().segment("   ").is_empty());
    assert!(tk().segment("").is_empty());
}

#[test]
fn insert_trims_and_ignores_empty_words() {
    let mut tk = KhmerTokenizer::empty();
    tk.insert("   ");
    assert!(tk.is_empty());
    tk.insert("  ភាសា ");
    assert!(tk.contains("ភាសា"));
    assert_eq!(tk.len(), 1);
}

#[test]
fn segment_tokens_rejoin_to_the_text_without_whitespace() {
    let text = "ខ្ញុំស្រឡាញ់ Rust 2026 កម្ពុជា ឆ្នាំថ្មី";
    for strategy in [
        Strategy::ForwardMaxMatch,
        Strategy::MinWordsDp,
        Strategy::BiMaxMatch,
        Strategy::UnigramDp,
        Strategy::Tagger,
    ] {
        let tokens = tk().with_strategy(strategy).segment(text);
        let joined: String = tokens.concat();
        let expected: String = text.chars().filter(|c| !c.is_whitespace()).collect();
        assert_eq!(joined, expected);
        assert!(tokens.iter().all(|t| !t.is_empty()));
    }
}

#[test]
fn match_graph_lists_word_ends_or_the_single_cluster_fallback() {
    let tk = KhmerTokenizer::from_words(&["ក", "កខ", "ខគ", "គ"]);
    let run: Vec<String> = ["ក", "ខ", "គ"].iter().map(|s| s.to_string()).collect();
    let rows = tk.match_graph(&run);
    assert_eq!(rows, vec![vec![1, 2], vec![3], vec![3]]);
}

#[test]
fn unmatched_runs_gather_only_fallback_clusters() {
    let tk = KhmerTokenizer::from_words(&["ក"]);
    let run: Vec<String> = ["ក", "ខ", "គ", "ង"].iter().map(|s| s.to_string()).collect();
    let tokens = tk.segment_run(&run);
    assert_eq!(
        tokens,
        vec![vec!["ក".to_string()], vec!["ខ".to_string()], vec!["គ".to_string()], vec!["ង".to_string()]]
    );
    let parts = tk.unmatched_runs(tokens);
    assert_eq!(
        parts,
        vec![
            (false, vec!["ក".to_string()]),
            (true, vec!["ខ".to_string(), "គ".to_string(), "ង".to_string()]),
        ]
    );
}

#[test]
fn segmentation_normalizes_input_unless_asked_not_to() {
    let tk = KhmerTokenizer::from_words(&["សិទ្ធិ"]);
    assert_eq!(tk.segment("សិទិ្ធ"), vec!["សិទ្ធិ"]);
    let raw = KhmerTokenizer::from_words(&["សិទ្ធិ"]).without_normalization();
    let tokens = raw.segment("សិទិ្ធ");
    assert_eq!(tokens.concat(), "សិទិ្ធ");
    assert_ne!(tokens, vec!["សិទ្ធិ"]);
}

#[test]
fn zwsp_is_a_hard_word_boundary() {
    let tk = KhmerTokenizer::from_words(&["កខ"]);
    // A dictionary word must not be assembled across a ZERO WIDTH SPACE.
    assert_eq!(tk.segment("ក\u{200B}ខ"), vec!["ក", "ខ"]);
    // The marker is consumed, never emitted, and splits non-Khmer runs too.
    assert_eq!(tk.segment("\u{200B}កខ\u{200B}\u{200B}abc\u{200B}123\u{200B}"), vec!["កខ", "abc", "123"]);
}

#[test]
fn custom_word_list() {
    let tk = KhmerTokenizer::from_words(&["ភាសា", "ខ្មែរ"]);
    assert_eq!(tk.segment("ភាសាខ្មែរ"), vec!["ភាសា", "ខ្មែរ"]);
    assert_eq!(tk.len(), 2);
}

#[test]
fn mixed_scripts_become_their_own_tokens() {
    let tk = KhmerTokenizer::with_default_dict();
    let tokens = tk.segment("ភាសាខ្មែរ ABC 123");
    assert!(tokens.contains(&"ABC".to_string()));
    assert!(tokens.contains(&"123".to_string()));
}
