use khmer_tokenizer::bmes::{bmes_to_tokens, BEGIN, END, MIDDLE, SINGLE};
use khmer_tokenizer::features::{cluster_class, escape_key, features, unescape_key, XorShift64};
use khmer_tokenizer::runs::extract_runs;

fn strings(v: &[&str]) -> Vec<String> {
    v.iter().map(|s| s.to_string()).collect()
}

#[test]
fn non_khmer_words_break_training_runs() {
    let sentences = vec![vec!["ក".to_string(), "Rust".to_string(), "ខគ".to_string()]];
    let runs = extract_runs(&sentences);
    assert_eq!(runs.len(), 2);
    assert_eq!(runs[0].1, vec![SINGLE]);
    assert_eq!(runs[1].1, vec![BEGIN, END]);
}

#[test]
fn khmer_digits_and_punctuation_break_letter_runs() {
    let sentences = vec![strings(&["ក", "១២", "ខ", "។", "គ"])];
    let runs = extract_runs(&sentences);
    assert_eq!(runs.len(), 3);
}

#[test]
fn decodes_tags_into_tokens() {
    let cl = strings(&["a", "b", "c", "d", "e"]);
    let toks = bmes_to_tokens(&cl, &[BEGIN, END, SINGLE, BEGIN, MIDDLE]);
    assert_eq!(
        toks,
        vec![strings(&["a", "b"]), strings(&["c"]), strings(&["d", "e"])]
    );
    // A stray MIDDLE or END with nothing open still keeps every cluster.
    let toks = bmes_to_tokens(&cl, &[MIDDLE, END, END, BEGIN, BEGIN]);
    assert_eq!(
        toks,
        vec![strings(&["a", "b"]), strings(&["c"]), strings(&["d"]), strings(&["e"])]
    );
    assert!(bmes_to_tokens(&[], &[]).is_empty());
}

#[test]
fn classifies_clusters_for_features() {
    assert_eq!(cluster_class(""), "EMPTY");
    assert_eq!(cluster_class("ក"), "KhmerBase");
    assert_eq!(cluster_class("ខ្មែ"), "KhmerSub");
    assert_eq!(cluster_class("១"), "KhmerDigit");
    assert_eq!(cluster_class("។"), "KhmerPunc");
    assert_eq!(cluster_class("7"), "Digit");
    assert_eq!(cluster_class(" "), "Space");
    assert_eq!(cluster_class("a"), "NonKhmer");
}

#[test]
fn builds_the_context_feature_window() {
    let cl = strings(&["ក", "ខ្មែ", "រ"]);
    let f = features(&cl, 1);
    assert_eq!(
        f,
        vec![
            "U0=ខ្មែ",
            "U-1=ក",
            "U+1=រ",
            "U-2=<s>",
            "U+2=<s>",
            "B-1=ក|ខ្មែ",
            "B+1=ខ្មែ|រ",
            "B-2=<s>|ក",
            "B+2=រ|<s>",
            "T0=ក|ខ្មែ|រ",
            "L0=4",
            "C0=KhmerSub",
            "C-1=KhmerBase",
            "C+1=KhmerBase",
            "CB-1=KhmerBase|KhmerSub",
            "CB+1=KhmerSub|KhmerBase",
        ]
    );
    let g = features(&cl, 0);
    assert_eq!(g[1], "U-1=<s>");
    assert_eq!(g[10], "L0=1");
}

#[test]
fn escaped_keys_round_trip() {
    for key in ["U0=ក\tx", "a\\b\nc\rd", "", "\\", "plain"] {
        let e = escape_key(key);
        assert!(!e.contains('\t') && !e.contains('\n') && !e.contains('\r'));
        assert_eq!(unescape_key(&e), key);
    }
    assert_eq!(escape_key("a\tb"), "a\\tb");
    assert_eq!(unescape_key("a\\qb\\"), "a\\qb\\");
}

#[test]
fn xorshift_is_deterministic_and_shuffles_a_permutation() {
    let mut a = XorShift64::new(0x9E37_79B9_7F4A_7C15);
    let mut b = XorShift64::new(0x9E37_79B9_7F4A_7C15);
    let xs: Vec<u64> = (0..5).map(|_| a.next()).collect();
    let ys: Vec<u64> = (0..5).map(|_| b.next()).collect();
    assert_eq!(xs, ys);

    let mut g = XorShift64::new(1);
    let first = g.next();
    let mut x: u64 = 1;
    x ^= x << 13;
    x ^= x >> 7;
    x ^= x << 17;
    assert_eq!(first, x.wrapping_mul(0x2545_F491_4F6C_DD1D));

    let mut order: Vec<usize> = (0..10).collect();
    let mut r = XorShift64::new(42);
    r.shuffle(&mut order);
    let mut sorted = order.clone();
    sorted.sort();
    assert_eq!(sorted, (0..10).collect::<Vec<usize>>());
    let mut again: Vec<usize> = (0..10).collect();
    XorShift64::new(42).shuffle(&mut again);
    assert_eq!(order, again);
}
