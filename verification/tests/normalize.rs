use khmer_tokenizer::{normalize, normalize_full};

#[test]
fn reorders_a_vowel_typed_before_a_subscript() {
    assert_eq!(normalize("សិទិ្ធ"), "សិទ្ធិ");
}

#[test]
fn reorders_a_shifter_typed_before_a_subscript() {
    let malformed = "ប\u{17CA}\u{17D2}\u{179B}\u{17B7}";
    let canonical = "ប\u{17D2}\u{179B}\u{17CA}\u{17B7}";
    assert_eq!(normalize(malformed), canonical);
}

#[test]
fn leaves_a_legitimate_robat_before_a_subscript_alone() {
    let already_canonical = "ក\u{17CC}\u{17D2}\u{1780}";
    assert_eq!(normalize(already_canonical), already_canonical);
}

#[test]
fn is_a_no_op_on_already_canonical_text() {
    assert_eq!(normalize("កម្ពុជា"), "កម្ពុជា");
    assert_eq!(normalize("សិទ្ធិ"), "សិទ្ធិ");
}

#[test]
fn is_idempotent() {
    let malformed = "សិទិ្ធ";
    let once = normalize(malformed);
    let twice = normalize(&once);
    assert_eq!(once, twice);
}

#[test]
fn preserves_byte_length() {
    let malformed = "សិទិ្ធ";
    assert_eq!(normalize(malformed).len(), malformed.len());
}

#[test]
fn cascades_through_a_mark_before_a_doubly_stacked_subscript() {
    let malformed = "ស\u{17B7}\u{17D2}\u{178F}\u{17D2}\u{179A}";
    let canonical = "ស\u{17D2}\u{178F}\u{17D2}\u{179A}\u{17B7}";
    assert_eq!(normalize(malformed), canonical);
}

#[test]
fn repairs_nfc_stranded_sign_between_coeng_and_consonant() {
    let nfc_damaged = "ក\u{17D2}\u{17DD}ក";
    let canonical = "ក\u{17D2}ក\u{17DD}";
    assert_eq!(normalize(nfc_damaged), canonical);
}

#[test]
fn both_corruption_orders_converge_on_the_same_canonical_form() {
    let typed_error = "ក\u{17DD}\u{17D2}ក";
    let nfc_damaged = "ក\u{17D2}\u{17DD}ក";
    assert_eq!(normalize(typed_error), normalize(nfc_damaged));
    assert_eq!(normalize(typed_error), "ក\u{17D2}ក\u{17DD}");
}

#[test]
fn leaves_zero_width_joiners_alone_in_both_positions() {
    let zwnj_before_coeng = "ក\u{200C}\u{17D2}ក";
    assert_eq!(normalize(zwnj_before_coeng), zwnj_before_coeng);
    let zwj_after_coeng = "ក\u{17D2}\u{200D}ក";
    assert_eq!(normalize(zwj_after_coeng), zwj_after_coeng);
}

#[test]
fn leaves_a_trailing_stranded_mark_alone() {
    let dangling = "ក\u{17D2}\u{17DD}";
    assert_eq!(normalize(dangling), dangling);
}

#[test]
fn nfc_repair_is_idempotent_and_length_preserving() {
    let nfc_damaged = "ក\u{17D2}\u{17DD}ក";
    let once = normalize(nfc_damaged);
    assert_eq!(normalize(&once), once);
    assert_eq!(once.len(), nfc_damaged.len());
}

#[test]
fn reorders_subscript_ro_behind_a_following_subscript() {
    assert_eq!(normalize("ស្រ្តី"), "ស្ត្រី");
    assert_eq!(normalize("រដ្ឋមន្រ្តី"), "រដ្ឋមន្ត្រី");
    assert_eq!(normalize("សាស្រ្ត"), "សាស្ត្រ");
    assert_eq!(normalize("ស្ត្រី"), "ស្ត្រី");
    assert_eq!(normalize("ហ្វ្រង្ក"), "ហ្វ្រង្ក");
}

#[test]
fn reorders_a_sign_typed_before_its_vowel() {
    let swapped = "ណ\u{17C6}\u{17B6}";
    assert_eq!(normalize(swapped), "ណ\u{17B6}\u{17C6}");
    let swapped = "ខ\u{17D2}\u{1789}\u{17C6}\u{17BB}";
    assert_eq!(normalize(swapped), "ខ្ញុំ");
    let swapped = "ប\u{17B7}\u{17CA}";
    assert_eq!(normalize(swapped), "ប\u{17CA}\u{17B7}");
    assert_eq!(normalize("ប៊ិច"), "ប៊ិច");
    assert_eq!(normalize("នាំ"), "នាំ");
}

#[test]
fn ro_swap_and_sign_order_repairs_preserve_byte_length_and_idempotence() {
    for s in ["ស្រ្តី", "រដ្ឋមន្រ្តី", "ណ\u{17C6}\u{17B6}"] {
        let once = normalize(s);
        assert_eq!(once.len(), s.len(), "byte length changed for {s:?}");
        assert_eq!(normalize(&once), once, "not idempotent for {s:?}");
    }
}

#[test]
fn normalize_full_does_not_corrupt_the_common_oy_spelling() {
    assert_eq!(normalize_full("ឲ្យ"), "ឱ្យ");
    assert_eq!(normalize_full("គាត់ឲ្យលុយខ្ញុំ"), "គាត់ឱ្យលុយខ្ញុំ");
}

#[test]
fn normalize_full_repairs_two_part_vowel_typing() {
    assert_eq!(normalize_full("ក\u{17C1}\u{17B6}ះ"), "កោះ");
    assert_eq!(normalize_full("គ\u{17C1}\u{17B8}"), "គើ");
}

#[test]
fn normalize_full_reorders_and_corrects_spelling_and_spacing() {
    assert_eq!(normalize_full("សិទិ្ធ"), "សិទ្ធិ");

    assert_eq!(normalize_full("ឲ"), "ឱ្យ");
    assert_eq!(normalize_full("ខ្ញុំឲនំបុ័ងទៅសត្វ"), "ខ្ញុំឱ្យនំបុ័ងទៅសត្វ");

    assert_eq!(normalize_full("យូលង់"), "យូរលង់");
    assert_eq!(normalize_full("ចរិក"), "ចរិត");
    assert_eq!(normalize_full("ប្រភទ"), "ប្រភេទ");
    assert_eq!(normalize_full("អក្សរសាស្រ្ត"), "អក្សរសាស្ត្រ");

    assert_eq!(normalize_full("អក្សរសិល្ប៍ ខ្មែរ"), "អក្សរសិល្ប៍ខ្មែរ");
    assert_eq!(normalize_full("អក្សរ ត្រូវ"), "អក្សរត្រូវ");
    assert_eq!(normalize_full("ត្រូវ ប្រែប្រួល"), "ត្រូវប្រែប្រួល");
    assert_eq!(normalize_full("ការវិវត្តន៍ សង្គម"), "ការវិវត្តន៍សង្គម");
    assert_eq!(normalize_full("នៃមនុស្ស ជាដាច់ខាត"), "នៃមនុស្សជាដាច់ខាត");
    assert_eq!(normalize_full("ប្រជាជន ឲ"), "ប្រជាជនឱ្យ");
    assert_eq!(normalize_full("និង អរិយធម៌"), "និងអរិយធម៌");
    assert_eq!(normalize_full("ភាសា ជា សម្ភារៈ"), "ភាសាជាសម្ភារៈ");
    assert_eq!(normalize_full("គេ អាច"), "គេអាច");
    assert_eq!(normalize_full("សម្លឹងមើល ឃើញថា"), "សម្លឹងមើលឃើញថា");
    assert_eq!(normalize_full("ជីវិត មនុស្ស"), "ជីវិតមនុស្ស");
    assert_eq!(normalize_full("នៃ មនុស្ស"), "នៃ...មនុស្ស".replace("...", ""));
    assert_eq!(normalize_full("ចែកចេញជា ពីរ ប្រភេទ"), "ចែកចេញជាពីរប្រភេទ");
    assert_eq!(normalize_full("រឿង រាមកេរ្តិ៍"), "រឿងរាមកេរ្តិ៍");
    assert_eq!(normalize_full("វត្ត អារាម"), "វត្តអារាម");
    assert_eq!(normalize_full("រឿង ធនញ្ជ័យ"), "រឿងធនញ្ជ័យ");

    assert_eq!(normalize_full("កម្ពុជា    ។"), "កម្ពុជា។");
    assert_eq!(normalize_full("កម្ពុជា   និង   សៀម   ៖"), "កម្ពុជា និងសៀម៖");
    assert_eq!(normalize_full("   ភាសាខ្មែរ  "), "ភាសាខ្មែរ");
}

#[test]
fn normalize_keeps_the_characters_and_settles_on_a_stacked_ro_pair() {
    // Two subscript RO in a row: the reordering leaves them as they are
    // (and terminates).
    let s = "ក\u{17D2}\u{179A}\u{17D2}\u{179A}";
    assert_eq!(normalize(s), s);
    let t = "ស\u{17D2}\u{179A}\u{17D2}\u{179A}\u{17D2}\u{178F}";
    let out = normalize(t);
    assert_eq!(out.len(), t.len());
    assert_eq!(normalize(&out), out);
}

#[test]
fn normalize_full_of_whitespace_is_empty() {
    assert_eq!(normalize_full(""), "");
    assert_eq!(normalize_full("   \n\t "), "");
}

#[test]
fn normalize_full_spaces_after_a_sentence_end() {
    assert_eq!(normalize_full("ភាសា។ខ្មែរ"), "ភាសា។ ខ្មែរ");
}
