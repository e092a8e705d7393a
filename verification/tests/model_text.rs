use khmer_tokenizer::model_text::{read_model, ModelLine, ModelRead};

fn error_of(read: &ModelRead) -> &str {
    read.error.as_deref().expect("an error")
}

fn strings(items: &[&str]) -> Vec<String> {
    items.iter().map(|s| s.to_string()).collect()
}

#[test]
fn a_text_without_the_header_is_refused() {
    let read = read_model("not a model");
    assert!(read.records.is_empty());
    assert_eq!(
        error_of(&read),
        "expected header \"khmer-tokenizer-tagger v1\", found Some(\"not a model\")"
    );
}

#[test]
fn an_empty_text_has_no_header() {
    let read = read_model("");
    assert!(read.records.is_empty());
    assert_eq!(
        error_of(&read),
        "expected header \"khmer-tokenizer-tagger v1\", found None"
    );
}

#[test]
fn an_unknown_record_type_is_named() {
    let read = read_model("khmer-tokenizer-tagger v1\nX\t1\t2\t3\t4");
    assert_eq!(error_of(&read), "line 2: unknown record type \"X\"");
}

#[test]
fn a_short_start_record_is_counted() {
    let read = read_model("khmer-tokenizer-tagger v1\nS\t1\t2");
    assert_eq!(error_of(&read), "line 2: expected 4 weights, found 2");
}

#[test]
fn transition_rows_run_from_zero_to_three() {
    for line in ["T\t4\t1\t2\t3\t4", "T", "T\tx\t1\t2\t3\t4"] {
        let read = read_model(&format!("khmer-tokenizer-tagger v1\n{line}"));
        assert_eq!(error_of(&read), "line 2: bad transition row index");
    }
    let read = read_model("khmer-tokenizer-tagger v1\nT\t+3\t1\t2\t3");
    assert_eq!(error_of(&read), "line 2: expected 4 weights, found 3");
}

#[test]
fn a_feature_record_needs_a_key_and_four_weights() {
    let read = read_model("khmer-tokenizer-tagger v1\nF\tk\t1\t2\t3");
    assert_eq!(error_of(&read), "line 2: malformed feature line");
}

#[test]
fn a_well_formed_model_reads_in_order_with_line_numbers() {
    let text = "khmer-tokenizer-tagger v1\nS\t1\t2\t3\t4\n\nT\t1\ta\tb\tc\td\r\nF\tk\\tx\t0.5\t-1\t0\t2\n";
    let read = read_model(text);
    assert!(read.error.is_none());
    assert_eq!(read.records.len(), 3);
    assert_eq!(read.records[0].line_no, 2);
    match &read.records[0].line {
        ModelLine::Start(w) => assert_eq!(w, &strings(&["1", "2", "3", "4"])),
        other => panic!("expected a start record, got {other:?}"),
    }
    assert_eq!(read.records[1].line_no, 4);
    match &read.records[1].line {
        ModelLine::Trans(row, w) => {
            assert_eq!(*row, 1);
            assert_eq!(w, &strings(&["a", "b", "c", "d"]));
        }
        other => panic!("expected a transition record, got {other:?}"),
    }
    assert_eq!(read.records[2].line_no, 5);
    match &read.records[2].line {
        ModelLine::Feature(key, w) => {
            assert_eq!(key, "k\tx");
            assert_eq!(w, &strings(&["0.5", "-1", "0", "2"]));
        }
        other => panic!("expected a feature record, got {other:?}"),
    }
}

#[test]
fn records_before_a_malformed_line_are_kept() {
    let read = read_model("khmer-tokenizer-tagger v1\nS\t1\t2\t3\t4\nQ\nS\t1");
    assert_eq!(read.records.len(), 1);
    assert_eq!(error_of(&read), "line 3: unknown record type \"Q\"");
}

#[test]
fn from_text_rejects_garbage() {
    assert!(read_model("not a model").error.is_some());
    assert!(read_model("khmer-tokenizer-tagger v1\nX\t1\t2\t3\t4").error.is_some());
    assert!(read_model("khmer-tokenizer-tagger v1\nS\t1\t2").error.is_some());
}
