use charstreamer::corpus::{
    parse_alea_annotated_text, parse_multilegal_record, scalar_to_byte_offsets,
    select_training_positions, split_documents, AnnotatedDocument, CorpusError, MultiLegalRecord,
    MultiLegalSpan, TrainingPositionPolicy,
};
use charstreamer::data::{BytePos, ByteSpan};

#[test]
fn parse_alea_text_into_clean_text_and_spans() {
    let document = parse_alea_annotated_text("One.<|sentence|> Two.<|sentence|><|paragraph|>Three.");
    assert_eq!(document.text, "One. Two.Three.");
    let spans: Vec<&str> = document
        .sentence_spans
        .iter()
        .map(|span| &document.text[span.start.as_usize()..span.end.as_usize()])
        .collect();
    assert_eq!(spans, vec!["One.", " Two.", "Three."]);
}

#[test]
fn split_documents_preserves_order() {
    let documents = vec![
        parse_alea_annotated_text("A.<|sentence|>"),
        parse_alea_annotated_text("B.<|sentence|>"),
        parse_alea_annotated_text("C.<|sentence|>"),
        parse_alea_annotated_text("D.<|sentence|>"),
    ];
    let (train, valid) = split_documents(documents, 3, 4);
    assert_eq!(train.len(), 3);
    assert_eq!(valid.len(), 1);
    assert_eq!(valid[0].text, "D.");
}

#[test]
fn alea_markers_are_last_bytes_of_tag_closed_sentences() {
    let document = parse_alea_annotated_text("Hi.<|sentence|>Yo.<|paragraph|>Tail");
    assert_eq!(document.text, "Hi.Yo.Tail");
    let markers: Vec<usize> = document.boundary_markers.iter().map(|m| m.as_usize()).collect();
    assert_eq!(markers, vec![2, 5]);
    assert_eq!(document.sentence_spans.len(), 3);
    assert_eq!(document.boundary_positions(), document.boundary_markers);
}

#[test]
fn alea_tags_without_text_open_no_sentence() {
    let document = parse_alea_annotated_text("<|sentence|><|paragraph|>");
    assert_eq!(document.text, "");
    assert!(document.sentence_spans.is_empty());
    assert!(document.boundary_markers.is_empty());
}

#[test]
fn alea_keeps_multibyte_text() {
    let document = parse_alea_annotated_text("Ärger.<|sentence|>Über");
    assert_eq!(document.text, "Ärger.Über");
    assert_eq!(document.sentence_spans[0], ByteSpan::new(0, 7));
    assert_eq!(document.boundary_markers[0], BytePos(6));
}

#[test]
fn boundary_positions_fall_back_to_span_ends() {
    let document = AnnotatedDocument {
        text: "ab cd".to_string(),
        sentence_spans: vec![ByteSpan::new(0, 2), ByteSpan::new(2, 2), ByteSpan::new(2, 5)],
        boundary_markers: Vec::new(),
    };
    assert_eq!(document.boundary_positions(), vec![BytePos(1), BytePos(4)]);
}

#[test]
fn split_documents_with_whole_and_empty_training_parts() {
    let documents = vec![
        parse_alea_annotated_text("A."),
        parse_alea_annotated_text("B."),
        parse_alea_annotated_text("C."),
    ];
    let (train, valid) = split_documents(documents.clone(), 0, 5);
    assert_eq!((train.len(), valid.len()), (0, 3));
    let (train, valid) = split_documents(documents, 5, 5);
    assert_eq!((train.len(), valid.len()), (3, 0));
}

#[test]
fn scalar_offsets_end_with_the_text_length() {
    assert_eq!(scalar_to_byte_offsets("aé b"), vec![0, 1, 3, 4, 5]);
    assert_eq!(scalar_to_byte_offsets(""), vec![0]);
}

fn span(start: usize, end: usize, label: &str) -> MultiLegalSpan {
    MultiLegalSpan { start, end, label: label.to_string() }
}

#[test]
fn multilegal_sentences_become_sorted_byte_spans() {
    let record = MultiLegalRecord {
        text: "Ünd. Zwei.".to_string(),
        spans: vec![span(5, 10, "Sentence"), span(0, 4, "Sentence"), span(0, 10, "Paragraph")],
    };
    let document = match parse_multilegal_record(record) {
        Ok(document) => document,
        Err(_) => panic!("record should parse"),
    };
    assert_eq!(document.sentence_spans, vec![ByteSpan::new(0, 5), ByteSpan::new(6, 11)]);
    assert_eq!(document.boundary_markers, vec![BytePos(4), BytePos(10)]);
}

#[test]
fn multilegal_span_past_the_text_is_an_invalid_record() {
    let record = MultiLegalRecord {
        text: "abc".to_string(),
        spans: vec![span(0, 9, "Sentence")],
    };
    assert!(matches!(parse_multilegal_record(record), Err(CorpusError::InvalidRecord(_))));
    let ignored = MultiLegalRecord {
        text: "abc".to_string(),
        spans: vec![span(0, 9, "Paragraph")],
    };
    assert!(parse_multilegal_record(ignored).is_ok());
}

#[test]
fn training_selection_keeps_boundaries_and_sampled_candidates() {
    let candidates = [BytePos(1), BytePos(4), BytePos(7)];
    let positives = [BytePos(4)];
    let selection = select_training_positions(
        TrainingPositionPolicy::ScannedCandidatesOnly,
        &candidates,
        &[],
        &positives,
        &[false, false, true],
    );
    assert_eq!(selection.positions, vec![BytePos(4), BytePos(7)]);
    assert_eq!(selection.labels, vec![1, 0]);
    assert_eq!((selection.positives, selection.negatives), (1, 1));
}

#[test]
fn training_selection_over_every_scalar_keeps_candidates() {
    let candidates = [BytePos(2)];
    let starts = [BytePos(0), BytePos(1), BytePos(2), BytePos(3)];
    let positives = [BytePos(3)];
    let selection = select_training_positions(
        TrainingPositionPolicy::AllUtf8ScalarPositions,
        &candidates,
        &starts,
        &positives,
        &[false, false, false, false],
    );
    assert_eq!(selection.positions, vec![BytePos(2), BytePos(3)]);
    assert_eq!(selection.labels, vec![0, 1]);
}

#[test]
fn alea_sentences_cover_the_clean_text() {
    let document = parse_alea_annotated_text("A.<|sentence|><|paragraph|>Bé.<|sentence|>C");
    assert_eq!(document.text, "A.Bé.C");
    let spans: Vec<(usize, usize)> =
        document.sentence_spans.iter().map(|span| (span.start.as_usize(), span.end.as_usize())).collect();
    assert_eq!(spans, vec![(0, 2), (2, 6), (6, 7)]);
    let markers: Vec<usize> = document.boundary_markers.iter().map(|marker| marker.as_usize()).collect();
    assert_eq!(markers, vec![1, 5]);
}

#[test]
fn multilegal_spans_with_equal_starts_keep_their_order() {
    let record = MultiLegalRecord {
        text: "Abc. Def.".to_string(),
        spans: vec![span(5, 9, "Sentence"), span(0, 9, "Sentence"), span(0, 4, "Sentence")],
    };
    let document = match parse_multilegal_record(record) {
        Ok(document) => document,
        Err(_) => panic!("record should parse"),
    };
    assert_eq!(document.sentence_spans, vec![ByteSpan::new(0, 9), ByteSpan::new(0, 4), ByteSpan::new(5, 9)]);
    assert_eq!(document.boundary_markers, vec![BytePos(8), BytePos(3), BytePos(8)]);
}
