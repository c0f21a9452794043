use charstreamer::segment::{
    first_blank_line_start, label_priority, normalize_spans, paragraph_spans, remove_crossing_spans,
    render_spans, resolve_overlapping_semantic_spans, sentence_spans, sort_spans, AnnotationSpan,
    CombinedSegmenter, Label, SegmenterConfig, SpanOrder,
};

#[test]
fn combined_segmenter_merges_structural_and_sentence_spans() {
    let text = "Case: X\nDocket: 1\n\n# Facts\nOne. Two.\n\n- Item one.\n\n\"Hello.\"";
    let annotation = CombinedSegmenter::default().annotate(text);
    assert!(annotation
        .tagged
        .contains("<|metadata|>Case: X\nDocket: 1</|metadata|>"));
    assert!(annotation.tagged.contains("<|section|># Facts</|section|>"));
    assert!(annotation.tagged.contains("<|sentence|>One.</|sentence|>"));
    assert!(annotation
        .tagged
        .contains("<|list_item|>- Item one.</|list_item|>"));
    assert!(annotation
        .tagged
        .contains("<|dialogue|><|sentence|>\"Hello.\"</|sentence|></|dialogue|>"));
}

#[test]
fn standoff_spans_are_sorted_and_valid() {
    let text = "A. B.\n\nC.";
    let spans = CombinedSegmenter::default().spans(text);
    assert!(spans.windows(2).all(|pair| {
        (pair[0].start, pair[0].end, label_priority(pair[0].label))
            <= (pair[1].start, pair[1].end, label_priority(pair[1].label))
    }));
    assert!(spans.iter().all(|span| {
        span.start < span.end && text.is_char_boundary(span.start) && text.is_char_boundary(span.end)
    }));
}

#[test]
fn tagged_text_without_spans_is_the_text() {
    let text = "Plain words, no tags — at all.";
    assert_eq!(render_spans(text, &[]), text);
}

#[test]
fn tagged_text_strips_back_to_the_text() {
    let text = "Case: X\nDocket: 1\n\n# Facts\nOne. Two.\n\n- Item one.";
    let annotation = CombinedSegmenter::default().annotate(text);
    let mut stripped = annotation.tagged.clone();
    for label in [
        Label::Paragraph,
        Label::Metadata,
        Label::Section,
        Label::ListItem,
        Label::Dialogue,
        Label::Sentence,
    ] {
        stripped = stripped.replace(&format!("<|{}|>", label.as_str()), "");
        stripped = stripped.replace(&format!("</|{}|>", label.as_str()), "");
    }
    assert_eq!(stripped, text);
}

#[test]
fn spans_never_cross() {
    let text = "First one. Second one!\n\n\"Quoted.\" Then more?\n- item\n- other item.";
    let spans = CombinedSegmenter::default().spans(text);
    for (i, a) in spans.iter().enumerate() {
        for b in spans.iter().skip(i + 1) {
            let crossing = a.start < b.start && b.start < a.end && a.end < b.end;
            assert!(!crossing, "{a:?} crosses {b:?}");
        }
    }
}

#[test]
fn paragraphs_are_split_at_blank_lines() {
    assert_eq!(paragraph_spans("A. B.\n\nC."), vec![(0, 5), (7, 9)]);
    assert_eq!(paragraph_spans("   \n\n  "), vec![]);
}

#[test]
fn sentences_end_after_terminal_punctuation() {
    assert_eq!(sentence_spans("A. B.\n\nC.", &[]), vec![(0, 2), (3, 5), (7, 9)]);
}

#[test]
fn suppressed_regions_hold_no_sentences() {
    let text = "One. Two. Three.";
    let suppress = [AnnotationSpan::new(Label::Metadata, 0, 9, 960)];
    let spans = sentence_spans(text, &suppress);
    assert!(spans.iter().all(|(s, e)| *s >= 9 || *e <= 0));
}

#[test]
fn first_blank_line_is_found() {
    assert_eq!(first_blank_line_start("a\nb\n\nc"), Some(3));
    assert_eq!(first_blank_line_start("a\nb"), None);
}

#[test]
fn sorting_orders_by_start_then_end_then_priority() {
    let spans = vec![
        AnnotationSpan::new(Label::Sentence, 4, 6, 1000),
        AnnotationSpan::new(Label::Sentence, 0, 2, 1000),
        AnnotationSpan::new(Label::Paragraph, 0, 6, 1000),
    ];
    let sorted = sort_spans(spans, SpanOrder::StartEndPriority);
    let keys: Vec<(usize, usize)> = sorted.iter().map(|s| (s.start, s.end)).collect();
    assert_eq!(keys, vec![(0, 2), (0, 6), (4, 6)]);
}

#[test]
fn crossing_spans_are_dropped() {
    let spans = vec![
        AnnotationSpan::new(Label::Paragraph, 0, 10, 1000),
        AnnotationSpan::new(Label::Sentence, 5, 15, 1000),
        AnnotationSpan::new(Label::Sentence, 2, 4, 1000),
    ];
    let kept = remove_crossing_spans(spans);
    assert!(kept.iter().any(|s| (s.start, s.end) == (0, 10)));
    assert!(kept.iter().any(|s| (s.start, s.end) == (2, 4)));
    assert!(!kept.iter().any(|s| (s.start, s.end) == (5, 15)));
}

#[test]
fn normalizing_drops_short_and_misaligned_spans() {
    let text = "añb cd";
    let spans = vec![
        AnnotationSpan::new(Label::Sentence, 0, 4, 1000),
        AnnotationSpan::new(Label::Sentence, 0, 2, 1000),
        AnnotationSpan::new(Label::Sentence, 5, 7, 1000),
        AnnotationSpan::new(Label::Sentence, 5, 6, 1000),
    ];
    let kept = normalize_spans(text, spans, 2);
    let keys: Vec<(usize, usize)> = kept.iter().map(|s| (s.start, s.end)).collect();
    assert_eq!(keys, vec![(0, 4), (5, 7)]);
}

#[test]
fn overlapping_semantic_spans_keep_the_first() {
    let spans = vec![
        AnnotationSpan::new(Label::Metadata, 0, 10, 960),
        AnnotationSpan::new(Label::Section, 5, 12, 980),
        AnnotationSpan::new(Label::ListItem, 12, 20, 980),
    ];
    let resolved = resolve_overlapping_semantic_spans(spans);
    let keys: Vec<(usize, usize)> = resolved.iter().map(|s| (s.start, s.end)).collect();
    assert!(keys.contains(&(12, 20)));
    assert_eq!(keys.iter().filter(|k| k.0 < 12).count(), 1);
}

#[test]
fn configuration_can_turn_off_sentences() {
    let config = SegmenterConfig {
        include_sentences: false,
        ..SegmenterConfig::default()
    };
    let spans = CombinedSegmenter::new(config).spans("One. Two.");
    assert!(spans.iter().all(|s| s.label != Label::Sentence));
}

#[test]
fn readme_example_spans_and_tags() {
    let text = "# Background\nThe court reviewed the invoice. The shipment was late.\n\n- Notice was timely.\n";
    let annotation = CombinedSegmenter::default().annotate(text);
    assert_eq!(annotation.spans[0], AnnotationSpan::new(Label::Section, 0, 12, 980));
    assert_eq!(annotation.spans[1], AnnotationSpan::new(Label::Paragraph, 0, 67, 1000));
    assert_eq!(annotation.spans[2], AnnotationSpan::new(Label::Sentence, 13, 44, 1000));
    let expected = "<|paragraph|><|section|># Background</|section|>\n\
<|sentence|>The court reviewed the invoice.</|sentence|> \
<|sentence|>The shipment was late.</|sentence|></|paragraph|>\n\n\
<|paragraph|><|list_item|>- Notice was timely.</|list_item|></|paragraph|>\n";
    assert_eq!(annotation.tagged, expected);
}
