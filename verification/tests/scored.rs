use charstreamer::scored::{scored_sentence_spans, segment_with_model_choices, segment_with_scored_breaks, sentences_with_model_choices};
use charstreamer::segment::{
    sentence_boundary_candidates, sentence_spans, AnnotationSpan, CombinedSegmenter, Label, SegmenterConfig,
};

#[test]
fn keeping_every_break_gives_the_heuristic_sentences() {
    let text = "One here. Two there! Three?";
    let breaks = sentence_boundary_candidates(text);
    assert!(!breaks.is_empty());
    let keep = vec![true; breaks.len()];
    let scores = vec![900; breaks.len()];
    let scored = scored_sentence_spans(text, &breaks, &keep, &scores, &[]);
    let ranges: Vec<(usize, usize)> = scored.iter().map(|span| (span.start, span.end)).collect();
    assert_eq!(ranges, sentence_spans(text, &[]));
}

#[test]
fn dropped_breaks_merge_sentences_and_scores_follow_the_break() {
    let text = "One here. Two there. Three.";
    let breaks = sentence_boundary_candidates(text);
    assert_eq!(breaks.len(), 3);
    let keep = vec![false, true, true];
    let scores = vec![100, 720, 640];
    let scored = scored_sentence_spans(text, &breaks, &keep, &scores, &[]);
    assert_eq!(
        scored,
        vec![
            AnnotationSpan::new(Label::Sentence, 0, 20, 720),
            AnnotationSpan::new(Label::Sentence, 21, 27, 640),
        ]
    );
}

#[test]
fn text_after_the_last_kept_break_is_a_full_confidence_sentence() {
    let text = "First one. Then the rest";
    let breaks = sentence_boundary_candidates(text);
    let keep = vec![true; breaks.len()];
    let scores = vec![510; breaks.len()];
    let scored = scored_sentence_spans(text, &breaks, &keep, &scores, &[]);
    assert_eq!(
        scored,
        vec![
            AnnotationSpan::new(Label::Sentence, 0, 10, 510),
            AnnotationSpan::new(Label::Sentence, 11, 24, 1000),
        ]
    );
}

#[test]
fn scored_segmentation_with_all_breaks_matches_the_heuristic_ranges() {
    let text = "# Facts\nOne. Two.\n\n- Item one.";
    let cfg = SegmenterConfig::default();
    let breaks = sentence_boundary_candidates(text);
    let keep = vec![true; breaks.len()];
    let scores = vec![1000; breaks.len()];
    let scored = segment_with_scored_breaks(&cfg, text, &breaks, &keep, &scores);
    let heuristic = CombinedSegmenter::new(cfg).spans(text);
    let ranges = |spans: &[AnnotationSpan]| -> Vec<(Label, usize, usize)> {
        spans.iter().map(|span| (span.label, span.start, span.end)).collect()
    };
    assert_eq!(ranges(&scored), ranges(&heuristic));
}

#[test]
fn scored_segmentation_without_sentences_keeps_the_structure() {
    let text = "# Facts\nOne. Two.";
    let mut cfg = SegmenterConfig::default();
    cfg.include_sentences = false;
    let breaks = sentence_boundary_candidates(text);
    let keep = vec![true; breaks.len()];
    let scores = vec![1000; breaks.len()];
    let scored = segment_with_scored_breaks(&cfg, text, &breaks, &keep, &scores);
    assert!(scored.iter().all(|span| span.label != Label::Sentence));
    assert_eq!(scored, CombinedSegmenter::new(cfg).spans(text));
}

#[test]
fn model_choices_are_checked_against_the_candidates() {
    let text = "One here. Two there. Three.";
    assert_eq!(sentences_with_model_choices(text, &[true, true], &[1, 2], &[]), None);
    assert_eq!(sentences_with_model_choices(text, &[false, true, true], &[100, 720], &[]), None);
    let found = sentences_with_model_choices(text, &[false, true, true], &[100, 720, 640], &[]);
    assert_eq!(
        found,
        Some(vec![
            AnnotationSpan::new(Label::Sentence, 0, 20, 720),
            AnnotationSpan::new(Label::Sentence, 21, 27, 640),
        ])
    );
    let cfg = SegmenterConfig::default();
    assert_eq!(segment_with_model_choices(&cfg, text, &[true], &[1]), None);
    let breaks = sentence_boundary_candidates(text);
    let keep = vec![true; breaks.len()];
    let scores = vec![1000; breaks.len()];
    assert_eq!(
        segment_with_model_choices(&cfg, text, &keep, &scores),
        Some(segment_with_scored_breaks(&cfg, text, &breaks, &keep, &scores))
    );
}
