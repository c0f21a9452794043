use charstreamer::offsets::{
    byte_offsets_to_char_indices, char_indices_to_byte_offsets, parse_label, render_char_spans,
    spans_with_char_offsets, CharOffsetSpan,
};
use charstreamer::segment::{render_spans, AnnotationSpan, Label};

#[test]
fn label_names_parse_back() {
    for label in [
        Label::Paragraph,
        Label::Metadata,
        Label::Section,
        Label::ListItem,
        Label::Dialogue,
        Label::Sentence,
    ] {
        assert_eq!(parse_label(label.as_str()), Some(label));
    }
    assert_eq!(parse_label("list_item"), Some(Label::ListItem));
    assert_eq!(parse_label("List_Item"), None);
    assert_eq!(parse_label(""), None);
}

#[test]
fn byte_offsets_become_character_indices() {
    let text = "aé b";
    assert_eq!(byte_offsets_to_char_indices(text, &[0, 1, 3, 5]), Ok(vec![0, 1, 2, 4]));
    assert_eq!(byte_offsets_to_char_indices(text, &[]), Ok(vec![]));
}

#[test]
fn byte_offset_inside_a_character_is_refused() {
    let text = "aé b";
    assert_eq!(byte_offsets_to_char_indices(text, &[0, 2]), Err(2));
    assert_eq!(byte_offsets_to_char_indices(text, &[7, 2, 4]), Err(2));
    assert_eq!(byte_offsets_to_char_indices(text, &[6]), Err(6));
}

#[test]
fn character_indices_become_byte_offsets() {
    let text = "aé b";
    assert_eq!(char_indices_to_byte_offsets(text, &[0, 2, 4, 1]), Ok(vec![0, 3, 5, 1]));
    assert_eq!(char_indices_to_byte_offsets(text, &[9, 5, 1]), Err(5));
}

#[test]
fn offsets_round_trip() {
    let text = "§ 1. Zürich — fin.";
    let bytes: Vec<usize> = (0..=text.len()).filter(|&i| text.is_char_boundary(i)).collect();
    let chars = byte_offsets_to_char_indices(text, &bytes).unwrap();
    assert_eq!(chars, (0..=text.chars().count()).collect::<Vec<_>>());
    assert_eq!(char_indices_to_byte_offsets(text, &chars).unwrap(), bytes);
}

#[test]
fn spans_carry_both_offsets() {
    let text = "« Oui. » Non.";
    let spans = vec![AnnotationSpan::new(Label::Sentence, 11, 15, 1000)];
    let with_chars = spans_with_char_offsets(text, &spans).unwrap();
    assert_eq!(
        with_chars,
        vec![CharOffsetSpan {
            label: Label::Sentence,
            start: 9,
            end: 13,
            start_byte: 11,
            end_byte: 15,
            score: 1000,
        }]
    );
    let bad = vec![AnnotationSpan::new(Label::Sentence, 1, 3, 1000)];
    assert_eq!(spans_with_char_offsets(text, &bad), Err(1));
}

#[test]
fn character_spans_render_like_byte_spans() {
    let text = "é x. Y.";
    let by_chars = vec![AnnotationSpan::new(Label::Sentence, 0, 4, 1000)];
    let by_bytes = vec![AnnotationSpan::new(Label::Sentence, 0, 5, 1000)];
    let rendered = render_char_spans(text, &by_chars).unwrap();
    assert_eq!(rendered, render_spans(text, &by_bytes));
    assert_eq!(rendered, "<|sentence|>é x.</|sentence|> Y.");
    let too_far = vec![AnnotationSpan::new(Label::Sentence, 3, 12, 1000)];
    assert_eq!(render_char_spans(text, &too_far), Err(12));
}
