use charstreamer::data::{BytePos, ByteSpan, CandidateSlice};
use charstreamer::decoder::{decode_kept_breaks, ArgmaxLabelDecoder, ContiguousSpanDecoder};
use charstreamer::text::TextBytes;

fn spans_of(out: &[ByteSpan]) -> Vec<(usize, usize)> {
    out.iter().map(|s| (s.start.as_usize(), s.end.as_usize())).collect()
}

#[test]
fn kept_breaks_tile_the_text() {
    let text = TextBytes::from_utf8("Alpha. Beta? Gamma");
    let positions = [BytePos::from_usize(5), BytePos::from_usize(11)];
    let slice = CandidateSlice { data: &positions };
    let mut out = Vec::new();
    decode_kept_breaks(text, slice, &[true, true], &mut out).expect("lengths match");
    assert_eq!(spans_of(&out), vec![(0, 6), (6, 12), (12, 18)]);
    assert_eq!(out[0].start.as_usize(), 0);
    assert_eq!(out.last().unwrap().end.as_usize(), text.len());
}

#[test]
fn dropped_breaks_merge_spans() {
    let text = TextBytes::from_utf8("Alpha. Beta? Gamma");
    let positions = [BytePos::from_usize(5), BytePos::from_usize(11)];
    let slice = CandidateSlice { data: &positions };
    let mut out = Vec::new();
    decode_kept_breaks(text, slice, &[false, true], &mut out).expect("lengths match");
    assert_eq!(spans_of(&out), vec![(0, 12), (12, 18)]);
}

#[test]
fn break_at_text_end_leaves_no_empty_tail() {
    let text = TextBytes::from_utf8("Done.");
    let positions = [BytePos::from_usize(4)];
    let slice = CandidateSlice { data: &positions };
    let mut out = Vec::new();
    decode_kept_breaks(text, slice, &[true], &mut out).expect("lengths match");
    assert_eq!(spans_of(&out), vec![(0, 5)]);
}

#[test]
fn mismatched_scores_are_refused_and_output_untouched() {
    let text = TextBytes::from_utf8("A. B.");
    let positions = [BytePos::from_usize(1)];
    let slice = CandidateSlice { data: &positions };
    let mut out = vec![ByteSpan::new(0, 1)];
    let result = decode_kept_breaks(text, slice, &[true, false], &mut out);
    let error = result.expect_err("lengths differ");
    assert_eq!(error.message(), "positions and scores must have matching lengths");
    assert_eq!(spans_of(&out), vec![(0, 1)]);
}

#[test]
fn empty_text_gives_no_spans() {
    let text = TextBytes::from_utf8("");
    let slice = CandidateSlice { data: &[] };
    let mut out = Vec::new();
    decode_kept_breaks(text, slice, &[], &mut out).expect("lengths match");
    assert!(out.is_empty());
}

#[test]
fn contiguous_runs_group_equal_labels() {
    let decoder = ContiguousSpanDecoder::new(vec!["xml", "csv"]);
    assert_eq!(decoder.labels(), &["xml", "csv"]);
    let text = TextBytes::from_utf8("<a/>\n<b/>\nx,y\n1,2");
    let positions = [
        BytePos::from_usize(0),
        BytePos::from_usize(5),
        BytePos::from_usize(10),
        BytePos::from_usize(14),
    ];
    let slice = CandidateSlice { data: &positions };
    let runs = decoder.label_runs(text, slice, &[0, 0, 1, 1]);
    assert_eq!(runs.len(), 2);
    assert_eq!((runs[0].span.start.as_usize(), runs[0].span.end.as_usize()), (0, 10));
    assert_eq!((runs[0].label_index, runs[0].first_row, runs[0].end_row), (0, 0, 2));
    assert_eq!((runs[1].span.start.as_usize(), runs[1].span.end.as_usize()), (10, 17));
    assert_eq!((runs[1].label_index, runs[1].first_row, runs[1].end_row), (1, 2, 4));
}

#[test]
fn no_rows_give_no_runs() {
    let decoder = ContiguousSpanDecoder::new(vec!["a"]);
    let runs = decoder.label_runs(TextBytes::from_utf8("abc"), CandidateSlice { data: &[] }, &[]);
    assert!(runs.is_empty());
}

#[test]
fn argmax_decoder_keeps_its_labels() {
    let decoder = ArgmaxLabelDecoder::new(vec!["sentence", "none"]);
    assert_eq!(decoder.labels(), &["sentence", "none"]);
}
