use charstreamer::byteset::ByteSet256;
use charstreamer::counts::{
    decode_unicode_categories, ByteClassCountAppender, DirectionalByteClassCountAppender,
    DirectionalUnicodeCategoryCountAppender, DirectionalUnicodeCategoryGroupCountAppender,
    LineByteCountAppender, SelectedByteCountAppender, WindowCounts,
};
use charstreamer::data::{ByteWindowSpec, CandidateBuffer, FeatureMatrix, ScanRange};
use charstreamer::features::{
    encoded_boundary_byte, stack_blocks, AsciiClassAppender, ByteClass, ByteWindowAppender,
    EncodedByteWindowAppender, TokenShape, TokenShapeAppender, UnicodeCategory,
    UnicodeCategoryGroup,
};
use charstreamer::linefeat::{LineByteNgramHashAppender, LineContextMetricsAppender};
use charstreamer::scanner::ByteSetScanner;
use charstreamer::shape::BoundaryShapeAppender;
use charstreamer::text::TextBytes;
use charstreamer::traits::CandidateScanner;

const TS_DECIMAL_DOT: usize = 0;
const TS_DIGIT_BEFORE: usize = 1;
const TS_DIGIT_AFTER: usize = 2;
const TS_INTERNAL_DOTS: usize = 3;
const TS_PREV_ALPHA: usize = 4;
const TS_PREV_STARTS_CAP: usize = 5;
const TS_PREV_CAP_RATIO: usize = 6;
const TS_NEXT_ALPHA: usize = 7;
const TS_NEXT_UPPER: usize = 8;
const TS_NEXT_LOWER: usize = 9;
const TS_CROSSED_NL: usize = 10;
const TS_SHORT_CAP_ABBREV: usize = 11;

fn flag(b: bool) -> f32 {
    if b {
        1.0
    } else {
        0.0
    }
}

/// The twelve token-shape columns of one candidate.
fn token_shape_row(shape: TokenShape) -> Vec<f32> {
    let ratio = if shape.prev_alpha_count > 0 {
        shape.prev_capital_count as f32 / shape.prev_alpha_count as f32
    } else {
        0.0
    };
    vec![
        flag(shape.decimal_dot),
        flag(shape.digit_before_period),
        flag(shape.digit_after_period),
        shape.internal_dots as f32 / 4.0,
        shape.prev_alpha as f32 / 16.0,
        flag(shape.prev_starts_capital),
        ratio,
        shape.next_alpha as f32 / 16.0,
        flag(shape.next_first_upper),
        flag(shape.next_first_lower),
        flag(shape.crossed_newline),
        flag(shape.short_capital_abbrev),
    ]
}

fn run_token_shape(text: &str, position: usize) -> Vec<f32> {
    let appender = TokenShapeAppender::new();
    token_shape_row(appender.shape_at(TextBytes::from_utf8(text), position))
}

fn normalized(counts: &WindowCounts) -> Vec<f32> {
    let denom = counts.window_len.max(1) as f32;
    counts.counts.iter().map(|c| *c as f32 / denom).collect()
}

#[test]
fn token_shape_block_dimension_is_twelve() {
    let appender = TokenShapeAppender::new();
    assert_eq!(appender.block().width, 12);
    assert_eq!(appender.block().name, "token_shape");
}

#[test]
fn token_shape_decimal_dot_fires_between_digits() {
    let row = run_token_shape("1.2", 1);
    assert_eq!(row[TS_DECIMAL_DOT], 1.0, "decimal_dot should fire");
    assert_eq!(row[TS_DIGIT_BEFORE], 1.0);
    assert_eq!(row[TS_DIGIT_AFTER], 1.0);
}

#[test]
fn token_shape_decimal_dot_does_not_fire_at_end_of_sentence() {
    let row = run_token_shape("End is 1.", 8);
    assert_eq!(row[TS_DIGIT_BEFORE], 1.0);
    assert_eq!(row[TS_DIGIT_AFTER], 0.0);
    assert_eq!(row[TS_DECIMAL_DOT], 0.0);
}

#[test]
fn token_shape_short_capital_abbrev_fires_for_mr_dot() {
    let row = run_token_shape("Mr. Jones", 2);
    assert!(row[TS_PREV_STARTS_CAP] > 0.5);
    assert!((row[TS_PREV_ALPHA] - 2.0 / 16.0).abs() < 1e-6);
    assert_eq!(row[TS_SHORT_CAP_ABBREV], 1.0);
    assert_eq!(row[TS_NEXT_UPPER], 1.0);
}

#[test]
fn token_shape_short_capital_abbrev_does_not_fire_for_long_word() {
    let row = run_token_shape("Sentence. Next", 8);
    assert_eq!(row[TS_SHORT_CAP_ABBREV], 0.0);
    assert!((row[TS_PREV_ALPHA] - 0.5).abs() < 1e-6);
}

#[test]
fn token_shape_internal_dots_count_for_acronym() {
    let row = run_token_shape("U.S. is", 3);
    assert!(
        (row[TS_INTERNAL_DOTS] - 0.25).abs() < 1e-6,
        "internal_dots = {}",
        row[TS_INTERNAL_DOTS]
    );
    let row = run_token_shape("U.S. is", 1);
    assert_eq!(row[TS_INTERNAL_DOTS], 0.0);
}

#[test]
fn token_shape_next_lowercase_signal() {
    let row = run_token_shape("St. with", 2);
    assert_eq!(row[TS_NEXT_LOWER], 1.0);
    assert_eq!(row[TS_NEXT_UPPER], 0.0);
}

#[test]
fn token_shape_next_alpha_length_is_capped() {
    let row = run_token_shape("End. ABCDEFGHIJKLMNOPQR end", 3);
    assert!(row[TS_NEXT_ALPHA] >= 1.0 - 1e-6);
}

#[test]
fn token_shape_crossed_newline_after_dot() {
    let row = run_token_shape("End.\nNext", 3);
    assert_eq!(row[TS_CROSSED_NL], 1.0);
}

#[test]
fn token_shape_no_crash_on_empty_text() {
    let row = run_token_shape("", 0);
    assert_eq!(row.len(), 12);
    for v in row {
        assert_eq!(v, 0.0);
    }
}

#[test]
fn token_shape_prev_capital_ratio_for_acronym() {
    let row = run_token_shape("USA.", 3);
    assert!((row[TS_PREV_CAP_RATIO] - 1.0).abs() < 1e-6);
    assert!(row[TS_PREV_STARTS_CAP] > 0.5);
}

#[test]
fn token_shape_counts_raw_letters_of_previous_token() {
    let shape = TokenShapeAppender::new().shape_at(TextBytes::from_utf8("McDonald. x"), 8);
    assert_eq!(shape.prev_alpha_count, 8);
    assert_eq!(shape.prev_capital_count, 2);
    assert_eq!(shape.prev_alpha, 8);
    assert!(!shape.short_capital_abbrev);
}

#[test]
fn composite_kernel_uses_expected_width() {
    let scanner = ByteSetScanner::new(ByteSet256::from_bytes(b".?!\n"));
    let schema = stack_blocks(vec![
        ByteWindowAppender::new(ByteWindowSpec::new(1, 1)).block(),
        AsciiClassAppender::new().block(),
        BoundaryShapeAppender::new().block(),
    ]);
    let text = TextBytes::from_utf8("Alpha. Beta?");
    let mut candidates = CandidateBuffer::new();
    scanner.scan_into(text, ScanRange::full(text), &mut candidates);

    let mut matrix = FeatureMatrix::<f32>::default();
    matrix.resize_zeroed(candidates.len(), schema.total_dim());

    assert_eq!(schema.total_dim(), 31);
    assert_eq!(matrix.rows, 2);
    assert_eq!(matrix.cols, 31);
}

#[test]
fn stacked_blocks_start_where_the_previous_ends() {
    let schema = stack_blocks(vec![
        ByteWindowAppender::new(ByteWindowSpec::new(1, 1)).block(),
        AsciiClassAppender::new().block(),
        BoundaryShapeAppender::new().block(),
    ]);
    let blocks = schema.blocks();
    assert_eq!(blocks.len(), 3);
    assert_eq!((blocks[0].offset, blocks[0].width), (0, 3));
    assert_eq!((blocks[1].offset, blocks[1].width), (3, 6));
    assert_eq!((blocks[2].offset, blocks[2].width), (9, 22));
    assert_eq!(blocks[1].name, "ascii_classes");
    assert!(schema.block("boundary_shape").is_some());
    assert!(schema.block("missing").is_none());
}

#[test]
fn selected_byte_count_appender_counts_expected_symbols() {
    let appender = SelectedByteCountAppender::new("symbols", ByteWindowSpec::new(0, 7), vec![b'<', b',']);
    let text = TextBytes::from_utf8("<a>,b,c");
    let counts = appender.counts_at(text, 0);
    let row = normalized(&counts);
    assert!(row[0] > 0.0);
    assert!(row[1] > 0.0);
    assert_eq!(counts.counts, vec![1, 2]);
}

#[test]
fn line_byte_count_appender_counts_rest_of_line() {
    let appender = LineByteCountAppender::new("format_counts", vec![b'<', b',']);
    let counts = appender.counts_at(TextBytes::from_utf8("a<b,\n<<,"), 1);
    assert_eq!(counts.counts, vec![1, 1]);
    assert_eq!(counts.window_len, 3);
}

#[test]
fn byte_class_count_appender_counts_expected_classes() {
    let appender = ByteClassCountAppender::new(
        "classes",
        ByteWindowSpec::new(0, 5),
        vec![
            ByteClass::AsciiUpper,
            ByteClass::AsciiDigit,
            ByteClass::AsciiWhitespace,
            ByteClass::OpenBracket,
            ByteClass::LineBreak,
        ],
    );
    let text = TextBytes::from_utf8("A9 (\n)");
    let counts = appender.counts_at(text, 0);
    let row = normalized(&counts);
    assert!(row.iter().all(|value| *value > 0.0));
}

#[test]
fn directional_byte_class_count_appender_splits_left_and_right_context() {
    let appender = DirectionalByteClassCountAppender::new(
        "directional_classes",
        ByteWindowSpec::new(3, 3),
        vec![ByteClass::AsciiUpper, ByteClass::AsciiLower],
    );
    let text = TextBytes::from_utf8("AA. bb");
    let counts = appender.counts_at(text, 2);
    let mut row = normalized(&counts.left);
    row.extend(normalized(&counts.right));
    assert!(row[0] > 0.0);
    assert_eq!(row[1], 0.0);
    assert_eq!(row[2], 0.0);
    assert!(row[3] > 0.0);
}

#[test]
fn encoded_window_appender_uses_expected_width() {
    let appender = EncodedByteWindowAppender::new(ByteWindowSpec::new(5, 3));
    assert_eq!(appender.block().width, 9);
}

#[test]
fn encoded_window_marks_padding_and_boundary_bytes() {
    let appender = EncodedByteWindowAppender::new(ByteWindowSpec::new(2, 1));
    let codes = appender.encoded_at(TextBytes::from_utf8("a.b"), 1);
    assert_eq!(codes.len(), 4);
    assert_eq!(codes[0], encoded_boundary_byte(0));
    assert_eq!(codes[1], encoded_boundary_byte(b'a'));
    assert_eq!(codes[2], encoded_boundary_byte(b'.'));
    assert_eq!(codes[3], encoded_boundary_byte(b'b'));
    assert_ne!(codes[2], codes[1]);
}

#[test]
fn line_byte_ngram_hash_appender_is_case_stable_and_normalized() {
    let appender = LineByteNgramHashAppender::new(64, 3, 4);
    assert_eq!(appender.block().width, 64);
    assert!(appender.is_valid_config());
    let upper = appender.hashed_at("Case Number\nBody", 0);
    let lower = appender.hashed_at("case number\nBody", 0);
    assert_eq!(upper.sums, lower.sums);
    assert_eq!(upper.ngrams, lower.ngrams);
    assert!(upper.sums.iter().any(|value| *value != 0));
    let scale = (upper.ngrams as f32).sqrt().recip();
    assert!(upper.sums.iter().all(|value| (*value as f32 * scale).is_finite()));
}

#[test]
fn line_byte_ngram_counts_every_window_of_the_line() {
    let appender = LineByteNgramHashAppender::new(16, 2, 3);
    let counts = appender.hashed_at("abcd\nzz", 1);
    // "abcd": three bigrams and two trigrams.
    assert_eq!(counts.ngrams, 5);
    let total: i128 = counts.sums.iter().map(|v| v.abs()).sum();
    assert!(total >= 1);
    assert!(total <= 5);
}

#[test]
fn line_context_metrics_appender_uses_neighbor_lines_and_position() {
    let appender = LineContextMetricsAppender::new();
    let text = "TITLE\n\n1. Item\nBody line.\n";
    let context = appender.context_at(text, "TITLE\n\n".len());
    assert!(context.blank_before);
    assert!(!context.next_list);
    assert!(context.offset as f32 / context.text_len.max(1) as f32 > 0.0);
    assert!(context.next.trimmed_len > 0);
}

#[test]
fn boundary_shape_appender_detects_quote_absorbing_boundary_shape() {
    let appender = BoundaryShapeAppender::new();
    let shape = appender.shape_at("\"Done.\"\n\nNext.", 5);
    assert!(shape.center_terminal);
    assert!(shape.center_period);
    assert!(shape.next_upper);
    assert!(shape.immediate_closer);
    assert!(shape.blank_line_after);
}

#[test]
fn boundary_shape_at_end_of_text_has_no_next() {
    let shape = BoundaryShapeAppender::new().shape_at("Done.", 4);
    assert!(shape.center_period);
    assert!(shape.no_next);
    assert!(!shape.next_upper);
}

#[test]
fn directional_unicode_category_count_appender_splits_left_and_right_context() {
    let appender = DirectionalUnicodeCategoryCountAppender::new(
        "unicode_directional_categories",
        ByteWindowSpec::new(3, 3),
        vec![UnicodeCategory::Lu, UnicodeCategory::Po, UnicodeCategory::Ll],
    );
    let decoded = decode_unicode_categories("Ä.” β");
    let counts = appender.counts_at(&decoded, "Ä".len()).expect("text has scalars");
    let mut row = normalized(&counts.left);
    row.extend(normalized(&counts.right));
    assert_eq!(row.len(), 6);
    assert!(row[0] > 0.0);
    assert!(row[5] > 0.0);
}

#[test]
fn directional_unicode_category_group_count_appender_splits_left_and_right_context() {
    let appender = DirectionalUnicodeCategoryGroupCountAppender::new(
        "unicode_directional_groups",
        ByteWindowSpec::new(3, 3),
        vec![UnicodeCategoryGroup::L, UnicodeCategoryGroup::P],
    );
    let decoded = decode_unicode_categories("Ä.” β");
    let counts = appender.counts_at(&decoded, "Ä".len()).expect("text has scalars");
    let mut row = normalized(&counts.left);
    row.extend(normalized(&counts.right));
    assert_eq!(row.len(), 4);
    assert!(row[0] > 0.0);
    assert!(row[3] > 0.0);
}

#[test]
fn unicode_categories_come_from_the_character_database() {
    assert_eq!(UnicodeCategory::of('A'), UnicodeCategory::Lu);
    assert_eq!(UnicodeCategory::of('β'), UnicodeCategory::Ll);
    assert_eq!(UnicodeCategory::of('7'), UnicodeCategory::Nd);
    assert_eq!(UnicodeCategory::of(' '), UnicodeCategory::Zs);
    assert_eq!(UnicodeCategory::of('.'), UnicodeCategory::Po);
    assert_eq!(UnicodeCategory::of('”'), UnicodeCategory::Pf);
    assert_eq!(UnicodeCategory::of('”').group(), UnicodeCategoryGroup::P);
    assert_eq!(UnicodeCategory::Lu.group(), UnicodeCategoryGroup::L);
}

#[test]
fn unicode_counts_need_a_scalar() {
    let appender = DirectionalUnicodeCategoryCountAppender::new(
        "u",
        ByteWindowSpec::new(1, 1),
        vec![UnicodeCategory::Lu],
    );
    let decoded = decode_unicode_categories("");
    assert!(appender.counts_at(&decoded, 0).is_none());
}

#[test]
fn line_ngrams_ignore_ascii_case_on_trimmed_lines() {
    let appender = LineByteNgramHashAppender::new(32, 1, 5);
    let mixed = appender.hashed_at("intro\n  MiXeD Case – Zürich  \nTail", 9);
    let lower = appender.hashed_at("intro\n  mixed case – zürich  \nTail", 9);
    assert_eq!(mixed.sums, lower.sums);
    assert_eq!(mixed.ngrams, lower.ngrams);
    let other = appender.hashed_at("intro\n  mixed_case – zürich  \nTail", 9);
    assert_ne!(mixed.sums, other.sums);
}
