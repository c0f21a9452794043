use charstreamer::byteset::ByteSet256;
use charstreamer::data::{BytePos, CandidateBuffer, CandidateSlice, FeatureMatrix, ScanRange};
use charstreamer::legacy::{CharBoundaryLegacyAppender, LegacyFeatureTables};
use charstreamer::scanner::ByteSetScanner;
use charstreamer::text::TextBytes;
use charstreamer::traits::CandidateScanner;

fn tables() -> LegacyFeatureTables {
    LegacyFeatureTables {
        abbreviations: vec!["Mr.".to_string()],
        list_markers: vec!["(1)".to_string()],
        list_conjunctions: vec![" and ".to_string()],
        list_intros: vec!["following:".to_string()],
        terminal_sentence_chars: vec!['.', '!', '?', ';', '"', '\'', ':'],
        terminal_paragraph_chars: vec!['\n', '\r'],
        primary_terminators: vec!['.', '!', '?'],
        secondary_terminators: vec!['"', '\'', ';', ':'],
        opening_quotes: vec!['"', '\''],
        closing_quotes: vec!['"', '\''],
        punctuation_chars: vec!['.', ',', ';', ':', '"', '\''],
        whitespace_chars: vec![' ', '\n', '\r', '\t'],
    }
}

fn rows_for(appender: &CharBoundaryLegacyAppender, text: &str, positions: &[usize]) -> Vec<Vec<i64>> {
    let positions: Vec<BytePos> = positions.iter().map(|p| BytePos::from_usize(*p)).collect();
    appender
        .rows(TextBytes::from_utf8(text), CandidateSlice { data: &positions })
        .expect("legacy appender should succeed")
}

#[test]
fn legacy_appender_uses_expected_width() {
    let appender = CharBoundaryLegacyAppender::new(5, 3, tables());
    let scanner = ByteSetScanner::new(ByteSet256::from_bytes(b"."));
    let text = TextBytes::from_utf8("Mr. Smith.");
    let mut candidates = CandidateBuffer::new();
    scanner.scan_into(text, ScanRange::full(text), &mut candidates);
    let mut matrix = FeatureMatrix::<f32>::default();
    matrix.resize_zeroed(candidates.len(), appender.block().width);
    let rows = appender
        .rows(text, candidates.as_slice())
        .expect("legacy appender should succeed");
    for (r, row) in rows.iter().enumerate() {
        for (c, value) in row.iter().enumerate() {
            matrix.data[r * matrix.cols + c] = *value as f32;
        }
    }

    assert_eq!(appender.block().width, 17);
    assert_eq!(matrix.cols, 17);
    assert_eq!(matrix.rows, 2);
    assert_eq!(matrix.data[9], 1.0);
}

#[test]
fn legacy_window_encodes_letters_digits_and_padding() {
    let appender = CharBoundaryLegacyAppender::new(2, 2, tables());
    let rows = rows_for(&appender, "a1.Z", &[2]);
    // padding-free window: 'a', '1', '.', 'Z', end of text
    assert_eq!(&rows[0][..5], &[1, 0, -1, 26, -3]);
    let rows = rows_for(&appender, "é.", &[0]);
    assert_eq!(rows[0][0], -3);
    assert_eq!(rows[0][2], 'é' as i64 - 'a' as i64 + 1);
}

#[test]
fn legacy_channels_flag_abbreviations_and_terminators() {
    let appender = CharBoundaryLegacyAppender::new(1, 1, tables());
    let rows = rows_for(&appender, "Mr. Smith said: yes;", &[2, 8, 19]);
    let w = 3;
    assert_eq!(rows[0][w], 1);
    assert_eq!(rows[1][w], 0);
    assert_eq!(rows[0][w + 1], 1);
    assert_eq!(rows[2][w + 1], -1);
    // ':' lies within ten characters before the semicolon
    assert_eq!(rows[2][w + 7], 1);
}

#[test]
fn legacy_quote_balance_and_word_completion() {
    let appender = CharBoundaryLegacyAppender::new(0, 0, tables());
    let rows = rows_for(&appender, "\"Hi\" and \"x\"y", &[0, 3, 11]);
    // one window column, then abbreviation, terminator, quote balance, word completion
    assert_eq!(rows[0][3], 0);
    assert_eq!(rows[1][3], 1);
    // a closing quote followed by a lower-case letter does not end a word
    assert_eq!(rows[2][4], 0);
    assert_eq!(rows[1][4], 1);
}

#[test]
fn legacy_list_channels() {
    let appender = CharBoundaryLegacyAppender::new(0, 0, tables());
    let text = "the following: (1) apples; pears, and plums";
    let semicolon = text.find(';').unwrap();
    let marker = text.find("(1)").unwrap();
    let comma = text.find(',').unwrap();
    let rows = rows_for(&appender, text, &[marker, semicolon, comma]);
    assert_eq!(rows[0][6], 1);
    assert_eq!(rows[1][7], 1);
    assert_eq!(rows[2][6], 1);
}

#[test]
fn legacy_rejects_positions_inside_a_scalar() {
    let appender = CharBoundaryLegacyAppender::new(1, 1, tables());
    let positions = [BytePos::from_usize(1)];
    let error = appender
        .rows(TextBytes::from_utf8("é."), CandidateSlice { data: &positions })
        .expect_err("offset 1 is inside 'é'");
    assert_eq!(error.message(), "candidate position is not a UTF-8 scalar start");
}

#[test]
fn legacy_rejects_invalid_utf8() {
    let appender = CharBoundaryLegacyAppender::new(1, 1, tables());
    let bytes = [0xffu8, b'.'];
    let positions = [BytePos::from_usize(1)];
    let error = appender
        .rows(TextBytes::from_bytes(&bytes), CandidateSlice { data: &positions })
        .expect_err("not UTF-8");
    assert_eq!(error.message(), "charboundary legacy appender requires valid UTF-8 text");
}
