use charstreamer::byteset::ByteSet256;
use charstreamer::data::{CandidateBuffer, ScanRange};
use charstreamer::scanner::{ByteSetScanner, LineStartScanner, StrideScanner, Utf8CharSetScanner};
use charstreamer::text::TextBytes;
use charstreamer::traits::CandidateScanner;

fn positions_of(out: &CandidateBuffer) -> Vec<usize> {
    out.positions().iter().map(|position| position.as_usize()).collect()
}

#[test]
fn scanner_finds_expected_positions() {
    let scanner = ByteSetScanner::new(ByteSet256::from_bytes(b".!?"));
    let text = TextBytes::from_utf8("A. B! C?");
    let mut out = CandidateBuffer::new();
    scanner.scan_into(text, ScanRange::full(text), &mut out);
    assert_eq!(positions_of(&out), vec![1, 4, 7]);
}

#[test]
fn stride_scanner_emits_regular_offsets() {
    let scanner = StrideScanner::new(3);
    let text = TextBytes::from_utf8("abcdefghij");
    let mut out = CandidateBuffer::new();
    scanner.scan_into(text, ScanRange::full(text), &mut out);
    assert_eq!(positions_of(&out), vec![0, 3, 6, 9]);
}

#[test]
fn line_start_scanner_emits_line_boundaries() {
    let scanner = LineStartScanner::new();
    let text = TextBytes::from_utf8("one\ntwo\nthree");
    let mut out = CandidateBuffer::new();
    scanner.scan_into(text, ScanRange::full(text), &mut out);
    assert_eq!(positions_of(&out), vec![0, 4, 8]);
}

#[test]
fn utf8_char_scanner_emits_matching_scalar_starts() {
    let scanner = Utf8CharSetScanner::new(vec!['.', '”', '?']);
    let text = TextBytes::from_utf8("A.” B?");
    let mut out = CandidateBuffer::new();
    scanner.scan_into(text, ScanRange::full(text), &mut out);
    assert_eq!(positions_of(&out), vec![1, 2, 7]);
}

#[test]
fn byte_set_scanner_respects_the_scan_range() {
    let scanner = ByteSetScanner::new(ByteSet256::from_bytes(b"."));
    let text = TextBytes::from_utf8("a.b.c.d.");
    let mut out = CandidateBuffer::new();
    scanner.scan_into(text, ScanRange::new(2, 6), &mut out);
    assert_eq!(positions_of(&out), vec![3, 5]);
}

#[test]
fn scanning_replaces_earlier_candidates() {
    let scanner = ByteSetScanner::new(ByteSet256::from_bytes(b"!"));
    let mut out = CandidateBuffer::new();
    let first = TextBytes::from_utf8("!!!");
    scanner.scan_into(first, ScanRange::full(first), &mut out);
    let second = TextBytes::from_utf8("a!");
    scanner.scan_into(second, ScanRange::full(second), &mut out);
    assert_eq!(positions_of(&out), vec![1]);
}

#[test]
fn utf8_char_scanner_finds_nothing_in_invalid_utf8() {
    let scanner = Utf8CharSetScanner::new(vec!['.']);
    let bytes = [b'a', 0xFF, b'.'];
    let text = TextBytes::from_bytes(&bytes);
    let mut out = CandidateBuffer::new();
    scanner.scan_into(text, ScanRange::full(text), &mut out);
    assert!(out.is_empty());
}

#[test]
fn line_start_scanner_from_the_middle_of_a_line() {
    let scanner = LineStartScanner::new();
    let text = TextBytes::from_utf8("ab\ncd\n");
    let mut out = CandidateBuffer::new();
    scanner.scan_into(text, ScanRange::new(1, 6), &mut out);
    assert_eq!(positions_of(&out), vec![1, 3]);
}

#[test]
fn byte_set_keeps_first_occurrences_in_order() {
    let set = ByteSet256::from_bytes(b"?.?!.");
    assert_eq!(set.members(), b"?.!");
    assert!(set.contains(b'!'));
    assert!(!set.contains(b','));
}

#[test]
fn char_scanners_with_the_same_set_scan_alike() {
    let first = Utf8CharSetScanner::new(vec!['.', '”', '?']);
    let second = Utf8CharSetScanner::new(vec!['?', '.', '”', '.']);
    let text = TextBytes::from_utf8("A.” B?");
    let mut o1 = CandidateBuffer::new();
    let mut o2 = CandidateBuffer::new();
    first.scan_into(text, ScanRange::full(text), &mut o1);
    second.scan_into(text, ScanRange::full(text), &mut o2);
    assert_eq!(positions_of(&o1), vec![1, 2, 7]);
    assert_eq!(positions_of(&o2), positions_of(&o1));
}
