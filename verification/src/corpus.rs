use vstd::prelude::*;
use vstd::string::StringSliceAdditionalSpecFns;
use vstd::utf8::*;

use std::collections::HashSet;

use crate::data::{BytePos, ByteSpan};
use crate::scalars::{decode_scalar_at, lemma_step_valid, scalar_width_at, tail};

verus! {

broadcast use vstd::utf8::encode_utf8_valid_utf8;

/// One annotated text plus sentence spans in canonical byte offsets.
#[derive(Clone, Debug, PartialEq)]
pub struct AnnotatedDocument {
    pub text: String,
    pub sentence_spans: Vec<ByteSpan>,
    pub boundary_markers: Vec<BytePos>,
}

/// The last byte of every non-empty span, in order.
pub open spec fn last_bytes_of(spans: Seq<ByteSpan>) -> Seq<BytePos>
    decreases spans.len(),
{
    if spans.len() == 0 {
        Seq::empty()
    } else {
        let rest = last_bytes_of(spans.drop_last());
        let span = spans.last();
        if span.end.0 > span.start.0 {
            rest.push(BytePos((span.end.0 - 1) as u32))
        } else {
            rest
        }
    }
}

impl AnnotatedDocument {
    /// Boundary positions: the explicit markers when there are any, otherwise the
    /// last byte of each non-empty sentence span.
    pub fn boundary_positions(&self) -> (positions: Vec<BytePos>)
        ensures
            positions@ == (if self.boundary_markers@.len() > 0 {
                self.boundary_markers@
            } else {
                last_bytes_of(self.sentence_spans@)
            }),
    {
        if self.boundary_markers.len() > 0 {
            let mut out: Vec<BytePos> = Vec::new();
            let n = self.boundary_markers.len();
            let mut i: usize = 0;
            while i < n
                invariant
                    n == self.boundary_markers@.len(),
                    i <= n,
                    out@ == self.boundary_markers@.subrange(0, i as int),
                decreases n - i,
            {
                out.push(self.boundary_markers[i]);
                i = i + 1;
                assert(out@ =~= self.boundary_markers@.subrange(0, i as int));
            }
            assert(self.boundary_markers@.subrange(0, n as int) =~= self.boundary_markers@);
            return out;
        }
        let mut positions: Vec<BytePos> = Vec::new();
        let n = self.sentence_spans.len();
        let mut i: usize = 0;
        while i < n
            invariant
                n == self.sentence_spans@.len(),
                i <= n,
                positions@ == last_bytes_of(self.sentence_spans@.subrange(0, i as int)),
            decreases n - i,
        {
            let span = self.sentence_spans[i];
            assert(self.sentence_spans@.subrange(0, i + 1).drop_last() =~= self.sentence_spans@.subrange(0, i as int));
            if span.end.as_usize() > span.start.as_usize() {
                positions.push(BytePos::from_usize(span.end.as_usize() - 1));
            }
            i = i + 1;
        }
        assert(self.sentence_spans@.subrange(0, n as int) =~= self.sentence_spans@);
        positions
    }
}

/// Splits `documents` in order: the first `len * numerator / denominator`
/// (the product saturating at `usize::MAX`) for training, the rest for validation.
pub fn split_documents(documents: Vec<AnnotatedDocument>, numerator: usize, denominator: usize) -> (parts: (
    Vec<AnnotatedDocument>,
    Vec<AnnotatedDocument>,
))
    requires
        denominator > 0,
        numerator <= denominator,
    ensures
        ({
            let len = documents@.len();
            let product = if len * numerator <= usize::MAX {
                len * numerator
            } else {
                usize::MAX as int
            };
            let at = product / (denominator as int);
            &&& parts.0@ == documents@.subrange(0, at)
            &&& parts.1@ == documents@.subrange(at, len as int)
        }),
        parts.0@ + parts.1@ == documents@,
{
    let mut documents = documents;
    let len = documents.len();
    let product = match len.checked_mul(numerator) {
        Some(v) => v,
        None => usize::MAX,
    };
    let split_at = product / denominator;
    proof {
        if len * numerator <= usize::MAX {
            assert(len * numerator <= len * denominator) by (nonlinear_arith)
                requires
                    numerator <= denominator,
            ;
            assert((product as int) / (denominator as int) <= len) by (nonlinear_arith)
                requires
                    product == len * numerator,
                    product <= len * denominator,
                    denominator > 0,
            ;
        } else {
            assert(len * numerator <= len * denominator) by (nonlinear_arith)
                requires
                    numerator <= denominator,
            ;
            assert((product as int) / (denominator as int) <= len) by (nonlinear_arith)
                requires
                    product <= len * numerator,
                    len * numerator <= len * denominator,
                    denominator > 0,
            ;
        }
    }
    let ghost all = documents@;
    let validation = documents.split_off(split_at);
    assert(documents@ + validation@ =~= all);
    (documents, validation)
}

} // verus!

verus! {

pub open spec fn sentence_tag() -> Seq<u8> {
    seq![0x3Cu8, 0x7C, 0x73, 0x65, 0x6E, 0x74, 0x65, 0x6E, 0x63, 0x65, 0x7C, 0x3E]
}

pub open spec fn paragraph_tag() -> Seq<u8> {
    seq![0x3Cu8, 0x7C, 0x70, 0x61, 0x72, 0x61, 0x67, 0x72, 0x61, 0x70, 0x68, 0x7C, 0x3E]
}

/// What parsing contributes from `offset` on: the clean text bytes, the
/// sentence spans and the boundary markers.
pub struct AleaParse {
    pub text: Seq<u8>,
    pub spans: Seq<(int, int)>,
    pub markers: Seq<int>,
}

/// Parses ALEA markup from `offset`, when the clean text so far is `tlen`
/// bytes long and the open sentence starts at `start`: each tag closes the
/// open sentence (when it is not empty) and is dropped; every other scalar is
/// copied; the text left after the last tag forms a final sentence.
pub open spec fn alea_rest(a: Seq<u8>, offset: int, tlen: int, start: int) -> AleaParse
    decreases a.len() - offset,
{
    if offset < 0 || offset >= a.len() {
        AleaParse {
            text: Seq::empty(),
            spans: if tlen > start {
                seq![(start, tlen)]
            } else {
                Seq::empty()
            },
            markers: Seq::empty(),
        }
    } else if crate::segment::occurs_at(a, offset, sentence_tag()) || crate::segment::occurs_at(
        a,
        offset,
        paragraph_tag(),
    ) {
        let k = if crate::segment::occurs_at(a, offset, sentence_tag()) {
            12int
        } else {
            13int
        };
        if tlen > start {
            let r = alea_rest(a, offset + k, tlen, tlen);
            AleaParse {
                text: r.text,
                spans: seq![(start, tlen)] + r.spans,
                markers: seq![tlen - 1] + r.markers,
            }
        } else {
            alea_rest(a, offset + k, tlen, start)
        }
    } else if offset + scalar_width_at(a, offset) <= a.len() {
        let w = scalar_width_at(a, offset);
        let r = alea_rest(a, offset + w, tlen + w, start);
        AleaParse { text: a.subrange(offset, offset + w) + r.text, spans: r.spans, markers: r.markers }
    } else {
        AleaParse { text: Seq::empty(), spans: Seq::empty(), markers: Seq::empty() }
    }
}

fn tag_at(bytes: &[u8], offset: usize, tag: &[u8]) -> (r: bool)
    requires
        offset <= bytes@.len(),
    ensures
        r == crate::segment::occurs_at(bytes@, offset as int, tag@),
{
    let n = bytes.len();
    if tag.len() > n - offset {
        return false;
    }
    let mut k: usize = 0;
    while k < tag.len()
        invariant
            n == bytes@.len(),
            offset + tag@.len() <= bytes@.len(),
            k <= tag@.len(),
            forall|j: int| 0 <= j < k ==> #[trigger] bytes@[offset + j] == tag@[j],
        decreases tag@.len() - k,
    {
        if bytes[offset + k] != tag[k] {
            return false;
        }
        k = k + 1;
    }
    true
}

/// `s` covers `[lo, hi)` with non-empty ranges, each starting where the
/// previous one ends (and nothing when the range is empty).
pub open spec fn tiles(s: Seq<(int, int)>, lo: int, hi: int) -> bool {
    if s.len() == 0 {
        lo == hi
    } else {
        &&& s[0].0 == lo
        &&& s.last().1 == hi
        &&& forall|k: int| 0 <= k < s.len() ==> #[trigger] s[k].0 < s[k].1
        &&& forall|i: int, j: int| 0 <= i && j == i + 1 && j < s.len() ==> #[trigger] s[i].1 == #[trigger] s[j].0
    }
}

/// Each marker is the last byte of the sentence of the same index.
pub open spec fn markers_close_spans(markers: Seq<int>, spans: Seq<(int, int)>) -> bool {
    &&& markers.len() <= spans.len()
    &&& forall|k: int| 0 <= k < markers.len() ==> #[trigger] markers[k] == spans[k].1 - 1
}

proof fn lemma_alea_tiles(a: Seq<u8>, offset: int, tlen: int, start: int)
    requires
        valid_utf8(a),
        0 <= offset <= a.len(),
        crate::textops::is_boundary(a, offset),
        0 <= start <= tlen,
    ensures
        ({
            let r = alea_rest(a, offset, tlen, start);
            tiles(r.spans, start, tlen + r.text.len()) && markers_close_spans(r.markers, r.spans)
        }),
    decreases a.len() - offset,
{
    let r = alea_rest(a, offset, tlen, start);
    if offset >= a.len() {
    } else if crate::segment::occurs_at(a, offset, sentence_tag()) || crate::segment::occurs_at(
        a,
        offset,
        paragraph_tag(),
    ) {
        let k = if crate::segment::occurs_at(a, offset, sentence_tag()) {
            12int
        } else {
            13int
        };
        if k == 12 {
            assert(a[offset + 11] == sentence_tag()[11]);
        } else {
            assert(a[offset + 12] == paragraph_tag()[12]);
        }
        crate::shape::lemma_boundary_after_ascii(a, offset + k - 1);
        if tlen > start {
            lemma_alea_tiles(a, offset + k, tlen, tlen);
            let r1 = alea_rest(a, offset + k, tlen, tlen);
            let s = seq![(start, tlen)] + r1.spans;
            assert(r.spans == s);
            assert(r.markers == seq![tlen - 1] + r1.markers);
            if r1.spans.len() > 0 {
                assert(s.last() == r1.spans.last());
                assert forall|i: int, j: int| 0 <= i && j == i + 1 && j < s.len() implies #[trigger] s[i].1
                    == #[trigger] s[j].0 by {
                    if i > 0 {
                        assert(s[i] == r1.spans[i - 1] && s[j] == r1.spans[j - 1]);
                    }
                }
                assert forall|q: int| 0 <= q < s.len() implies #[trigger] s[q].0 < s[q].1 by {
                    if q > 0 {
                        assert(s[q] == r1.spans[q - 1]);
                    }
                }
            }
            assert forall|q: int| 0 <= q < r.markers.len() implies #[trigger] r.markers[q] == r.spans[q].1 - 1 by {
                if q > 0 {
                    assert(r.markers[q] == r1.markers[q - 1]);
                    assert(r.spans[q] == r1.spans[q - 1]);
                }
            }
        } else {
            lemma_alea_tiles(a, offset + k, tlen, start);
        }
    } else {
        crate::textops::lemma_tail_valid(a, offset);
        lemma_step_valid(a, offset);
        let w = scalar_width_at(a, offset);
        if offset + w < a.len() {
            lemma_step_valid(a, offset + w);
        }
        lemma_alea_tiles(a, offset + w, tlen + w, start);
    }
}

/// ALEA sentences cover the clean text: the sentence spans of a parse run
/// from the start of the text to its end, each non-empty and starting where
/// the previous one ends, and each boundary marker is the last byte of the
/// sentence its tag closed.
pub proof fn lemma_alea_sentences_tile_text(a: Seq<u8>)
    requires
        valid_utf8(a),
    ensures
        tiles(alea_rest(a, 0, 0, 0).spans, 0, alea_rest(a, 0, 0, 0).text.len() as int),
        markers_close_spans(alea_rest(a, 0, 0, 0).markers, alea_rest(a, 0, 0, 0).spans),
{
    lemma_alea_tiles(a, 0, 0, 0);
}

/// Strips ALEA sentence and paragraph tags, recording the sentence spans they
/// delimit and the last byte of each sentence a tag closes.
pub fn parse_alea_annotated_text(annotated: &str) -> (document: AnnotatedDocument)
    requires
        annotated.spec_bytes().len() <= u32::MAX,
    ensures
        ({
            let r = alea_rest(annotated.spec_bytes(), 0, 0, 0);
            &&& document.text@ == decode_utf8(r.text)
            &&& document.sentence_spans@.len() == r.spans.len()
            &&& forall|k: int|
                0 <= k < r.spans.len() ==> (#[trigger] document.sentence_spans@[k]).start.0 == r.spans[k].0
                    && document.sentence_spans@[k].end.0 == r.spans[k].1
            &&& document.boundary_markers@.len() == r.markers.len()
            &&& forall|k: int| 0 <= k < r.markers.len() ==> (#[trigger] document.boundary_markers@[k]).0 == r.markers[k]
        }),
{
    let bytes = annotated.as_bytes();
    let ghost a = bytes@;
    let n = bytes.len();
    let sentence = vec![0x3Cu8, 0x7C, 0x73, 0x65, 0x6E, 0x74, 0x65, 0x6E, 0x63, 0x65, 0x7C, 0x3E];
    let paragraph = vec![0x3Cu8, 0x7C, 0x70, 0x61, 0x72, 0x61, 0x67, 0x72, 0x61, 0x70, 0x68, 0x7C, 0x3E];
    assert(sentence@ =~= sentence_tag());
    assert(paragraph@ =~= paragraph_tag());
    let mut text: Vec<u8> = Vec::new();
    let mut spans: Vec<ByteSpan> = Vec::new();
    let mut markers: Vec<BytePos> = Vec::new();
    let mut start: usize = 0;
    let mut offset: usize = 0;
    let ghost mut span_seq: Seq<(int, int)> = Seq::empty();
    let ghost mut marker_seq: Seq<int> = Seq::empty();
    proof {
        crate::segment::lemma_ascii_valid(text@);
    }
    while offset < n
        invariant
            a == bytes@,
            valid_utf8(a),
            n == a.len() <= u32::MAX,
            offset <= n,
            crate::textops::is_boundary(a, offset as int),
            start <= text@.len() <= offset,
            valid_utf8(text@),
            sentence@ == sentence_tag(),
            paragraph@ == paragraph_tag(),
            spans@.len() == span_seq.len(),
            forall|k: int| 0 <= k < span_seq.len() ==> (#[trigger] spans@[k]).start.0 == span_seq[k].0
                && spans@[k].end.0 == span_seq[k].1,
            markers@.len() == marker_seq.len(),
            forall|k: int| 0 <= k < marker_seq.len() ==> (#[trigger] markers@[k]).0 == marker_seq[k],
            ({
                let r = alea_rest(a, offset as int, text@.len() as int, start as int);
                let whole = alea_rest(a, 0, 0, 0);
                &&& text@ + r.text == whole.text
                &&& span_seq + r.spans == whole.spans
                &&& marker_seq + r.markers == whole.markers
            }),
        decreases n - offset,
    {
        let ghost r0 = alea_rest(a, offset as int, text@.len() as int, start as int);
        let is_sentence = tag_at(bytes, offset, sentence.as_slice());
        let is_paragraph = tag_at(bytes, offset, paragraph.as_slice());
        if is_sentence || is_paragraph {
            let k: usize = if is_sentence {
                12
            } else {
                13
            };
            proof {
                if is_sentence {
                    assert(a[offset + 11] == sentence_tag()[11]);
                } else {
                    assert(a[offset + 12] == paragraph_tag()[12]);
                }
                crate::shape::lemma_boundary_after_ascii(a, offset + k - 1);
            }
            let end = text.len();
            if end > start {
                let ghost r1 = alea_rest(a, offset + k, end as int, end as int);
                spans.push(ByteSpan::new(start, end));
                markers.push(BytePos::from_usize(end - 1));
                proof {
                    assert(r0.spans == seq![(start as int, end as int)] + r1.spans);
                    span_seq = span_seq.push((start as int, end as int));
                    marker_seq = marker_seq.push(end - 1);
                    assert(span_seq + r1.spans =~= (span_seq.drop_last()) + r0.spans);
                    assert(marker_seq + r1.markers =~= (marker_seq.drop_last()) + r0.markers);
                }
                start = end;
            }
            offset = offset + k;
        } else {
            proof {
                crate::textops::lemma_tail_valid(a, offset as int);
            }
            let (_c, w) = decode_scalar_at(bytes, offset);
            proof {
                crate::segment::lemma_piece_valid(a, offset as int, offset + w);
                vstd::utf8::valid_utf8_concat(text@, a.subrange(offset as int, offset + w));
                if offset + w < n {
                    lemma_step_valid(a, offset + w);
                }
            }
            let ghost before = text@;
            let mut j = offset;
            while j < offset + w
                invariant
                    offset <= j <= offset + w <= n == bytes@.len(),
                    text@ == before + bytes@.subrange(offset as int, j as int),
                decreases offset + w - j,
            {
                text.push(bytes[j]);
                j = j + 1;
                assert(text@ =~= before + bytes@.subrange(offset as int, j as int));
            }
            proof {
                let r1 = alea_rest(a, offset + w, text@.len() as int, start as int);
                assert(r0.text == a.subrange(offset as int, offset + w) + r1.text);
                assert(text@ + r1.text =~= before + r0.text);
            }
            offset = offset + w;
        }
    }
    if text.len() > start {
        let end = text.len();
        spans.push(ByteSpan::new(start, end));
        proof {
            span_seq = span_seq.push((start as int, end as int));
        }
    }
    proof {
        let whole = alea_rest(a, 0, 0, 0);
        assert(text@ =~= whole.text);
        assert(span_seq =~= whole.spans);
        assert(marker_seq =~= whole.markers);
    }
    let text_string = match crate::segment::string_from_utf8(text) {
        Some(s) => s,
        None => String::new(),
    };
    AnnotatedDocument { text: text_string, sentence_spans: spans, boundary_markers: markers }
}

} // verus!

verus! {

#[verifier::external_type_specification]
#[verifier::external_body]
pub struct ExIoError(std::io::Error);

#[verifier::external_type_specification]
#[verifier::external_body]
pub struct ExJsonError(serde_json::Error);

/// Why loading a corpus failed.
#[derive(Debug)]
pub enum CorpusError {
    Io(std::io::Error),
    Json(serde_json::Error),
    InvalidRecord(String),
}

/// One labeled span of a MultiLegal record, in scalar offsets.
#[derive(Clone, Debug)]
pub struct MultiLegalSpan {
    pub start: usize,
    pub end: usize,
    pub label: String,
}

/// One MultiLegal record: text plus labeled spans in scalar offsets.
#[derive(Clone, Debug)]
pub struct MultiLegalRecord {
    pub text: String,
    pub spans: Vec<MultiLegalSpan>,
}

/// The scalar starts of `b` from offset `i` on, then the length of `b`.
pub open spec fn starts_from(b: Seq<u8>, i: int) -> Seq<usize>
    decreases b.len() - i,
{
    if i < 0 || i >= b.len() || scalar_width_at(b, i) < 1 || i + scalar_width_at(b, i) > b.len() {
        seq![b.len() as usize]
    } else {
        seq![i as usize] + starts_from(b, i + scalar_width_at(b, i))
    }
}

/// Byte offset of every scalar of `b`, then its length: the byte offset of
/// each scalar index, up to one past the last scalar.
pub open spec fn scalar_offsets(b: Seq<u8>) -> Seq<usize> {
    starts_from(b, 0)
}

proof fn lemma_starts_from_bounds(b: Seq<u8>, i: int)
    requires
        0 <= i <= b.len() <= usize::MAX,
        valid_utf8(tail(b, i)),
    ensures
        starts_from(b, i).len() >= 1,
        forall|k: int| 0 <= k < starts_from(b, i).len() ==> #[trigger] starts_from(b, i)[k] <= b.len(),
    decreases b.len() - i,
{
    if i < b.len() {
        lemma_step_valid(b, i);
        lemma_starts_from_bounds(b, i + scalar_width_at(b, i));
        let r = starts_from(b, i + scalar_width_at(b, i));
        assert forall|k: int| 0 <= k < starts_from(b, i).len() implies #[trigger] starts_from(b, i)[k] <= b.len() by {
            if k > 0 {
                assert(starts_from(b, i)[k] == r[k - 1]);
            }
        }
    }
}

/// Byte offset of every scalar of `text`, in order, followed by the text length.
pub fn scalar_to_byte_offsets(text: &str) -> (offsets: Vec<usize>)
    ensures
        offsets@ == scalar_offsets(text.spec_bytes()),
{
    let bytes = text.as_bytes();
    let ghost b = bytes@;
    let n = bytes.len();
    let mut offsets: Vec<usize> = Vec::new();
    let mut i: usize = 0;
    assert(tail(b, 0) =~= b);
    while i < n
        invariant
            b == bytes@,
            n == b.len(),
            i <= n,
            valid_utf8(tail(b, i as int)),
            offsets@ + starts_from(b, i as int) == scalar_offsets(b),
        decreases n - i,
    {
        let (_c, w) = decode_scalar_at(bytes, i);
        let ghost before = offsets@;
        offsets.push(i);
        proof {
            assert(starts_from(b, i as int) == seq![i as usize] + starts_from(b, i + w));
            assert(offsets@ + starts_from(b, i + w) =~= before + starts_from(b, i as int));
            if i + w < n {
                lemma_step_valid(b, i + w);
            }
        }
        i = i + w;
    }
    let ghost before = offsets@;
    offsets.push(n);
    assert(offsets@ =~= before + starts_from(b, n as int));
    offsets
}

/// The byte spans that the `Sentence` spans of `spans` give through `offsets`,
/// keeping the non-empty ones, in order.
pub open spec fn sentence_byte_spans(spans: Seq<MultiLegalSpan>, offsets: Seq<usize>) -> Seq<ByteSpan>
    decreases spans.len(),
{
    if spans.len() == 0 {
        Seq::empty()
    } else {
        let rest = sentence_byte_spans(spans.drop_last(), offsets);
        let s = spans.last();
        if s.label@ == "Sentence"@ && s.start < offsets.len() && s.end < offsets.len()
            && offsets[s.end as int] > offsets[s.start as int] {
            rest.push(ByteSpan { start: BytePos(offsets[s.start as int] as u32), end: BytePos(offsets[s.end as int] as u32) })
        } else {
            rest
        }
    }
}

/// Some `Sentence` span of `spans` refers to a scalar offset of `offsets` that
/// does not exist.
pub open spec fn has_bad_sentence_span(spans: Seq<MultiLegalSpan>, offsets: Seq<usize>) -> bool {
    exists|k: int|
        0 <= k < spans.len() && (#[trigger] spans[k]).label@ == "Sentence"@ && (spans[k].start
            >= offsets.len() || spans[k].end >= offsets.len())
}

/// The first index at or after `p` whose span in `t` starts after `x`, or the
/// length of `t`.
pub open spec fn start_insertion_point(t: Seq<ByteSpan>, x: ByteSpan, p: int) -> int
    decreases t.len() - p,
{
    if p >= t.len() {
        t.len() as int
    } else if t[p].start.0 > x.start.0 {
        p
    } else {
        start_insertion_point(t, x, p + 1)
    }
}

/// The stable sort of `s` by start: each span, in turn, goes after every
/// earlier one that starts no later than it, so spans with equal starts keep
/// their order in `s`.
pub open spec fn stably_sorted_by_start(s: Seq<ByteSpan>) -> Seq<ByteSpan>
    decreases s.len(),
{
    if s.len() == 0 {
        s
    } else {
        let t = stably_sorted_by_start(s.drop_last());
        t.insert(start_insertion_point(t, s.last(), 0), s.last())
    }
}

proof fn lemma_start_insertion_point(t: Seq<ByteSpan>, x: ByteSpan, p: int, q: int)
    requires
        0 <= p <= q <= t.len(),
        forall|j: int| p <= j < q ==> (#[trigger] t[j]).start.0 <= x.start.0,
        q == t.len() || t[q].start.0 > x.start.0,
    ensures
        start_insertion_point(t, x, p) == q,
    decreases q - p,
{
    if p < q {
        lemma_start_insertion_point(t, x, p + 1, q);
    }
}

/// Sorts byte spans by start, keeping equal starts in their order.
fn sort_by_start(spans: Vec<ByteSpan>) -> (sorted: Vec<ByteSpan>)
    ensures
        sorted@ == stably_sorted_by_start(spans@),
        forall|a: int, c: int| 0 <= a < c < sorted@.len() ==> (#[trigger] sorted@[a]).start.0 <= (#[trigger] sorted@[c]).start.0,
        sorted@.to_multiset() == spans@.to_multiset(),
        sorted@.len() == spans@.len(),
{
    broadcast use vstd::seq_lib::group_to_multiset_ensures;

    let n = spans.len();
    let mut out: Vec<ByteSpan> = Vec::new();
    let mut i: usize = 0;
    while i < n
        invariant
            n == spans@.len(),
            i <= n,
            forall|a: int, c: int| 0 <= a < c < out@.len() ==> (#[trigger] out@[a]).start.0 <= (#[trigger] out@[c]).start.0,
            out@ == stably_sorted_by_start(spans@.subrange(0, i as int)),
            out@.to_multiset() == spans@.subrange(0, i as int).to_multiset(),
            out@.len() == i,
        decreases n - i,
    {
        let x = spans[i];
        let mut pos: usize = 0;
        while pos < out.len() && out[pos].start.0 <= x.start.0
            invariant
                pos <= out@.len(),
                forall|j: int| 0 <= j < pos ==> (#[trigger] out@[j]).start.0 <= x.start.0,
            decreases out@.len() - pos,
        {
            pos = pos + 1;
        }
        let ghost before = out@;
        proof {
            lemma_start_insertion_point(before, x, 0, pos as int);
            assert(spans@.subrange(0, i + 1).drop_last() =~= spans@.subrange(0, i as int));
        }
        out.insert(pos, x);
        proof {
            assert(spans@.subrange(0, i + 1) =~= spans@.subrange(0, i as int).push(x));
            assert(out@ == before.insert(pos as int, x));
            vstd::seq_lib::to_multiset_insert(before, pos as int, x);
            vstd::seq_lib::to_multiset_build(spans@.subrange(0, i as int), x);
            assert forall|a: int, c: int| 0 <= a < c < out@.len() implies (#[trigger] out@[a]).start.0 <= (#[trigger] out@[c]).start.0 by {
                if c < pos {
                    assert(out@[a] == before[a] && out@[c] == before[c]);
                } else if c == pos {
                    assert(out@[a] == before[a]);
                } else if a == pos {
                    assert(out@[c] == before[c - 1]);
                } else if a < pos {
                    assert(out@[a] == before[a] && out@[c] == before[c - 1]);
                } else {
                    assert(out@[a] == before[a - 1] && out@[c] == before[c - 1]);
                }
            }
        }
        i = i + 1;
    }
    assert(spans@.subrange(0, n as int) =~= spans@);
    out
}

/// Converts a MultiLegal record: the `Sentence` spans, from scalar to byte
/// offsets, sorted by start, with the last byte of each as a boundary marker;
/// a `Sentence` span past the end of the text is an invalid record.
pub fn parse_multilegal_record(record: MultiLegalRecord) -> (parsed: Result<AnnotatedDocument, CorpusError>)
    requires
        encode_utf8(record.text@).len() <= u32::MAX,
    ensures
        ({
            let offsets = scalar_offsets(encode_utf8(record.text@));
            &&& parsed.is_err() == has_bad_sentence_span(record.spans@, offsets)
            &&& parsed matches Err(e) ==> e is InvalidRecord
            &&& parsed matches Ok(doc) ==> {
                &&& doc.text@ == record.text@
                &&& doc.sentence_spans@ == stably_sorted_by_start(sentence_byte_spans(record.spans@, offsets))
                &&& doc.sentence_spans@.to_multiset() == sentence_byte_spans(record.spans@, offsets).to_multiset()
                &&& forall|a: int, c: int|
                    0 <= a < c < doc.sentence_spans@.len() ==> (#[trigger] doc.sentence_spans@[a]).start.0
                        <= (#[trigger] doc.sentence_spans@[c]).start.0
                &&& doc.boundary_markers@.len() == doc.sentence_spans@.len()
                &&& forall|k: int|
                    0 <= k < doc.sentence_spans@.len() ==> (#[trigger] doc.boundary_markers@[k]).0 + 1
                        == doc.sentence_spans@[k].end.0
            }
        }),
{
    let text_str = record.text.as_str();
    let offsets = scalar_to_byte_offsets(text_str);
    let ghost b = encode_utf8(record.text@);
    assert(text_str.spec_bytes() == b);
    proof {
        assert(tail(b, 0) =~= b);
        lemma_starts_from_bounds(b, 0);
    }
    let mut spans: Vec<ByteSpan> = Vec::new();
    let mut i: usize = 0;
    let sentence = "Sentence";
    while i < record.spans.len()
        invariant
            i <= record.spans@.len(),
            offsets@ == scalar_offsets(b),
            b == encode_utf8(record.text@),
            sentence@ == "Sentence"@,
            offsets@.len() >= 1,
            forall|k: int| 0 <= k < offsets@.len() ==> #[trigger] offsets@[k] <= b.len(),
            b.len() <= u32::MAX,
            spans@ == sentence_byte_spans(record.spans@.subrange(0, i as int), offsets@),
            !has_bad_sentence_span(record.spans@.subrange(0, i as int), offsets@),
        decreases record.spans@.len() - i,
    {
        let span = &record.spans[i];
        let ghost prefix = record.spans@.subrange(0, i + 1);
        assert(prefix.drop_last() =~= record.spans@.subrange(0, i as int));
        assert(prefix.last() == *span);
        let label_str = span.label.as_str();
        let is_sentence = crate::data::str_eq(label_str, sentence);
        assert(is_sentence == (span.label@ == "Sentence"@));
        if is_sentence {
            if span.start >= offsets.len() || span.end >= offsets.len() {
                let message = if span.start >= offsets.len() {
                    invalid_span_message("start", span.start)
                } else {
                    invalid_span_message("end", span.end)
                };
                proof {
                    assert(record.spans@[i as int] == *span);
                    assert(has_bad_sentence_span(record.spans@, offsets@));
                    assert(offsets@ == scalar_offsets(encode_utf8(record.text@)));
                }
                return Err(CorpusError::InvalidRecord(message));
            }
            let start = offsets[span.start];
            let end = offsets[span.end];
            if end > start {
                spans.push(ByteSpan::new(start, end));
            }
        }
        proof {
            assert forall|k: int| 0 <= k < prefix.len() && (#[trigger] prefix[k]).label@ == "Sentence"@
                implies !(prefix[k].start >= offsets@.len() || prefix[k].end >= offsets@.len()) by {
                if k < i {
                    assert(prefix[k] == record.spans@.subrange(0, i as int)[k]);
                }
            }
        }
        i = i + 1;
    }
    assert(record.spans@.subrange(0, i as int) =~= record.spans@);
    let sorted = sort_by_start(spans);
    let mut markers: Vec<BytePos> = Vec::new();
    let mut k: usize = 0;
    proof {
        assert forall|q: int| 0 <= q < sorted@.len() implies (#[trigger] sorted@[q]).end.0 >= 1 by {
            vstd::seq_lib::to_multiset_contains(sorted@, sorted@[q]);
            vstd::seq_lib::to_multiset_contains(spans@, sorted@[q]);
            lemma_sentence_spans_nonempty(record.spans@, offsets@);
        }
    }
    while k < sorted.len()
        invariant
            k <= sorted@.len(),
            markers@.len() == k,
            forall|q: int| 0 <= q < sorted@.len() ==> (#[trigger] sorted@[q]).end.0 >= 1,
            forall|q: int| 0 <= q < k ==> (#[trigger] markers@[q]).0 + 1 == sorted@[q].end.0,
        decreases sorted@.len() - k,
    {
        markers.push(BytePos(sorted[k].end.0 - 1));
        k = k + 1;
    }
    Ok(AnnotatedDocument { text: record.text, sentence_spans: sorted, boundary_markers: markers })
}

/// Every span `sentence_byte_spans` yields is non-empty.
proof fn lemma_sentence_spans_nonempty(spans: Seq<MultiLegalSpan>, offsets: Seq<usize>)
    requires
        forall|k: int| 0 <= k < offsets.len() ==> #[trigger] offsets[k] <= u32::MAX,
    ensures
        forall|q: int| 0 <= q < sentence_byte_spans(spans, offsets).len() ==> (#[trigger] sentence_byte_spans(spans, offsets)[q]).start.0 < sentence_byte_spans(spans, offsets)[q].end.0,
    decreases spans.len(),
{
    if spans.len() > 0 {
        lemma_sentence_spans_nonempty(spans.drop_last(), offsets);
        let rest = sentence_byte_spans(spans.drop_last(), offsets);
        let r = sentence_byte_spans(spans, offsets);
        assert forall|q: int| 0 <= q < r.len() implies (#[trigger] r[q]).start.0 < r[q].end.0 by {
            if q < rest.len() {
                assert(r[q] == rest[q]);
            }
        }
    }
}

/// The message for a span bound past the end of its text, written with `format!`.
#[verifier::external_body]
fn invalid_span_message(which: &str, value: usize) -> (message: String) {
    format!("span {which} {value} exceeds the number of UTF-8 scalars in a MultiLegal example")
}

} // verus!

verus! {

/// Which positions of a document become training rows.
#[derive(Clone, Copy, Debug, Eq, PartialEq, Structural)]
pub enum TrainingPositionPolicy {
    ScannedCandidatesOnly,
    AllUtf8ScalarPositions,
}

/// The rows chosen from one document, with their binary labels.
#[derive(Clone, Debug)]
pub struct PositionSelection {
    pub positions: Vec<BytePos>,
    pub labels: Vec<u8>,
    pub positives: usize,
    pub negatives: usize,
}

/// `s` holds a position equal to `p`.
pub open spec fn holds_pos(s: Seq<BytePos>, p: BytePos) -> bool {
    exists|k: int| 0 <= k < s.len() && s[k] == p
}

/// The offsets of the positions in `s`, as a hash set.
fn position_set(s: &[BytePos]) -> (set: HashSet<u32>)
    ensures
        forall|p: BytePos| #[trigger] holds_pos(s@, p) == set@.contains(p.0),
{
    broadcast use vstd::std_specs::hash::group_hash_axioms;

    let mut set: HashSet<u32> = HashSet::new();
    let mut k: usize = 0;
    while k < s.len()
        invariant
            k <= s@.len(),
            forall|x: u32| #[trigger] set@.contains(x) == exists|j: int| 0 <= j < k && s@[j].0 == x,
        decreases s@.len() - k,
    {
        set.insert(s[k].0);
        proof {
            assert forall|x: u32| #[trigger] set@.contains(x) == exists|j: int| 0 <= j < k + 1 && s@[j].0 == x by {
                if x == s@[k as int].0 {
                    assert(0 <= k < k + 1 && s@[k as int].0 == x);
                }
            }
        }
        k = k + 1;
    }
    proof {
        assert forall|p: BytePos| #[trigger] holds_pos(s@, p) == set@.contains(p.0) by {
            if set@.contains(p.0) {
                let j = choose|j: int| 0 <= j < s@.len() && s@[j].0 == p.0;
                assert(s@[j] == p);
            }
            if holds_pos(s@, p) {
                let j = choose|j: int| 0 <= j < s@.len() && s@[j] == p;
                assert(s@[j].0 == p.0);
            }
        }
    }
    set
}

/// Position `k` of `source` is kept: it is a boundary, a scanned candidate
/// (when every scalar position is a source), or it was sampled.
pub open spec fn kept_at(
    policy: TrainingPositionPolicy,
    source: Seq<BytePos>,
    candidates: Seq<BytePos>,
    positives: Seq<BytePos>,
    sampled: Seq<bool>,
    k: int,
) -> bool {
    holds_pos(positives, source[k]) || (policy == TrainingPositionPolicy::AllUtf8ScalarPositions
        && holds_pos(candidates, source[k])) || sampled[k]
}

/// The kept positions among the first `n` of `source`, in order.
pub open spec fn kept_positions(
    policy: TrainingPositionPolicy,
    source: Seq<BytePos>,
    candidates: Seq<BytePos>,
    positives: Seq<BytePos>,
    sampled: Seq<bool>,
    n: int,
) -> Seq<BytePos>
    decreases n,
{
    if n <= 0 {
        Seq::empty()
    } else {
        let rest = kept_positions(policy, source, candidates, positives, sampled, n - 1);
        if kept_at(policy, source, candidates, positives, sampled, n - 1) {
            rest.push(source[n - 1])
        } else {
            rest
        }
    }
}

/// Chooses the training rows of one document: each position of the source
/// list (the scanned candidates, or every scalar start) that is a boundary,
/// a candidate (for the scalar-start source) or sampled. `sampled[k]` is the
/// sampling draw for the `k`-th source position.
pub fn select_training_positions(
    policy: TrainingPositionPolicy,
    candidates: &[BytePos],
    scalar_starts: &[BytePos],
    positives: &[BytePos],
    sampled: &[bool],
) -> (selection: PositionSelection)
    requires
        sampled@.len() == (if policy == TrainingPositionPolicy::ScannedCandidatesOnly {
            candidates@.len()
        } else {
            scalar_starts@.len()
        }),
    ensures
        ({
            let source = if policy == TrainingPositionPolicy::ScannedCandidatesOnly {
                candidates@
            } else {
                scalar_starts@
            };
            let kept = kept_positions(policy, source, candidates@, positives@, sampled@, source.len() as int);
            &&& selection.positions@ == kept
            &&& selection.labels@.len() == kept.len()
            &&& forall|k: int|
                0 <= k < kept.len() ==> #[trigger] selection.labels@[k] == (if holds_pos(positives@, kept[k]) {
                    1u8
                } else {
                    0u8
                })
            &&& selection.positives + selection.negatives == kept.len()
            &&& selection.positives == count_labels(selection.labels@, 1)
        }),
{
    let source = match policy {
        TrainingPositionPolicy::ScannedCandidatesOnly => candidates,
        TrainingPositionPolicy::AllUtf8ScalarPositions => scalar_starts,
    };
    let mut positions: Vec<BytePos> = Vec::new();
    let mut labels: Vec<u8> = Vec::new();
    let mut pos_count: usize = 0;
    let mut neg_count: usize = 0;
    let positive_set = position_set(positives);
    let candidate_set = position_set(candidates);
    let mut k: usize = 0;
    while k < source.len()
        invariant
            k <= source@.len(),
            forall|p: BytePos| #[trigger] holds_pos(positives@, p) == positive_set@.contains(p.0),
            forall|p: BytePos| #[trigger] holds_pos(candidates@, p) == candidate_set@.contains(p.0),
            sampled@.len() == source@.len(),
            source@ == (if policy == TrainingPositionPolicy::ScannedCandidatesOnly {
                candidates@
            } else {
                scalar_starts@
            }),
            positions@ == kept_positions(policy, source@, candidates@, positives@, sampled@, k as int),
            labels@.len() == positions@.len(),
            forall|j: int|
                0 <= j < positions@.len() ==> #[trigger] labels@[j] == (if holds_pos(positives@, positions@[j]) {
                    1u8
                } else {
                    0u8
                }),
            pos_count + neg_count == positions@.len(),
            pos_count == count_labels(labels@, 1),
            positions@.len() <= k,
        decreases source@.len() - k,
    {
        let p = source[k];
        let is_positive = positive_set.contains(&p.0);
        let is_candidate = match policy {
            TrainingPositionPolicy::ScannedCandidatesOnly => false,
            TrainingPositionPolicy::AllUtf8ScalarPositions => candidate_set.contains(&p.0),
        };
        proof {
            assert(is_positive == holds_pos(positives@, p));
            assert(policy == TrainingPositionPolicy::AllUtf8ScalarPositions ==> is_candidate == holds_pos(candidates@, p));
        }
        let is_sampled = sampled[k];
        if is_positive || is_candidate || is_sampled {
            let ghost old_labels = labels@;
            positions.push(p);
            labels.push(if is_positive {
                1u8
            } else {
                0u8
            });
            proof {
                assert(old_labels.push(if is_positive { 1u8 } else { 0u8 }) =~= labels@);
                assert(labels@.drop_last() =~= old_labels);
            }
            if is_positive {
                pos_count = pos_count + 1;
            } else {
                neg_count = neg_count + 1;
            }
        }
        k = k + 1;
    }
    PositionSelection { positions, labels, positives: pos_count, negatives: neg_count }
}

/// Number of entries of `labels` equal to `x`.
pub open spec fn count_labels(labels: Seq<u8>, x: u8) -> nat
    decreases labels.len(),
{
    if labels.len() == 0 {
        0
    } else {
        count_labels(labels.drop_last(), x) + if labels.last() == x {
            1nat
        } else {
            0nat
        }
    }
}

} // verus!
