use vstd::prelude::*;
use vstd::string::StringSliceAdditionalSpecFns;
use vstd::utf8::*;

use crate::features::count_in;
use crate::lines::{
    digit_run, find_byte_between, has_metadata_colon, metadata_colon, trim_bounds, trim_start_at,
};
use crate::scalars::{decode_scalar_at, is_scalar_start, lemma_step_valid, scalar_at, scalar_width_at};
use crate::textops::{
    find_last_nonspace, find_nonspace, first_nonspace, is_boundary, is_line_break,
    last_nonspace, lemma_first_nonspace, lemma_last_nonspace, lemma_line_start, lemma_tail_valid,
    line_start_at, line_start_before,
};

verus! {

broadcast use vstd::utf8::encode_utf8_valid_utf8;

/// Semantic label emitted by the default combined segmenter.
#[derive(Clone, Copy, Debug, Eq, Hash, Ord, PartialEq, PartialOrd, Structural)]
pub enum Label {
    Paragraph,
    Metadata,
    Section,
    ListItem,
    Dialogue,
    Sentence,
}

impl Label {
    pub fn as_str(self) -> (name: &'static str)
        ensures
            name@ == label_name(self),
    {
        match self {
            Label::Paragraph => "paragraph",
            Label::Metadata => "metadata",
            Label::Section => "section",
            Label::ListItem => "list_item",
            Label::Dialogue => "dialogue",
            Label::Sentence => "sentence",
        }
    }
}

/// The tag name of a label.
pub open spec fn label_name(label: Label) -> Seq<char> {
    match label {
        Label::Paragraph => "paragraph"@,
        Label::Metadata => "metadata"@,
        Label::Section => "section"@,
        Label::ListItem => "list_item"@,
        Label::Dialogue => "dialogue"@,
        Label::Sentence => "sentence"@,
    }
}

/// Nesting rank of a label: paragraphs outermost, sentences innermost.
pub open spec fn priority(label: Label) -> int {
    match label {
        Label::Paragraph => 0,
        Label::Metadata => 1,
        Label::Section => 2,
        Label::ListItem => 3,
        Label::Dialogue => 4,
        Label::Sentence => 5,
    }
}

pub fn label_priority(label: Label) -> (p: usize)
    ensures
        p == priority(label),
{
    match label {
        Label::Paragraph => 0,
        Label::Metadata => 1,
        Label::Section => 2,
        Label::ListItem => 3,
        Label::Dialogue => 4,
        Label::Sentence => 5,
    }
}

/// One half-open byte span in UTF-8 text, with a confidence in thousandths.
#[derive(Clone, Copy, Debug, PartialEq, Eq, Structural)]
pub struct AnnotationSpan {
    pub label: Label,
    pub start: usize,
    pub end: usize,
    pub score: u32,
}

impl AnnotationSpan {
    pub fn new(label: Label, start: usize, end: usize, score: u32) -> (span: Self)
        ensures
            span == (AnnotationSpan { label, start, end, score }),
    {
        AnnotationSpan { label, start, end, score }
    }
}

/// Full annotation result. Standoff spans are canonical; tagged text is a view.
#[derive(Clone, Debug)]
pub struct Annotation {
    pub spans: Vec<AnnotationSpan>,
    pub tagged: String,
}

/// Configuration for the default production segmenter.
#[derive(Clone, Debug, PartialEq, Eq, Structural)]
pub struct SegmenterConfig {
    pub include_paragraphs: bool,
    pub include_sentences: bool,
    pub include_metadata: bool,
    pub include_sections: bool,
    pub include_list_items: bool,
    pub include_dialogue: bool,
    pub suppress_sentences_in_structural_spans: bool,
    pub min_span_bytes: usize,
}

impl Default for SegmenterConfig {
    fn default() -> (config: Self)
        ensures
            config == (SegmenterConfig {
                include_paragraphs: true,
                include_sentences: true,
                include_metadata: true,
                include_sections: true,
                include_list_items: true,
                include_dialogue: true,
                suppress_sentences_in_structural_spans: true,
                min_span_bytes: 1,
            }),
    {
        SegmenterConfig {
            include_paragraphs: true,
            include_sentences: true,
            include_metadata: true,
            include_sections: true,
            include_list_items: true,
            include_dialogue: true,
            suppress_sentences_in_structural_spans: true,
            min_span_bytes: 1,
        }
    }
}

/// `[start, end)` is a non-empty span of `b` cut at scalar boundaries.
pub open spec fn valid_range(b: Seq<u8>, start: int, end: int) -> bool {
    &&& 0 <= start < end <= b.len()
    &&& is_boundary(b, start)
    &&& is_boundary(b, end)
}

/// Offset of the first non-whitespace scalar in `[start, end)` when that range
/// is cut at boundaries of the text.
pub open spec fn next_nonspace_position_spec(b: Seq<u8>, start: int, end: int) -> Option<int> {
    let s = if start < b.len() {
        start
    } else {
        b.len() as int
    };
    let e = if end < b.len() {
        end
    } else {
        b.len() as int
    };
    if s <= e && is_boundary(b, s) && is_boundary(b, e) {
        first_nonspace(b, s, e)
    } else {
        None
    }
}

/// End of the last non-whitespace scalar in `[start, end)` when that range is
/// cut at boundaries of the text.
pub open spec fn previous_nonspace_end_spec(b: Seq<u8>, start: int, end: int) -> Option<int> {
    let s = if start < b.len() {
        start
    } else {
        b.len() as int
    };
    let e = if end < b.len() {
        end
    } else {
        b.len() as int
    };
    if s <= e && is_boundary(b, s) && is_boundary(b, e) {
        match last_nonspace(b, s, e) {
            Some(x) => Some(x + scalar_width_at(b, x)),
            None => None,
        }
    } else {
        None
    }
}

fn boundary_check(bytes: &[u8], i: usize) -> (r: bool)
    requires
        i <= bytes@.len(),
    ensures
        r == is_boundary(bytes@, i as int),
{
    i == 0 || i == bytes.len() || bytes[i] < 0x80 || bytes[i] >= 0xC0
}

pub fn next_nonspace_position(bytes: &[u8], start: usize, end: usize) -> (r: Option<usize>)
    requires
        valid_utf8(bytes@),
    ensures
        r matches Some(x) ==> next_nonspace_position_spec(bytes@, start as int, end as int) == Some(x as int)
            && start <= x < end && x < bytes@.len() && is_scalar_start(bytes@, x as int),
        r is None ==> next_nonspace_position_spec(bytes@, start as int, end as int) is None,
{
    let n = bytes.len();
    let s = if start < n {
        start
    } else {
        n
    };
    let e = if end < n {
        end
    } else {
        n
    };
    if s <= e && boundary_check(bytes, s) && boundary_check(bytes, e) {
        proof {
            lemma_first_nonspace(bytes@, s as int, e as int);
        }
        find_nonspace(bytes, s, e)
    } else {
        None
    }
}

pub fn previous_nonspace_end(bytes: &[u8], start: usize, end: usize) -> (r: Option<usize>)
    requires
        valid_utf8(bytes@),
    ensures
        r matches Some(x) ==> previous_nonspace_end_spec(bytes@, start as int, end as int) == Some(x as int)
            && start < x <= end && x <= bytes@.len() && is_boundary(bytes@, x as int),
        r is None ==> previous_nonspace_end_spec(bytes@, start as int, end as int) is None,
{
    let n = bytes.len();
    let s = if start < n {
        start
    } else {
        n
    };
    let e = if end < n {
        end
    } else {
        n
    };
    if s <= e && boundary_check(bytes, s) && boundary_check(bytes, e) {
        proof {
            lemma_last_nonspace(bytes@, s as int, e as int);
        }
        match find_last_nonspace(bytes, s, e) {
            Some(x) => {
                proof {
                    lemma_tail_valid(bytes@, x as int);
                    lemma_step_valid(bytes@, x as int);
                    let w = scalar_width_at(bytes@, x as int);
                    if e < x + w {
                        assert(is_continuation_byte(bytes@[e as int]));
                    }
                    if x + w < n {
                        lemma_step_valid(bytes@, x + w);
                    }
                }
                let (_c, w) = decode_scalar_at(bytes, x);
                Some(x + w)
            },
            None => None,
        }
    } else {
        None
    }
}

/// The start of the line holding `position`, a boundary of the text.
pub fn line_start_with_prefix(bytes: &[u8], position: usize) -> (r: usize)
    requires
        position <= bytes@.len(),
    ensures
        r == line_start_at(bytes@, position as int),
        r <= position,
{
    proof {
        lemma_line_start(bytes@, position as int);
    }
    line_start_before(bytes, position)
}

/// One non-blank line: from the line start to the end of its last non-whitespace scalar.
#[derive(Clone, Copy, Debug, Eq, PartialEq, Structural)]
pub struct LineCandidate {
    pub start: usize,
    pub end: usize,
}

/// The candidate that the segment `[start, end)` of one line yields, if it is not blank.
pub open spec fn line_candidate_spec(b: Seq<u8>, start: int, end: int) -> Option<LineCandidate> {
    let ts = match next_nonspace_position_spec(b, start, end) {
        Some(x) => x,
        None => end,
    };
    let te = match previous_nonspace_end_spec(b, start, end) {
        Some(x) => x,
        None => ts,
    };
    if te <= ts {
        None
    } else {
        Some(LineCandidate { start: line_start_at(b, ts) as usize, end: te as usize })
    }
}

fn push_line_candidate(bytes: &[u8], start: usize, end: usize, out: &mut Vec<LineCandidate>)
    requires
        valid_utf8(bytes@),
        start <= end <= bytes@.len(),
        is_boundary(bytes@, start as int),
        is_boundary(bytes@, end as int),
    ensures
        final(out)@ == match line_candidate_spec(bytes@, start as int, end as int) {
            Some(c) => old(out)@.push(c),
            None => old(out)@,
        },
{
    let ts = match next_nonspace_position(bytes, start, end) {
        Some(x) => x,
        None => end,
    };
    let te = match previous_nonspace_end(bytes, start, end) {
        Some(x) => x,
        None => ts,
    };
    if te <= ts {
        return;
    }
    out.push(LineCandidate { start: line_start_with_prefix(bytes, ts), end: te });
}

/// The candidate of `[start, end)` as a list of at most one.
pub open spec fn candidate_list(b: Seq<u8>, start: int, end: int) -> Seq<LineCandidate> {
    match line_candidate_spec(b, start, end) {
        Some(c) => seq![c],
        None => Seq::empty(),
    }
}

/// The line candidates from byte `i` on, the current line starting at `start`.
pub open spec fn line_walk(b: Seq<u8>, start: int, i: int) -> Seq<LineCandidate>
    decreases b.len() - i,
{
    if i < 0 || i >= b.len() {
        candidate_list(b, start, b.len() as int)
    } else if is_line_break(b[i]) {
        candidate_list(b, start, i) + line_walk(b, i + 1, i + 1)
    } else {
        line_walk(b, start, i + 1)
    }
}

/// The non-blank line candidates of `text`, in order.
pub fn line_candidates(text: &str) -> (candidates: Vec<LineCandidate>)
    ensures
        candidates@ == line_walk(text.spec_bytes(), 0, 0),
        forall|k: int|
            0 <= k < candidates@.len() ==> valid_range(
                text.spec_bytes(),
                (#[trigger] candidates@[k]).start as int,
                candidates@[k].end as int,
            ),
        forall|a: int, c: int|
            0 <= a < c < candidates@.len() ==> (#[trigger] candidates@[a]).end < (
            #[trigger] candidates@[c]).start,
{
    let bytes = text.as_bytes();
    let ghost b = bytes@;
    let n = bytes.len();
    let mut candidates: Vec<LineCandidate> = Vec::new();
    let mut start: usize = 0;
    let mut i: usize = 0;
    let ghost whole = line_walk(b, 0, 0);
    while i < n
        invariant
            candidates@ + line_walk(b, start as int, i as int) == whole,
            b == bytes@,
            valid_utf8(b),
            n == b.len(),
            start <= i <= n,
            is_boundary(b, start as int),
            start == 0 || is_line_break(b[start - 1]),
            forall|k: int| start <= k < i ==> !is_line_break(#[trigger] b[k]),
            forall|k: int|
                0 <= k < candidates@.len() ==> valid_range(
                    b,
                    (#[trigger] candidates@[k]).start as int,
                    candidates@[k].end as int,
                ),
            forall|a: int, c: int|
                0 <= a < c < candidates@.len() ==> (#[trigger] candidates@[a]).end < (
                #[trigger] candidates@[c]).start,
            forall|k: int| 0 <= k < candidates@.len() ==> (#[trigger] candidates@[k]).end < start,
        decreases n - i,
    {
        if bytes[i] == 0x0A || bytes[i] == 0x0D {
            proof {
                crate::shape::lemma_break_boundaries(b, i as int);
                crate::shape::lemma_break_boundaries(b, i + 1);
            }
            let ghost before = candidates@;
            push_line_candidate(bytes, start, i, &mut candidates);
            proof {
                lemma_candidate_facts(b, start as int, i as int);
                assert(candidates@ =~= before + candidate_list(b, start as int, i as int));
            }
            start = i + 1;
        }
        i = i + 1;
    }
    proof {
        crate::shape::lemma_break_boundaries(b, n as int);
        lemma_candidate_facts(b, start as int, n as int);
    }
    let ghost before = candidates@;
    push_line_candidate(bytes, start, n, &mut candidates);
    assert(candidates@ =~= before + candidate_list(b, start as int, n as int));
    candidates
}

/// A candidate of the line segment `[start, end)` is a valid range inside it
/// that begins at `start`.
proof fn lemma_candidate_facts(b: Seq<u8>, start: int, end: int)
    requires
        valid_utf8(b),
        b.len() <= usize::MAX,
        0 <= start <= end <= b.len(),
        is_boundary(b, start),
        is_boundary(b, end),
        start == 0 || is_line_break(b[start - 1]),
        forall|k: int| start <= k < end ==> !is_line_break(#[trigger] b[k]),
    ensures
        line_candidate_spec(b, start, end) matches Some(c) ==> c.start == start && c.end <= end
            && valid_range(b, c.start as int, c.end as int),
{
    match line_candidate_spec(b, start, end) {
        Some(c) => {
            lemma_first_nonspace(b, start, end);
            lemma_last_nonspace(b, start, end);
            assert(last_nonspace(b, start, end) is Some);
            let q = last_nonspace(b, start, end).unwrap();
            lemma_tail_valid(b, q);
            lemma_step_valid(b, q);
            let w = scalar_width_at(b, q);
            if end < q + w {
                assert(is_continuation_byte(b[end]));
            }
            if q + w < b.len() {
                lemma_step_valid(b, q + w);
            }
            assert(c.end == q + w);
            assert(first_nonspace(b, start, end) is Some);
            let ts = first_nonspace(b, start, end).unwrap();
            lemma_line_start_within(b, start, ts);
            assert(is_boundary(b, c.end as int));
        },
        None => {},
    }
}

/// Inside a line segment that starts at a line start, every offset has that line start.
proof fn lemma_line_start_within(b: Seq<u8>, start: int, i: int)
    requires
        0 <= start <= i <= b.len(),
        start == 0 || is_line_break(b[start - 1]),
        forall|k: int| start <= k < i ==> !is_line_break(#[trigger] b[k]),
    ensures
        line_start_at(b, i) == start,
    decreases i - start,
{
    if i > start {
        lemma_line_start_within(b, start, i - 1);
    }
}

} // verus!

verus! {

/// Orders used to sort spans: lexicographic on the named fields, the label
/// taken by its nesting rank.
#[derive(Clone, Copy, Debug, PartialEq, Eq, Structural)]
pub enum SpanOrder {
    StartEndPriority,
    StartPriorityEnd,
    StartEnd,
}

pub open spec fn lex3_le(a0: int, a1: int, a2: int, b0: int, b1: int, b2: int) -> bool {
    a0 < b0 || (a0 == b0 && (a1 < b1 || (a1 == b1 && a2 <= b2)))
}

/// `a` sorts no later than `b` in order `o`.
pub open spec fn span_le(o: SpanOrder, a: AnnotationSpan, b: AnnotationSpan) -> bool {
    match o {
        SpanOrder::StartEndPriority => lex3_le(
            a.start as int,
            a.end as int,
            priority(a.label),
            b.start as int,
            b.end as int,
            priority(b.label),
        ),
        SpanOrder::StartPriorityEnd => lex3_le(
            a.start as int,
            priority(a.label),
            a.end as int,
            b.start as int,
            priority(b.label),
            b.end as int,
        ),
        SpanOrder::StartEnd => lex3_le(a.start as int, a.end as int, 0, b.start as int, b.end as int, 0),
    }
}

/// `s` is sorted by order `o`.
pub open spec fn sorted_spans(o: SpanOrder, s: Seq<AnnotationSpan>) -> bool {
    forall|i: int, j: int| 0 <= i < j < s.len() ==> span_le(o, #[trigger] s[i], #[trigger] s[j])
}

fn span_lt(o: SpanOrder, a: &AnnotationSpan, b: &AnnotationSpan) -> (r: bool)
    ensures
        r == !span_le(o, *b, *a),
{
    let pa = label_priority(a.label);
    let pb = label_priority(b.label);
    match o {
        SpanOrder::StartEndPriority => a.start < b.start || (a.start == b.start && (a.end < b.end
            || (a.end == b.end && pa < pb))),
        SpanOrder::StartPriorityEnd => a.start < b.start || (a.start == b.start && (pa < pb || (pa
            == pb && a.end < b.end))),
        SpanOrder::StartEnd => a.start < b.start || (a.start == b.start && a.end < b.end),
    }
}

/// The first index at or after `p` whose element of `t` sorts strictly after
/// `x` in order `o`, or the length of `t`.
pub open spec fn insertion_point(o: SpanOrder, t: Seq<AnnotationSpan>, x: AnnotationSpan, p: int) -> int
    decreases t.len() - p,
{
    if p >= t.len() {
        t.len() as int
    } else if !span_le(o, t[p], x) {
        p
    } else {
        insertion_point(o, t, x, p + 1)
    }
}

/// The stable sort of `s` by order `o`: each element, in turn, goes after
/// every earlier one that sorts no later than it.
pub open spec fn stable_sorted(o: SpanOrder, s: Seq<AnnotationSpan>) -> Seq<AnnotationSpan>
    decreases s.len(),
{
    if s.len() == 0 {
        s
    } else {
        let t = stable_sorted(o, s.drop_last());
        t.insert(insertion_point(o, t, s.last(), 0), s.last())
    }
}

proof fn lemma_insertion_point(o: SpanOrder, t: Seq<AnnotationSpan>, x: AnnotationSpan, p: int, q: int)
    requires
        0 <= p <= q <= t.len(),
        forall|j: int| p <= j < q ==> span_le(o, #[trigger] t[j], x),
        q == t.len() || !span_le(o, t[q], x),
    ensures
        insertion_point(o, t, x, p) == q,
    decreases q - p,
{
    if p < q {
        lemma_insertion_point(o, t, x, p + 1, q);
    }
}

/// Sorts `spans` by order `o`, keeping equal keys in their order.
pub fn sort_spans(spans: Vec<AnnotationSpan>, o: SpanOrder) -> (sorted: Vec<AnnotationSpan>)
    ensures
        sorted@ == stable_sorted(o, spans@),
        sorted_spans(o, sorted@),
        sorted@.to_multiset() == spans@.to_multiset(),
        sorted@.len() == spans@.len(),
{
    broadcast use vstd::seq_lib::group_to_multiset_ensures;

    let n = spans.len();
    let mut out: Vec<AnnotationSpan> = Vec::new();
    let mut i: usize = 0;
    while i < n
        invariant
            n == spans@.len(),
            i <= n,
            sorted_spans(o, out@),
            out@ == stable_sorted(o, spans@.subrange(0, i as int)),
            out@.to_multiset() == spans@.subrange(0, i as int).to_multiset(),
            out@.len() == i,
        decreases n - i,
    {
        let x = spans[i];
        let mut pos: usize = 0;
        while pos < out.len() && !span_lt(o, &x, &out[pos])
            invariant
                pos <= out@.len(),
                forall|j: int| 0 <= j < pos ==> span_le(o, #[trigger] out@[j], x),
            decreases out@.len() - pos,
        {
            pos = pos + 1;
        }
        let ghost before = out@;
        proof {
            lemma_insertion_point(o, before, x, 0, pos as int);
            assert(spans@.subrange(0, i + 1).drop_last() =~= spans@.subrange(0, i as int));
        }
        out.insert(pos, x);
        proof {
            assert(spans@.subrange(0, i + 1) =~= spans@.subrange(0, i as int).push(x));
            assert(out@ == before.insert(pos as int, x));
            vstd::seq_lib::to_multiset_insert(before, pos as int, x);
            vstd::seq_lib::to_multiset_build(spans@.subrange(0, i as int), x);
            assert forall|a: int, b: int| 0 <= a < b < out@.len() implies span_le(
                o,
                #[trigger] out@[a],
                #[trigger] out@[b],
            ) by {
                if b < pos {
                    assert(out@[a] == before[a] && out@[b] == before[b]);
                } else if b == pos {
                    assert(out@[a] == before[a]);
                } else if a == pos {
                    assert(out@[b] == before[b - 1]);
                    assert(span_le(o, before[pos as int], before[b - 1]));
                } else if a < pos {
                    assert(out@[a] == before[a] && out@[b] == before[b - 1]);
                } else {
                    assert(out@[a] == before[a - 1] && out@[b] == before[b - 1]);
                }
            }
        }
        i = i + 1;
    }
    assert(spans@.subrange(0, n as int) =~= spans@);
    out
}

} // verus!

verus! {

/// The lower-cased bytes of `b` from `t` begin with `pat`, inside `[t, e)`.
pub open spec fn lower_prefix(b: Seq<u8>, t: int, e: int, pat: Seq<u8>) -> bool {
    &&& t + pat.len() <= e
    &&& forall|k: int| 0 <= k < pat.len() ==> crate::textops::lower_ascii(#[trigger] b[t + k]) == pat[k]
}

fn matches_lower_at(bytes: &[u8], t: usize, e: usize, pat: &[u8]) -> (r: bool)
    requires
        t <= e <= bytes@.len(),
    ensures
        r == lower_prefix(bytes@, t as int, e as int, pat@),
{
    if pat.len() > e - t {
        return false;
    }
    let mut k: usize = 0;
    while k < pat.len()
        invariant
            t + pat@.len() <= e <= bytes@.len(),
            k <= pat@.len(),
            forall|j: int| 0 <= j < k ==> crate::textops::lower_ascii(#[trigger] bytes@[t + j]) == pat@[j],
        decreases pat@.len() - k,
    {
        let x = bytes[t + k];
        let lowered: u8 = if x >= 0x41 && x <= 0x5A {
            x + 32
        } else {
            x
        };
        if lowered != pat[k] {
            return false;
        }
        k = k + 1;
    }
    true
}

pub open spec fn case_space() -> Seq<u8> {
    seq![0x63u8, 0x61u8, 0x73u8, 0x65u8, 0x20u8]
}

pub open spec fn case_colon() -> Seq<u8> {
    seq![0x63u8, 0x61u8, 0x73u8, 0x65u8, 0x3Au8]
}

pub open spec fn docket() -> Seq<u8> {
    seq![0x64u8, 0x6Fu8, 0x63u8, 0x6Bu8, 0x65u8, 0x74u8]
}

pub open spec fn date_colon() -> Seq<u8> {
    seq![0x64u8, 0x61u8, 0x74u8, 0x65u8, 0x3Au8]
}

pub open spec fn number_abbrev() -> Seq<u8> {
    seq![0x6Eu8, 0x6Fu8, 0x2Eu8]
}

/// Metadata confidence (thousandths) of a line inside the metadata zone.
pub open spec fn metadata_score_spec(b: Seq<u8>, line: LineCandidate, zone_end: int) -> Option<u32> {
    let s = line.start as int;
    let e = line.end as int;
    let t = trim_start_at(b, s, e);
    if s > zone_end {
        None
    } else if metadata_colon(b, s, e) {
        Some(960)
    } else if lower_prefix(b, t, e, case_space()) || lower_prefix(b, t, e, case_colon())
        || lower_prefix(b, t, e, docket()) || lower_prefix(b, t, e, date_colon()) || lower_prefix(
        b,
        t,
        e,
        number_abbrev(),
    ) {
        Some(920)
    } else {
        None
    }
}

/// Section confidence (thousandths) of the line `[s, e)`.
pub open spec fn section_score_spec(b: Seq<u8>, s: int, e: int) -> Option<u32> {
    let t = trim_start_at(b, s, e);
    if t < e && b[t] == 0x23 {
        Some(980)
    } else if e - t <= 80 && !(e > t && b[e - 1] == 0x2E) && count_in(
        b,
        t,
        e,
        |x: u8| crate::features::is_ascii_alpha_byte(x),
    ) > 0 && count_in(b, t, e, |x: u8| crate::byteset::is_ascii_lower_byte(x)) == 0 {
        Some(860)
    } else {
        None
    }
}

/// List-item confidence (thousandths) of the line `[s, e)`.
pub open spec fn list_item_score_spec(b: Seq<u8>, s: int, e: int) -> Option<u32> {
    let t = trim_start_at(b, s, e);
    let d = digit_run(b, t, e);
    if (t < e && (b[t] == 0x2D || b[t] == 0x2A)) || (t + 2 < e && b[t] == 0xE2 && b[t + 1] == 0x80
        && b[t + 2] == 0xA2) {
        Some(980)
    } else if d > 0 && t + d < e && (b[t + d] == 0x2E || b[t + d] == 0x29) {
        Some(940)
    } else {
        None
    }
}

/// Dialogue confidence (thousandths) of the line `[s, e)`.
pub open spec fn dialogue_score_spec(b: Seq<u8>, s: int, e: int) -> Option<u32> {
    let t = trim_start_at(b, s, e);
    if (t < e && (b[t] == 0x22 || b[t] == 0x27)) || (t + 2 < e && b[t] == 0xE2 && b[t + 1] == 0x80
        && (b[t + 2] == 0x9C || b[t + 2] == 0x98)) {
        Some(910)
    } else if crate::linefeat::kind_count(b, t, e, crate::linefeat::ScalarKind::DoubleQuote) >= 2 {
        Some(820)
    } else {
        None
    }
}

fn metadata_score(bytes: &[u8], line: LineCandidate, zone_end: usize) -> (r: Option<u32>)
    requires
        valid_utf8(bytes@),
        line.start <= line.end <= bytes@.len(),
        is_boundary(bytes@, line.end as int),
    ensures
        r == metadata_score_spec(bytes@, line, zone_end as int),
{
    if line.start > zone_end {
        return None;
    }
    if has_metadata_colon(bytes, line.start, line.end) {
        return Some(960);
    }
    let (t, _) = trim_bounds(bytes, line.start, line.end);
    let e = line.end;
    let case_space_pat = vec![0x63u8, 0x61u8, 0x73u8, 0x65u8, 0x20u8];
    let case_colon_pat = vec![0x63u8, 0x61u8, 0x73u8, 0x65u8, 0x3Au8];
    let docket_pat = vec![0x64u8, 0x6Fu8, 0x63u8, 0x6Bu8, 0x65u8, 0x74u8];
    let date_pat = vec![0x64u8, 0x61u8, 0x74u8, 0x65u8, 0x3Au8];
    let number_pat = vec![0x6Eu8, 0x6Fu8, 0x2Eu8];
    assert(case_space_pat@ =~= case_space());
    assert(case_colon_pat@ =~= case_colon());
    assert(docket_pat@ =~= docket());
    assert(date_pat@ =~= date_colon());
    assert(number_pat@ =~= number_abbrev());
    if matches_lower_at(bytes, t, e, case_space_pat.as_slice()) || matches_lower_at(
        bytes,
        t,
        e,
        case_colon_pat.as_slice(),
    ) || matches_lower_at(bytes, t, e, docket_pat.as_slice()) || matches_lower_at(
        bytes,
        t,
        e,
        date_pat.as_slice(),
    ) || matches_lower_at(bytes, t, e, number_pat.as_slice()) {
        Some(920)
    } else {
        None
    }
}

fn section_score(bytes: &[u8], s: usize, e: usize) -> (r: Option<u32>)
    requires
        valid_utf8(bytes@),
        s <= e <= bytes@.len(),
        is_boundary(bytes@, e as int),
    ensures
        r == section_score_spec(bytes@, s as int, e as int),
{
    let (t, _) = trim_bounds(bytes, s, e);
    if t < e && bytes[t] == 0x23 {
        return Some(980);
    }
    if e - t > 80 || (e > t && bytes[e - 1] == 0x2E) {
        return None;
    }
    let ghost pa = |x: u8| crate::features::is_ascii_alpha_byte(x);
    let ghost pl = |x: u8| crate::byteset::is_ascii_lower_byte(x);
    let mut alpha: usize = 0;
    let mut lower: usize = 0;
    let mut k = t;
    while k < e
        invariant
            t <= k <= e <= bytes@.len(),
            pa == (|x: u8| crate::features::is_ascii_alpha_byte(x)),
            pl == (|x: u8| crate::byteset::is_ascii_lower_byte(x)),
            alpha == count_in(bytes@, t as int, k as int, pa),
            lower == count_in(bytes@, t as int, k as int, pl),
            alpha <= k - t,
            lower <= k - t,
        decreases e - k,
    {
        let c = bytes[k];
        assert(pa(c) == crate::features::is_ascii_alpha_byte(c));
        assert(pl(c) == crate::byteset::is_ascii_lower_byte(c));
        if (c >= 0x41 && c <= 0x5A) || (c >= 0x61 && c <= 0x7A) {
            alpha = alpha + 1;
        }
        if c >= 0x61 && c <= 0x7A {
            lower = lower + 1;
        }
        k = k + 1;
    }
    if alpha > 0 && lower == 0 {
        Some(860)
    } else {
        None
    }
}

fn list_item_score(bytes: &[u8], s: usize, e: usize) -> (r: Option<u32>)
    requires
        valid_utf8(bytes@),
        s <= e <= bytes@.len(),
        is_boundary(bytes@, e as int),
    ensures
        r == list_item_score_spec(bytes@, s as int, e as int),
{
    let (t, _) = trim_bounds(bytes, s, e);
    if (t < e && (bytes[t] == 0x2D || bytes[t] == 0x2A)) || (e - t > 2 && bytes[t] == 0xE2
        && bytes[t + 1] == 0x80 && bytes[t + 2] == 0xA2) {
        return Some(980);
    }
    let mut d: usize = 0;
    while t + d < e && bytes[t + d] >= 0x30 && bytes[t + d] <= 0x39
        invariant
            t + d <= e <= bytes@.len(),
            digit_run(bytes@, t as int, e as int) == d + digit_run(bytes@, t + d, e as int),
        decreases e - t - d,
    {
        d = d + 1;
    }
    if d > 0 && t + d < e && (bytes[t + d] == 0x2E || bytes[t + d] == 0x29) {
        Some(940)
    } else {
        None
    }
}

fn dialogue_score(bytes: &[u8], s: usize, e: usize) -> (r: Option<u32>)
    requires
        valid_utf8(bytes@),
        s <= e <= bytes@.len(),
        is_boundary(bytes@, e as int),
    ensures
        r == dialogue_score_spec(bytes@, s as int, e as int),
{
    let (t, _) = trim_bounds(bytes, s, e);
    if (t < e && (bytes[t] == 0x22 || bytes[t] == 0x27)) || (e - t > 2 && bytes[t] == 0xE2
        && bytes[t + 1] == 0x80 && (bytes[t + 2] == 0x9C || bytes[t + 2] == 0x98)) {
        return Some(910);
    }
    if crate::linefeat::count_kind(bytes, t, e, crate::linefeat::ScalarKind::DoubleQuote) >= 2 {
        Some(820)
    } else {
        None
    }
}

/// `pat` occurs in `b` at offset `i`.
pub open spec fn occurs_at(b: Seq<u8>, i: int, pat: Seq<u8>) -> bool {
    &&& 0 <= i
    &&& i + pat.len() <= b.len()
    &&& forall|k: int| 0 <= k < pat.len() ==> #[trigger] b[i + k] == pat[k]
}

/// The first offset at or after `i` where `pat` occurs.
pub open spec fn find_from(b: Seq<u8>, i: int, pat: Seq<u8>) -> Option<int>
    decreases b.len() - i,
{
    if i < 0 || i + pat.len() > b.len() {
        None
    } else if occurs_at(b, i, pat) {
        Some(i)
    } else {
        find_from(b, i + 1, pat)
    }
}

fn find_pattern(bytes: &[u8], pat: &[u8]) -> (r: Option<usize>)
    ensures
        r matches Some(x) ==> find_from(bytes@, 0, pat@) == Some(x as int),
        r is None ==> find_from(bytes@, 0, pat@) is None,
{
    let n = bytes.len();
    let m = pat.len();
    if m > n {
        return None;
    }
    let mut i: usize = 0;
    while i <= n - m
        invariant
            m <= n,
            n == bytes@.len(),
            m == pat@.len(),
            i <= n - m + 1,
            find_from(bytes@, 0, pat@) == find_from(bytes@, i as int, pat@),
        decreases n - i,
    {
        let mut k: usize = 0;
        let mut ok = true;
        while k < m
            invariant
                i + m <= n == bytes@.len(),
                m == pat@.len(),
                k <= m,
                ok == forall|j: int| 0 <= j < k ==> #[trigger] bytes@[i + j] == pat@[j],
            decreases m - k,
        {
            if bytes[i + k] != pat[k] {
                ok = false;
            }
            k = k + 1;
        }
        if ok {
            return Some(i);
        }
        i = i + 1;
    }
    None
}

pub open spec fn blank_line() -> Seq<u8> {
    seq![0x0Au8, 0x0Au8]
}

pub open spec fn crlf_blank_line() -> Seq<u8> {
    seq![0x0Du8, 0x0Au8, 0x0Du8, 0x0Au8]
}

/// The earlier of the first `\n\n` and the first `\r\n\r\n`.
pub open spec fn first_blank_line_spec(b: Seq<u8>) -> Option<int> {
    match (find_from(b, 0, blank_line()), find_from(b, 0, crlf_blank_line())) {
        (Some(a), Some(c)) => Some(if a < c {
            a
        } else {
            c
        }),
        (Some(a), None) => Some(a),
        (None, Some(c)) => Some(c),
        (None, None) => None,
    }
}

pub fn first_blank_line_start(text: &str) -> (r: Option<usize>)
    ensures
        r matches Some(x) ==> first_blank_line_spec(text.spec_bytes()) == Some(x as int),
        r is None ==> first_blank_line_spec(text.spec_bytes()) is None,
{
    let bytes = text.as_bytes();
    let lf = vec![0x0Au8, 0x0Au8];
    let crlf = vec![0x0Du8, 0x0Au8, 0x0Du8, 0x0Au8];
    assert(lf@ =~= blank_line());
    assert(crlf@ =~= crlf_blank_line());
    match (find_pattern(bytes, lf.as_slice()), find_pattern(bytes, crlf.as_slice())) {
        (Some(a), Some(c)) => Some(if a < c {
            a
        } else {
            c
        }),
        (Some(a), None) => Some(a),
        (None, Some(c)) => Some(c),
        (None, None) => None,
    }
}

} // verus!

verus! {

/// The labels of line-level structure.
pub open spec fn structural_label(label: Label) -> bool {
    label == Label::Metadata || label == Label::Section || label == Label::ListItem || label
        == Label::Dialogue
}

pub open spec fn ranges_overlap_spec(a_start: int, a_end: int, b_start: int, b_end: int) -> bool {
    a_start < b_end && b_start < a_end
}

pub fn ranges_overlap(a_start: usize, a_end: usize, b_start: usize, b_end: usize) -> (r: bool)
    ensures
        r == ranges_overlap_spec(a_start as int, a_end as int, b_start as int, b_end as int),
{
    a_start < b_end && b_start < a_end
}

/// `span` displaces the overlapping `prior`: a clearly higher score (more than
/// 50 thousandths), or a score within 50 thousandths and an outer label.
pub open spec fn displaces(span: AnnotationSpan, prior: AnnotationSpan) -> bool {
    span.score > prior.score + 50 || ((if span.score >= prior.score {
        span.score - prior.score
    } else {
        prior.score - span.score
    }) <= 50 && priority(span.label) < priority(prior.label))
}

fn displaces_exec(span: &AnnotationSpan, prior: &AnnotationSpan) -> (r: bool)
    ensures
        r == displaces(*span, *prior),
{
    let diff = if span.score >= prior.score {
        span.score - prior.score
    } else {
        prior.score - span.score
    };
    (span.score as u64) > (prior.score as u64) + 50 || (diff <= 50 && label_priority(span.label)
        < label_priority(prior.label))
}

/// The indices of `active` whose span in `resolved` still ends after `start`, in order.
pub open spec fn retained(resolved: Seq<AnnotationSpan>, active: Seq<usize>, start: usize) -> Seq<usize>
    decreases active.len(),
{
    if active.len() == 0 {
        Seq::empty()
    } else {
        let r = retained(resolved, active.drop_last(), start);
        if resolved[active.last() as int].end > start {
            r.push(active.last())
        } else {
            r
        }
    }
}

/// The first index of `active[a..]` whose span in `resolved` overlaps `span`.
pub open spec fn first_active_overlap(
    resolved: Seq<AnnotationSpan>,
    active: Seq<usize>,
    span: AnnotationSpan,
    a: int,
) -> Option<usize>
    decreases active.len() - a,
{
    if a < 0 || a >= active.len() {
        None
    } else if ranges_overlap_spec(
        span.start as int,
        span.end as int,
        resolved[active[a] as int].start as int,
        resolved[active[a] as int].end as int,
    ) {
        Some(active[a])
    } else {
        first_active_overlap(resolved, active, span, a + 1)
    }
}

/// Resolution of the spans `ordered[i..]` given the spans kept so far and the
/// indices of those still open: a span that overlaps an open one replaces it
/// when it displaces it and is dropped otherwise; any other span is kept and opens.
pub open spec fn resolve_walk(
    ordered: Seq<AnnotationSpan>,
    i: int,
    resolved: Seq<AnnotationSpan>,
    active: Seq<usize>,
) -> Seq<AnnotationSpan>
    decreases ordered.len() - i,
{
    if i < 0 || i >= ordered.len() {
        resolved
    } else {
        let span = ordered[i];
        let open = retained(resolved, active, span.start);
        match first_active_overlap(resolved, open, span, 0) {
            Some(idx) => resolve_walk(
                ordered,
                i + 1,
                if displaces(span, resolved[idx as int]) {
                    resolved.update(idx as int, span)
                } else {
                    resolved
                },
                open,
            ),
            None => resolve_walk(ordered, i + 1, resolved.push(span), open.push(resolved.len() as usize)),
        }
    }
}

/// `result` is `input` resolved: `input` stably sorted by start, rank and
/// end, walked by `resolve_walk`, and the spans kept stably sorted by start
/// and end.
pub open spec fn resolves_to(input: Seq<AnnotationSpan>, result: Seq<AnnotationSpan>) -> bool {
    result == stable_sorted(
        SpanOrder::StartEnd,
        resolve_walk(stable_sorted(SpanOrder::StartPriorityEnd, input), 0, Seq::empty(), Seq::empty()),
    )
}

/// Keeps one of each group of overlapping spans, sorted by start and end: each
/// span, in order of start, rank and end, either replaces the first still-open
/// span it overlaps (when it displaces it), is dropped, or opens a new span.
pub fn resolve_overlapping_semantic_spans(spans: Vec<AnnotationSpan>) -> (resolved: Vec<AnnotationSpan>)
    ensures
        resolves_to(spans@, resolved@),
        sorted_spans(SpanOrder::StartEnd, resolved@),
        forall|k: int| 0 <= k < resolved@.len() ==> spans@.contains(#[trigger] resolved@[k]),
{
    broadcast use vstd::seq_lib::group_to_multiset_ensures;

    let ordered = sort_spans(spans, SpanOrder::StartPriorityEnd);
    let ghost input = spans@;
    let ghost whole = resolve_walk(ordered@, 0, Seq::empty(), Seq::empty());
    let n = ordered.len();
    let mut resolved: Vec<AnnotationSpan> = Vec::new();
    let mut active: Vec<usize> = Vec::new();
    let mut i: usize = 0;
    while i < n
        invariant
            n == ordered@.len(),
            i <= n,
            ordered@.to_multiset() == input.to_multiset(),
            whole == resolve_walk(ordered@, 0, Seq::empty(), Seq::empty()),
            resolve_walk(ordered@, i as int, resolved@, active@) == whole,
            forall|k: int| 0 <= k < resolved@.len() ==> input.contains(#[trigger] resolved@[k]),
            forall|k: int| 0 <= k < active@.len() ==> #[trigger] active@[k] < resolved@.len(),
        decreases n - i,
    {
        let span = ordered[i];
        proof {
            assert(ordered@[i as int] == span);
            vstd::seq_lib::to_multiset_contains(ordered@, span);
            vstd::seq_lib::to_multiset_contains(input, span);
        }
        let ghost res0 = resolved@;
        let ghost act0 = active@;
        let mut kept: Vec<usize> = Vec::new();
        let mut a: usize = 0;
        while a < active.len()
            invariant
                a <= active@.len(),
                active@ == act0,
                resolved@ == res0,
                forall|k: int| 0 <= k < active@.len() ==> #[trigger] active@[k] < resolved@.len(),
                kept@ == retained(res0, act0.subrange(0, a as int), span.start),
                forall|k: int| 0 <= k < kept@.len() ==> #[trigger] kept@[k] < resolved@.len(),
            decreases active@.len() - a,
        {
            let idx = active[a];
            assert(act0.subrange(0, a + 1).drop_last() =~= act0.subrange(0, a as int));
            if resolved[idx].end > span.start {
                kept.push(idx);
            }
            a = a + 1;
        }
        assert(act0.subrange(0, act0.len() as int) =~= act0);
        active = kept;
        let ghost open = active@;
        let mut found: Option<usize> = None;
        let mut a: usize = 0;
        while a < active.len() && found.is_none()
            invariant
                a <= active@.len(),
                active@ == open,
                resolved@ == res0,
                forall|k: int| 0 <= k < active@.len() ==> #[trigger] active@[k] < resolved@.len(),
                found matches Some(x) ==> x < resolved@.len() && first_active_overlap(res0, open, span, 0)
                    == Some(x),
                found is None ==> first_active_overlap(res0, open, span, 0) == first_active_overlap(
                    res0,
                    open,
                    span,
                    a as int,
                ),
            decreases active@.len() - a,
        {
            let idx = active[a];
            let prior = resolved[idx];
            if ranges_overlap(span.start, span.end, prior.start, prior.end) {
                found = Some(idx);
            }
            a = a + 1;
        }
        match found {
            Some(existing) => {
                let prior = resolved[existing];
                if displaces_exec(&span, &prior) {
                    resolved.set(existing, span);
                }
                proof {
                    assert forall|k: int| 0 <= k < resolved@.len() implies input.contains(#[trigger] resolved@[k]) by {
                        if k != existing {
                            assert(resolved@[k] == res0[k]);
                        }
                    }
                }
            },
            None => {
                active.push(resolved.len());
                resolved.push(span);
                proof {
                    assert forall|k: int| 0 <= k < resolved@.len() implies input.contains(#[trigger] resolved@[k]) by {
                        if k < res0.len() {
                            assert(resolved@[k] == res0[k]);
                        }
                    }
                }
            },
        }
        i = i + 1;
    }
    let result = sort_spans(resolved, SpanOrder::StartEnd);
    proof {
        assert forall|k: int| 0 <= k < result@.len() implies input.contains(#[trigger] result@[k]) by {
            vstd::seq_lib::to_multiset_contains(result@, result@[k]);
            vstd::seq_lib::to_multiset_contains(resolved@, result@[k]);
            let j = choose|j: int| 0 <= j < resolved@.len() && resolved@[j] == result@[k];
            assert(input.contains(resolved@[j]));
        }
        assert(sorted_spans(SpanOrder::StartPriorityEnd, ordered@));
    }
    result
}

/// The structural span that line `line` yields under `cfg`: the first of
/// metadata, section, list item and dialogue that is enabled and scores.
pub open spec fn structural_candidate(cfg: SegmenterConfig, b: Seq<u8>, line: LineCandidate, zone_end: int) -> Option<
    AnnotationSpan,
> {
    let s = line.start;
    let e = line.end;
    if cfg.include_metadata && metadata_score_spec(b, line, zone_end) is Some {
        Some(AnnotationSpan { label: Label::Metadata, start: s, end: e, score: metadata_score_spec(b, line, zone_end)->0 })
    } else if cfg.include_sections && section_score_spec(b, s as int, e as int) is Some {
        Some(AnnotationSpan { label: Label::Section, start: s, end: e, score: section_score_spec(b, s as int, e as int)->0 })
    } else if cfg.include_list_items && list_item_score_spec(b, s as int, e as int) is Some {
        Some(AnnotationSpan { label: Label::ListItem, start: s, end: e, score: list_item_score_spec(b, s as int, e as int)->0 })
    } else if cfg.include_dialogue && dialogue_score_spec(b, s as int, e as int) is Some {
        Some(AnnotationSpan { label: Label::Dialogue, start: s, end: e, score: dialogue_score_spec(b, s as int, e as int)->0 })
    } else {
        None
    }
}

/// The open span, if any, as a list.
pub open spec fn flush(current: Option<AnnotationSpan>) -> Seq<AnnotationSpan> {
    match current {
        Some(c) => seq![c],
        None => Seq::empty(),
    }
}

/// How far after an open metadata span the next one may start and still join it.
pub open spec fn merge_limit(end: usize) -> int {
    if end <= usize::MAX - 2 {
        end + 2
    } else {
        usize::MAX as int
    }
}

/// The structural spans from line `i` on, with `current` the metadata span
/// still open: metadata lines at most two bytes apart join one span (with the
/// higher score); any other span, or a line with none, closes it.
pub open spec fn structural_walk(
    cfg: SegmenterConfig,
    b: Seq<u8>,
    lines: Seq<LineCandidate>,
    zone_end: int,
    i: int,
    current: Option<AnnotationSpan>,
) -> Seq<AnnotationSpan>
    decreases lines.len() - i,
{
    if i < 0 || i >= lines.len() {
        flush(current)
    } else {
        match structural_candidate(cfg, b, lines[i], zone_end) {
            None => flush(current) + structural_walk(cfg, b, lines, zone_end, i + 1, None),
            Some(span) => if span.label == Label::Metadata {
                match current {
                    Some(c) => if span.start <= merge_limit(c.end) {
                        structural_walk(
                            cfg,
                            b,
                            lines,
                            zone_end,
                            i + 1,
                            Some(
                                AnnotationSpan {
                                    label: Label::Metadata,
                                    start: c.start,
                                    end: span.end,
                                    score: if c.score >= span.score {
                                        c.score
                                    } else {
                                        span.score
                                    },
                                },
                            ),
                        )
                    } else {
                        seq![c] + structural_walk(cfg, b, lines, zone_end, i + 1, Some(span))
                    },
                    None => structural_walk(cfg, b, lines, zone_end, i + 1, Some(span)),
                }
            } else {
                flush(current) + seq![span] + structural_walk(cfg, b, lines, zone_end, i + 1, None)
            },
        }
    }
}

/// The line spans of `b` before overlapping ones are resolved.
pub open spec fn structural_candidates(cfg: SegmenterConfig, b: Seq<u8>) -> Seq<AnnotationSpan> {
    let zone_end = match first_blank_line_spec(b) {
        Some(x) => x,
        None => 0,
    };
    structural_walk(cfg, b, line_walk(b, 0, 0), zone_end, 0, None)
}

/// Production combined segmenter: structural line spans, paragraphs and
/// sentences, merged into one nested standoff annotation.
#[derive(Clone, Debug)]
pub struct CombinedSegmenter {
    config: SegmenterConfig,
}

impl CombinedSegmenter {
    pub closed spec fn spec_config(&self) -> SegmenterConfig {
        self.config
    }

    pub fn new(config: SegmenterConfig) -> (segmenter: Self)
        ensures
            segmenter.spec_config() == config,
    {
        CombinedSegmenter { config }
    }

    pub fn config(&self) -> (config: &SegmenterConfig)
        ensures
            *config == self.spec_config(),
    {
        &self.config
    }

    /// Metadata, section, list-item and dialogue spans of the lines of `text`.
    pub fn structural_spans(&self, text: &str) -> (spans: Vec<AnnotationSpan>)
        ensures
            resolves_to(structural_candidates(self.spec_config(), text.spec_bytes()), spans@),
            forall|k: int|
                0 <= k < spans@.len() ==> structural_candidates(self.spec_config(), text.spec_bytes()).contains(
                    #[trigger] spans@[k],
                ),
            sorted_spans(SpanOrder::StartEnd, spans@),
            forall|k: int|
                0 <= k < spans@.len() ==> valid_range(
                    text.spec_bytes(),
                    (#[trigger] spans@[k]).start as int,
                    spans@[k].end as int,
                ) && structural_label(spans@[k].label),
    {
        let bytes = text.as_bytes();
        let ghost b = bytes@;
        let lines = line_candidates(text);
        let zone_end = match first_blank_line_start(text) {
            Some(x) => x,
            None => 0,
        };
        let mut spans: Vec<AnnotationSpan> = Vec::new();
        let mut current: Option<AnnotationSpan> = None;
        let mut i: usize = 0;
        let ghost whole = structural_candidates(self.config, b);
        while i < lines.len()
            invariant
                spans@ + structural_walk(self.config, b, lines@, zone_end as int, i as int, current) == whole,
                b == bytes@,
                valid_utf8(b),
                i <= lines@.len(),
                forall|k: int|
                    0 <= k < lines@.len() ==> valid_range(
                        b,
                        (#[trigger] lines@[k]).start as int,
                        lines@[k].end as int,
                    ),
                forall|k: int|
                    0 <= k < spans@.len() ==> valid_range(
                        b,
                        (#[trigger] spans@[k]).start as int,
                        spans@[k].end as int,
                    ) && structural_label(spans@[k].label),
                forall|a: int, c: int|
                    0 <= a < c < lines@.len() ==> (#[trigger] lines@[a]).end < (
                    #[trigger] lines@[c]).start,
                current matches Some(c) ==> valid_range(b, c.start as int, c.end as int)
                    && c.label == Label::Metadata && (i < lines@.len() ==> c.end < lines@[i as int].start),
            decreases lines@.len() - i,
        {
            let line = lines[i];
            let s = line.start;
            let e = line.end;
            let ghost before = spans@;
            let ghost cur_before = current;
            proof {
                if i + 1 < lines@.len() {
                    assert(lines@[i as int].end < lines@[i + 1].start);
                }
            }
            let mut candidate: Option<AnnotationSpan> = None;
            if self.config.include_metadata {
                if let Some(score) = metadata_score(bytes, line, zone_end) {
                    candidate = Some(AnnotationSpan::new(Label::Metadata, s, e, score));
                }
            }
            if candidate.is_none() && self.config.include_sections {
                if let Some(score) = section_score(bytes, s, e) {
                    candidate = Some(AnnotationSpan::new(Label::Section, s, e, score));
                }
            }
            if candidate.is_none() && self.config.include_list_items {
                if let Some(score) = list_item_score(bytes, s, e) {
                    candidate = Some(AnnotationSpan::new(Label::ListItem, s, e, score));
                }
            }
            if candidate.is_none() && self.config.include_dialogue {
                if let Some(score) = dialogue_score(bytes, s, e) {
                    candidate = Some(AnnotationSpan::new(Label::Dialogue, s, e, score));
                }
            }
            match candidate {
                None => {
                    if let Some(c) = current {
                        spans.push(c);
                    }
                    current = None;
                },
                Some(span) => {
                    if span.label == Label::Metadata {
                        let mut merged = false;
                        if let Some(c) = current {
                            let limit = if c.end <= usize::MAX - 2 {
                                c.end + 2
                            } else {
                                usize::MAX
                            };
                            if span.start <= limit {
                                let score = if c.score >= span.score {
                                    c.score
                                } else {
                                    span.score
                                };
                                current = Some(AnnotationSpan::new(Label::Metadata, c.start, span.end, score));
                                merged = true;
                            }
                        }
                        if !merged {
                            if let Some(c) = current {
                                spans.push(c);
                            }
                            current = Some(span);
                        }
                    } else {
                        if let Some(c) = current {
                            spans.push(c);
                        }
                        current = None;
                        spans.push(span);
                    }
                },
            }
            proof {
                assert(candidate == structural_candidate(self.config, b, lines@[i as int], zone_end as int));
                assert(spans@ + structural_walk(self.config, b, lines@, zone_end as int, i + 1, current) =~= before
                    + structural_walk(self.config, b, lines@, zone_end as int, i as int, cur_before));
            }
            i = i + 1;
        }
        let ghost before = spans@;
        if let Some(c) = current {
            spans.push(c);
        }
        assert(spans@ =~= whole);
        let result = resolve_overlapping_semantic_spans(spans);
        result
    }
}

} // verus!

verus! {

/// `[s, e)` pairs that are valid ranges of `b`, in order and disjoint.
pub open spec fn ordered_ranges(b: Seq<u8>, r: Seq<(usize, usize)>) -> bool {
    &&& forall|k: int| 0 <= k < r.len() ==> valid_range(b, (#[trigger] r[k]).0 as int, r[k].1 as int)
    &&& forall|a: int, c: int| 0 <= a < c < r.len() ==> (#[trigger] r[a]).1 <= (#[trigger] r[c]).0
}

/// ASCII whitespace: space, tab, line feed, form feed, carriage return.
pub open spec fn ascii_ws(c: u8) -> bool {
    c == 0x20 || c == 0x09 || c == 0x0A || c == 0x0C || c == 0x0D
}

/// End of the run of ASCII whitespace that starts at `i`.
pub open spec fn ws_run_end(b: Seq<u8>, i: int) -> int
    decreases b.len() - i,
{
    if 0 <= i < b.len() && ascii_ws(b[i]) {
        ws_run_end(b, i + 1)
    } else {
        i
    }
}

/// Line breaks among `b[lo..hi]`.
pub open spec fn line_breaks(b: Seq<u8>, lo: int, hi: int) -> nat {
    count_in(b, lo, hi, |x: u8| is_line_break(x))
}

/// The paragraph that starts at `start` and ends before `end`, trimmed; none when empty.
pub open spec fn paragraph_piece(b: Seq<u8>, start: int, end: int, fallback: int) -> Seq<(usize, usize)> {
    let e = match previous_nonspace_end_spec(b, start, end) {
        Some(x) => x,
        None => fallback,
    };
    if e > start {
        seq![(start as usize, e as usize)]
    } else {
        Seq::empty()
    }
}

/// Where the paragraph after a separator ending at `i` starts.
pub open spec fn paragraph_start(b: Seq<u8>, i: int) -> int {
    match next_nonspace_position_spec(b, i, b.len() as int) {
        Some(x) => x,
        None => b.len() as int,
    }
}

/// The paragraphs from byte `index` on, the current one starting at `start`:
/// a run of ASCII whitespace holding two or more line breaks closes it.
pub open spec fn paragraph_walk(b: Seq<u8>, start: int, index: int) -> Seq<(usize, usize)>
    decreases b.len() - index,
{
    let n = b.len() as int;
    if index < 0 || index >= n {
        if start < n {
            paragraph_piece(b, start, n, n)
        } else {
            Seq::empty()
        }
    } else if !ascii_ws(b[index]) {
        paragraph_walk(b, start, index + 1)
    } else {
        let re = ws_run_end(b, index);
        proof {
            lemma_ws_run_end(b, index);
        }
        if line_breaks(b, index, re) >= 2 {
            paragraph_piece(b, start, index, start) + paragraph_walk(b, paragraph_start(b, re), re)
        } else {
            paragraph_walk(b, start, re)
        }
    }
}

/// A whitespace run ends inside the text, past its first byte when that byte is whitespace.
pub proof fn lemma_ws_run_end(b: Seq<u8>, i: int)
    requires
        0 <= i <= b.len(),
    ensures
        i <= ws_run_end(b, i) <= b.len(),
        0 <= i < b.len() && ascii_ws(b[i]) ==> ws_run_end(b, i) > i,
    decreases b.len() - i,
{
    if i < b.len() && ascii_ws(b[i]) {
        lemma_ws_run_end(b, i + 1);
    }
}

/// Paragraphs: the text between runs of ASCII whitespace that hold at least two
/// line breaks, trimmed of whitespace.
pub fn paragraph_spans(text: &str) -> (spans: Vec<(usize, usize)>)
    ensures
        spans@ == paragraph_walk(
            text.spec_bytes(),
            paragraph_start(text.spec_bytes(), 0),
            0,
        ),
        ordered_ranges(text.spec_bytes(), spans@),
{
    let bytes = text.as_bytes();
    let ghost b = bytes@;
    let n = bytes.len();
    let mut spans: Vec<(usize, usize)> = Vec::new();
    let mut start = match next_nonspace_position(bytes, 0, n) {
        Some(x) => x,
        None => n,
    };
    let ghost whole = paragraph_walk(b, start as int, 0);
    let mut index: usize = 0;
    while index < n
        invariant
            b == bytes@,
            valid_utf8(b),
            n == b.len(),
            index <= n,
            start <= n,
            is_boundary(b, start as int),
            ordered_ranges(b, spans@),
            forall|k: int| 0 <= k < spans@.len() ==> (#[trigger] spans@[k]).1 <= start,
            forall|k: int| 0 <= k < spans@.len() ==> (#[trigger] spans@[k]).1 <= index,
            spans@ + paragraph_walk(b, start as int, index as int) == whole,
        decreases n - index,
    {
        let c = bytes[index];
        if !(c == 0x20 || c == 0x09 || c == 0x0A || c == 0x0C || c == 0x0D) {
            index = index + 1;
            continue;
        }
        let run_start = index;
        let ghost start_old = start as int;
        let mut newlines: usize = 0;
        proof {
            lemma_ws_run_end(b, run_start as int);
        }
        while index < n && (bytes[index] == 0x20 || bytes[index] == 0x09 || bytes[index] == 0x0A
            || bytes[index] == 0x0C || bytes[index] == 0x0D)
            invariant
                b == bytes@,
                run_start <= index <= n == b.len(),
                newlines == line_breaks(b, run_start as int, index as int),
                newlines <= index - run_start,
                ws_run_end(b, run_start as int) == ws_run_end(b, index as int),
            decreases n - index,
        {
            if bytes[index] == 0x0A || bytes[index] == 0x0D {
                newlines = newlines + 1;
            }
            index = index + 1;
        }
        let ghost before = spans@;
        if newlines >= 2 {
            let end = match previous_nonspace_end(bytes, start, run_start) {
                Some(x) => x,
                None => start,
            };
            if end > start {
                spans.push((start, end));
            }
            start = match next_nonspace_position(bytes, index, n) {
                Some(x) => x,
                None => n,
            };
            proof {
                if start < n {
                    assert(is_boundary(b, start as int));
                }
            }
        }
        proof {
            assert(ws_run_end(b, index as int) == index);
            if newlines >= 2 {
                assert(spans@ =~= before + paragraph_piece(b, start_old, run_start as int, start_old));
            }
            assert(spans@ + paragraph_walk(b, start as int, index as int) =~= before + paragraph_walk(
                b,
                start_old,
                run_start as int,
            ));
        }
    }
    if start < n {
        let end = match previous_nonspace_end(bytes, start, n) {
            Some(x) => x,
            None => n,
        };
        if end > start {
            spans.push((start, end));
        }
    }
    proof {
        assert(spans@ =~= whole);
    }
    spans
}

/// A sentence boundary candidate: the terminal scalar and where the break falls.
#[derive(Clone, Copy, Debug, Eq, Ord, PartialEq, PartialOrd, Structural)]
pub struct SentenceBoundaryCandidate {
    pub feature_pos: usize,
    pub break_end: usize,
}

/// Moves `i` past closing quotes and brackets.
pub open spec fn absorb_closers(b: Seq<u8>, i: int) -> int
    decreases b.len() - i,
{
    if 0 <= i < b.len() && crate::shape::is_closer(scalar_at(b, i)) && i + scalar_width_at(b, i)
        <= b.len() && scalar_width_at(b, i) >= 1 {
        absorb_closers(b, i + scalar_width_at(b, i))
    } else {
        i
    }
}

/// Characters that may open the next sentence besides upper-case letters:
/// `"` `'` `“` `‘` `#` `-` `*` `•`.
pub open spec fn opens_sentence(c: u32) -> bool {
    uppercase_or_lead(c)
}

pub open spec fn uppercase_or_lead(c: u32) -> bool {
    crate::textops::uppercase(c) || c == 0x22 || c == 0x27 || c == 0x201C || c == 0x2018 || c
        == 0x23 || c == 0x2D || c == 0x2A || c == 0x2022
}

/// The break after the terminal scalar at `o`.
pub open spec fn break_end_at(b: Seq<u8>, o: int) -> int {
    absorb_closers(b, o + scalar_width_at(b, o))
}

/// A sentence may end at the terminal scalar starting at `o`: it is not a
/// decimal point, and the next non-whitespace scalar after the closers, if
/// any, may open a sentence.
pub open spec fn is_sentence_boundary(b: Seq<u8>, o: int) -> bool {
    let te = o + scalar_width_at(b, o);
    &&& is_scalar_start(b, o)
    &&& crate::shape::is_sentence_terminal(scalar_at(b, o))
    &&& !(o > 0 && crate::byteset::is_ascii_digit_byte(b[o - 1]) && te < b.len()
        && crate::byteset::is_ascii_digit_byte(b[te]))
    &&& match first_nonspace(b, break_end_at(b, o), b.len() as int) {
        None => true,
        Some(ns) => opens_sentence(scalar_at(b, ns)),
    }
}

fn absorb_trailing_closers(bytes: &[u8], offset: usize) -> (r: usize)
    requires
        valid_utf8(bytes@),
        offset <= bytes@.len(),
        is_boundary(bytes@, offset as int),
    ensures
        r == absorb_closers(bytes@, offset as int),
        offset <= r <= bytes@.len(),
        is_boundary(bytes@, r as int),
{
    let n = bytes.len();
    let mut cursor = offset;
    let mut done = false;
    while !done && cursor < n
        invariant
            valid_utf8(bytes@),
            n == bytes@.len(),
            offset <= cursor <= n,
            is_boundary(bytes@, cursor as int),
            absorb_closers(bytes@, offset as int) == absorb_closers(bytes@, cursor as int),
            done ==> absorb_closers(bytes@, cursor as int) == cursor,
        decreases n - cursor, if done { 0int } else { 1int },
    {
        proof {
            lemma_tail_valid(bytes@, cursor as int);
        }
        let (c, w) = decode_scalar_at(bytes, cursor);
        if !crate::shape::closer(c) {
            done = true;
        } else {
            proof {
                if cursor + w < n {
                    lemma_step_valid(bytes@, cursor + w);
                }
            }
            cursor = cursor + w;
        }
    }
    cursor
}

/// Every terminal scalar at which a sentence may end, in order.
pub fn sentence_boundary_candidates(text: &str) -> (candidates: Vec<SentenceBoundaryCandidate>)
    ensures
        forall|a: int, c: int|
            0 <= a < c < candidates@.len() ==> (#[trigger] candidates@[a]).feature_pos < (
            #[trigger] candidates@[c]).feature_pos,
        forall|k: int|
            0 <= k < candidates@.len() ==> is_sentence_boundary(
                text.spec_bytes(),
                (#[trigger] candidates@[k]).feature_pos as int,
            ) && candidates@[k].break_end == break_end_at(
                text.spec_bytes(),
                candidates@[k].feature_pos as int,
            ) && candidates@[k].feature_pos < candidates@[k].break_end <= text.spec_bytes().len()
                && is_boundary(text.spec_bytes(), candidates@[k].break_end as int),
        forall|o: int|
            0 <= o < text.spec_bytes().len() && #[trigger] is_sentence_boundary(text.spec_bytes(), o)
                ==> exists|k: int|
                0 <= k < candidates@.len() && #[trigger] candidates@[k].feature_pos == o,
{
    let bytes = text.as_bytes();
    let ghost b = bytes@;
    let n = bytes.len();
    let mut candidates: Vec<SentenceBoundaryCandidate> = Vec::new();
    let mut i: usize = 0;
    while i < n
        invariant
            b == bytes@,
            valid_utf8(b),
            n == b.len(),
            i <= n,
            is_boundary(b, i as int),
            forall|a: int, c: int|
                0 <= a < c < candidates@.len() ==> (#[trigger] candidates@[a]).feature_pos < (
                #[trigger] candidates@[c]).feature_pos,
            forall|k: int|
                0 <= k < candidates@.len() ==> (#[trigger] candidates@[k]).feature_pos < i,
            forall|k: int|
                0 <= k < candidates@.len() ==> is_sentence_boundary(
                    b,
                    (#[trigger] candidates@[k]).feature_pos as int,
                ) && candidates@[k].break_end == break_end_at(b, candidates@[k].feature_pos as int)
                    && candidates@[k].feature_pos < candidates@[k].break_end <= b.len()
                    && is_boundary(b, candidates@[k].break_end as int),
            forall|o: int|
                0 <= o < i && #[trigger] is_sentence_boundary(b, o) ==> exists|k: int|
                    0 <= k < candidates@.len() && #[trigger] candidates@[k].feature_pos == o,
        decreases n - i,
    {
        proof {
            lemma_tail_valid(b, i as int);
            lemma_step_valid(b, i as int);
        }
        let (c, w) = decode_scalar_at(bytes, i);
        let te = i + w;
        proof {
            if te < n {
                lemma_step_valid(b, te as int);
            }
        }
        let mut keep = false;
        let mut break_end: usize = te;
        if crate::shape::sentence_terminal(c) {
            let digits_around = i > 0 && bytes[i - 1] >= 0x30 && bytes[i - 1] <= 0x39 && te < n
                && bytes[te] >= 0x30 && bytes[te] <= 0x39;
            if !digits_around {
                break_end = absorb_trailing_closers(bytes, te);
                match next_nonspace_position(bytes, break_end, n) {
                    None => {
                        keep = true;
                    },
                    Some(ns) => {
                        proof {
                            lemma_tail_valid(b, ns as int);
                        }
                        let (next_ch, _) = decode_scalar_at(bytes, ns);
                        keep = crate::textops::scalar_is_uppercase(next_ch) || next_ch == 0x22
                            || next_ch == 0x27 || next_ch == 0x201C || next_ch == 0x2018 || next_ch
                            == 0x23 || next_ch == 0x2D || next_ch == 0x2A || next_ch == 0x2022;
                    },
                }
            }
        }
        assert(keep == is_sentence_boundary(b, i as int));
        let ghost old_c = candidates@;
        if keep {
            candidates.push(SentenceBoundaryCandidate { feature_pos: i, break_end });
        }
        proof {
            assert forall|o: int| 0 <= o < te && #[trigger] is_sentence_boundary(b, o) implies exists|k: int|
                0 <= k < candidates@.len() && #[trigger] candidates@[k].feature_pos == o by {
                if o > i {
                    assert(is_continuation_byte(b[o]));
                } else if o == i {
                    assert(candidates@[candidates@.len() - 1].feature_pos == o);
                } else {
                    let k = choose|k: int| 0 <= k < old_c.len() && #[trigger] old_c[k].feature_pos == o;
                    assert(candidates@[k] == old_c[k]);
                }
            }
        }
        i = te;
    }
    candidates
}

} // verus!

verus! {

/// Index of the first span of `spans`, from `k` on, that holds offset `x`.
pub open spec fn first_containing(spans: Seq<AnnotationSpan>, x: int, k: int) -> Option<int>
    decreases spans.len() - k,
{
    if k < 0 || k >= spans.len() {
        None
    } else if spans[k].start <= x < spans[k].end {
        Some(k)
    } else {
        first_containing(spans, x, k + 1)
    }
}

/// The first non-whitespace scalar at or after `offset` outside the `suppress`
/// spans: whenever the next non-whitespace scalar lies in a span (the first
/// listed that holds it), the search goes on from that span's end.
pub open spec fn allowed_from(b: Seq<u8>, offset: int, suppress: Seq<AnnotationSpan>) -> Option<int>
    decreases (if offset <= b.len() {
        b.len() + 1 - offset
    } else {
        0
    }),
{
    if offset < 0 || offset > b.len() {
        None
    } else {
        match next_nonspace_position_spec(b, offset, b.len() as int) {
            None => None,
            Some(x) => match first_containing(suppress, x, 0) {
                None => Some(x),
                Some(k) => if suppress[k].end > offset {
                    allowed_from(b, suppress[k].end as int, suppress)
                } else {
                    None
                },
            },
        }
    }
}

proof fn lemma_first_containing(spans: Seq<AnnotationSpan>, x: int, k: int)
    requires
        0 <= k,
    ensures
        first_containing(spans, x, k) matches Some(j) ==> k <= j < spans.len() && spans[j].start <= x
            < spans[j].end,
        first_containing(spans, x, k) is None ==> forall|j: int|
            k <= j < spans.len() ==> !(spans[j].start <= x < #[trigger] spans[j].end),
    decreases spans.len() - k,
{
    if k < spans.len() && !(spans[k].start <= x < spans[k].end) {
        lemma_first_containing(spans, x, k + 1);
    }
}

/// The first non-whitespace scalar at or after `offset` that lies outside the
/// `suppress` spans (skipping to the end of each span it lands in).
pub fn next_allowed_nonspace(bytes: &[u8], offset: usize, suppress: &[AnnotationSpan]) -> (r: Option<usize>)
    requires
        valid_utf8(bytes@),
    ensures
        r matches Some(x) ==> Some(x as int) == allowed_from(bytes@, offset as int, suppress@),
        r is None ==> allowed_from(bytes@, offset as int, suppress@) is None,
        r matches Some(x) ==> offset <= x < bytes@.len() && is_scalar_start(bytes@, x as int)
            && forall|k: int| 0 <= k < suppress@.len() ==> !(suppress@[k].start <= x < #[trigger] suppress@[k].end),
{
    let n = bytes.len();
    let mut cursor = offset;
    loop
        invariant
            valid_utf8(bytes@),
            n == bytes@.len(),
            offset <= cursor,
            allowed_from(bytes@, offset as int, suppress@) == allowed_from(bytes@, cursor as int, suppress@),
        decreases (if cursor <= n {
            n - cursor + 1
        } else {
            0
        }),
    {
        if cursor > n {
            return None;
        }
        let next = match next_nonspace_position(bytes, cursor, n) {
            Some(x) => x,
            None => {
                return None;
            },
        };
        let mut hit: Option<usize> = None;
        let mut k: usize = 0;
        while k < suppress.len() && hit.is_none()
            invariant
                k <= suppress@.len(),
                hit matches Some(j) ==> first_containing(suppress@, next as int, 0) == Some(j as int)
                    && j < suppress@.len(),
                hit is None ==> first_containing(suppress@, next as int, 0) == first_containing(
                    suppress@,
                    next as int,
                    k as int,
                ),
            decreases suppress@.len() - k,
        {
            if next >= suppress[k].start && next < suppress[k].end {
                hit = Some(k);
            }
            k = k + 1;
        }
        proof {
            lemma_first_containing(suppress@, next as int, 0);
        }
        match hit {
            Some(j) => {
                cursor = suppress[j].end;
            },
            None => {
                return Some(next);
            },
        }
    }
}

pub fn overlaps_any(start: usize, end: usize, spans: &[AnnotationSpan]) -> (r: bool)
    ensures
        r == exists|k: int|
            0 <= k < spans@.len() && ranges_overlap_spec(
                start as int,
                end as int,
                (#[trigger] spans@[k]).start as int,
                spans@[k].end as int,
            ),
{
    let mut k: usize = 0;
    while k < spans.len()
        invariant
            k <= spans@.len(),
            forall|j: int|
                0 <= j < k ==> !ranges_overlap_spec(
                    start as int,
                    end as int,
                    (#[trigger] spans@[j]).start as int,
                    spans@[j].end as int,
                ),
        decreases spans@.len() - k,
    {
        if ranges_overlap(start, end, spans[k].start, spans[k].end) {
            return true;
        }
        k = k + 1;
    }
    false
}

/// The overlapping span of `spans[k..]` that comes first by start and end,
/// starting from the best one found before `k` (the earlier one on ties).
pub open spec fn first_overlap_from(
    start: int,
    end: int,
    spans: Seq<AnnotationSpan>,
    k: int,
    best: Option<AnnotationSpan>,
) -> Option<AnnotationSpan>
    decreases spans.len() - k,
{
    if k < 0 || k >= spans.len() {
        best
    } else {
        let s = spans[k];
        let next = if ranges_overlap_spec(start, end, s.start as int, s.end as int) {
            match best {
                None => Some(s),
                Some(o) => if s.start < o.start || (s.start == o.start && s.end < o.end) {
                    Some(s)
                } else {
                    Some(o)
                },
            }
        } else {
            best
        };
        first_overlap_from(start, end, spans, k + 1, next)
    }
}

/// The overlapping span that comes first by start and end (the earliest listed on ties).
pub fn first_overlapping_span(start: usize, end: usize, spans: &[AnnotationSpan]) -> (r: Option<AnnotationSpan>)
    ensures
        r == first_overlap_from(start as int, end as int, spans@, 0, None),
        r matches Some(o) ==> spans@.contains(o) && ranges_overlap_spec(
            start as int,
            end as int,
            o.start as int,
            o.end as int,
        ) && forall|k: int|
            0 <= k < spans@.len() && ranges_overlap_spec(
                start as int,
                end as int,
                (#[trigger] spans@[k]).start as int,
                spans@[k].end as int,
            ) ==> span_le(SpanOrder::StartEnd, o, spans@[k]),
        r is None ==> forall|k: int|
            0 <= k < spans@.len() ==> !ranges_overlap_spec(
                start as int,
                end as int,
                (#[trigger] spans@[k]).start as int,
                spans@[k].end as int,
            ),
{
    let mut best: Option<AnnotationSpan> = None;
    let mut k: usize = 0;
    while k < spans.len()
        invariant
            k <= spans@.len(),
            first_overlap_from(start as int, end as int, spans@, 0, None) == first_overlap_from(
                start as int,
                end as int,
                spans@,
                k as int,
                best,
            ),
            best matches Some(o) ==> spans@.contains(o) && ranges_overlap_spec(
                start as int,
                end as int,
                o.start as int,
                o.end as int,
            ) && forall|j: int|
                0 <= j < k && ranges_overlap_spec(
                    start as int,
                    end as int,
                    (#[trigger] spans@[j]).start as int,
                    spans@[j].end as int,
                ) ==> span_le(SpanOrder::StartEnd, o, spans@[j]),
            best is None ==> forall|j: int|
                0 <= j < k ==> !ranges_overlap_spec(
                    start as int,
                    end as int,
                    (#[trigger] spans@[j]).start as int,
                    spans@[j].end as int,
                ),
        decreases spans@.len() - k,
    {
        let s = spans[k];
        if ranges_overlap(start, end, s.start, s.end) {
            match best {
                None => {
                    best = Some(s);
                },
                Some(o) => {
                    if s.start < o.start || (s.start == o.start && s.end < o.end) {
                        best = Some(s);
                    }
                },
            }
        }
        k = k + 1;
    }
    best
}

/// An offset as an integer.
pub open spec fn opt_int(o: Option<usize>) -> Option<int> {
    match o {
        Some(x) => Some(x as int),
        None => None,
    }
}

/// `c` lists, in order, every sentence boundary of `b` with its break.
pub open spec fn lists_sentence_boundaries(b: Seq<u8>, c: Seq<SentenceBoundaryCandidate>) -> bool {
    &&& forall|a: int, d: int| 0 <= a < d < c.len() ==> (#[trigger] c[a]).feature_pos < (#[trigger] c[d]).feature_pos
    &&& forall|k: int|
        0 <= k < c.len() ==> is_sentence_boundary(b, (#[trigger] c[k]).feature_pos as int)
            && c[k].break_end == break_end_at(b, c[k].feature_pos as int) && c[k].feature_pos
            < c[k].break_end <= b.len() && is_boundary(b, c[k].break_end as int)
    &&& forall|o: int|
        0 <= o < b.len() && #[trigger] is_sentence_boundary(b, o) ==> exists|k: int|
            0 <= k < c.len() && #[trigger] c[k].feature_pos == o
}

/// The last sentence, from the cursor to the end of the text, unless a
/// suppressed span overlaps it.
pub open spec fn sentence_tail(b: Seq<u8>, cursor: Option<int>, suppress: Seq<AnnotationSpan>) -> Seq<(usize, usize)> {
    match cursor {
        Some(start) => if start < b.len() && !(exists|k: int|
            0 <= k < suppress.len() && ranges_overlap_spec(
                start,
                b.len() as int,
                (#[trigger] suppress[k]).start as int,
                suppress[k].end as int,
            )) {
            seq![(start as usize, b.len() as usize)]
        } else {
            Seq::empty()
        },
        None => Seq::empty(),
    }
}

/// The sentences from break `i` on, with the next sentence starting at
/// `cursor`: a break past the cursor closes a sentence there unless a
/// suppressed span overlaps it, in which case the text before that span (if
/// any is left after trimming) is a sentence and the cursor moves past the span.
pub open spec fn sentence_walk(
    b: Seq<u8>,
    breaks: Seq<SentenceBoundaryCandidate>,
    suppress: Seq<AnnotationSpan>,
    i: int,
    cursor: Option<int>,
) -> Seq<(usize, usize)>
    decreases breaks.len() - i,
{
    if i < 0 || i >= breaks.len() {
        sentence_tail(b, cursor, suppress)
    } else {
        match cursor {
            None => Seq::empty(),
            Some(start) => {
                let be = breaks[i].break_end as int;
                if be <= start {
                    sentence_walk(b, breaks, suppress, i + 1, cursor)
                } else {
                    match first_overlap_from(start, be, suppress, 0, None) {
                        Some(o) => {
                            let head = if o.start > start {
                                match previous_nonspace_end_spec(b, start, o.start as int) {
                                    Some(e) => if e > start {
                                        seq![(start as usize, e as usize)]
                                    } else {
                                        Seq::empty()
                                    },
                                    None => Seq::empty(),
                                }
                            } else {
                                Seq::empty()
                            };
                            head + sentence_walk(
                                b,
                                breaks,
                                suppress,
                                i + 1,
                                allowed_from(b, o.end as int, suppress),
                            )
                        },
                        None => seq![(start as usize, be as usize)] + sentence_walk(
                            b,
                            breaks,
                            suppress,
                            i + 1,
                            allowed_from(b, be, suppress),
                        ),
                    }
                }
            },
        }
    }
}

/// Sentence ranges between the break candidates, skipping text inside the
/// `suppress` spans.
pub fn sentence_spans(text: &str, suppress: &[AnnotationSpan]) -> (spans: Vec<(usize, usize)>)
    ensures
        exists|breaks: Seq<SentenceBoundaryCandidate>|
            #[trigger] lists_sentence_boundaries(text.spec_bytes(), breaks) && spans@ == sentence_walk(
                text.spec_bytes(),
                breaks,
                suppress@,
                0,
                allowed_from(text.spec_bytes(), 0, suppress@),
            ),
        forall|k: int|
            0 <= k < spans@.len() ==> valid_range(
                text.spec_bytes(),
                (#[trigger] spans@[k]).0 as int,
                spans@[k].1 as int,
            ),
{
    let bytes = text.as_bytes();
    let ghost b = bytes@;
    let n = bytes.len();
    let breaks = sentence_boundary_candidates(text);
    assert(lists_sentence_boundaries(b, breaks@));
    let mut spans: Vec<(usize, usize)> = Vec::new();
    let mut cursor = next_allowed_nonspace(bytes, 0, suppress);
    let ghost whole = sentence_walk(b, breaks@, suppress@, 0, allowed_from(b, 0, suppress@));
    let mut i: usize = 0;
    while i < breaks.len() && cursor.is_some()
        invariant
            b == bytes@,
            valid_utf8(b),
            n == b.len(),
            i <= breaks@.len(),
            forall|k: int|
                0 <= k < breaks@.len() ==> (#[trigger] breaks@[k]).break_end <= n && is_boundary(
                    b,
                    breaks@[k].break_end as int,
                ),
            cursor matches Some(x) ==> x < n && is_scalar_start(b, x as int),
            forall|k: int|
                0 <= k < spans@.len() ==> valid_range(b, (#[trigger] spans@[k]).0 as int, spans@[k].1 as int),
            spans@ + sentence_walk(b, breaks@, suppress@, i as int, opt_int(cursor)) == whole,
        decreases breaks@.len() - i,
    {
        let start = cursor.unwrap();
        let break_end = breaks[i].break_end;
        let ghost before = spans@;
        if break_end > start {
            match first_overlapping_span(start, break_end, suppress) {
                Some(overlap) => {
                    if overlap.start > start {
                        if let Some(end) = previous_nonspace_end(bytes, start, overlap.start) {
                            if end > start {
                                spans.push((start, end));
                            }
                        }
                    }
                    cursor = next_allowed_nonspace(bytes, overlap.end, suppress);
                    proof {
                        let head = spans@.subrange(before.len() as int, spans@.len() as int);
                        assert(spans@ =~= before + head);
                    }
                },
                None => {
                    spans.push((start, break_end));
                    cursor = next_allowed_nonspace(bytes, break_end, suppress);
                },
            }
        }
        proof {
            assert(spans@ + sentence_walk(b, breaks@, suppress@, i + 1, opt_int(cursor)) =~= before
                + sentence_walk(b, breaks@, suppress@, i as int, Some(start as int)));
        }
        i = i + 1;
    }
    if let Some(start) = cursor {
        if start < n && !overlaps_any(start, n, suppress) {
            spans.push((start, n));
        }
    }
    proof {
        assert(spans@ =~= whole);
    }
    spans
}

/// Span `p` crosses the later span `x`: it opens before `x` and closes inside it.
pub open spec fn crosses(p: AnnotationSpan, x: AnnotationSpan) -> bool {
    p.start < x.start && x.start < p.end && p.end < x.end
}

/// Span `j` was picked, or an earlier picked span crosses it.
pub open spec fn covered(spans: Seq<AnnotationSpan>, accepted: Seq<AnnotationSpan>, idx: Seq<int>, j: int) -> bool {
    (exists|k: int| 0 <= k < idx.len() && #[trigger] idx[k] == j) || (exists|k: int|
        0 <= k < idx.len() && idx[k] < j && #[trigger] crosses(accepted[k], spans[j]))
}

/// `accepted` picks the spans of `spans` at the increasing indices `idx`, and
/// every span left out is crossed by an earlier picked one.
pub open spec fn crossing_filter(spans: Seq<AnnotationSpan>, accepted: Seq<AnnotationSpan>, idx: Seq<int>) -> bool {
    &&& idx.len() == accepted.len()
    &&& forall|k: int| 0 <= k < idx.len() ==> 0 <= #[trigger] idx[k] < spans.len() && accepted[k] == spans[idx[k]]
    &&& forall|a: int, c: int| 0 <= a < c < idx.len() ==> #[trigger] idx[a] < #[trigger] idx[c]
    &&& forall|j: int| 0 <= j < spans.len() ==> #[trigger] covered(spans, accepted, idx, j)
}

fn crosses_any(accepted: &Vec<AnnotationSpan>, span: &AnnotationSpan) -> (r: bool)
    ensures
        r == exists|q: int| 0 <= q < accepted@.len() && #[trigger] crosses(accepted@[q], *span),
{
    let mut k: usize = 0;
    while k < accepted.len()
        invariant
            k <= accepted@.len(),
            forall|q: int| 0 <= q < k ==> !#[trigger] crosses(accepted@[q], *span),
        decreases accepted@.len() - k,
    {
        let prior = accepted[k];
        if prior.start < span.start && span.start < prior.end && prior.end < span.end {
            assert(crosses(accepted@[k as int], *span));
            return true;
        }
        k = k + 1;
    }
    false
}

/// Keeps, in order, each span that no kept earlier span crosses.
pub fn remove_crossing_spans(spans: Vec<AnnotationSpan>) -> (accepted: Vec<AnnotationSpan>)
    ensures
        exists|idx: Seq<int>| #[trigger] crossing_filter(spans@, accepted@, idx),
        forall|a: int, c: int| 0 <= a < c < accepted@.len() ==> !crosses(#[trigger] accepted@[a], #[trigger] accepted@[c]),
{
    let n = spans.len();
    let mut accepted: Vec<AnnotationSpan> = Vec::new();
    let ghost mut idx: Seq<int> = Seq::empty();
    let mut i: usize = 0;
    while i < n
        invariant
            n == spans@.len(),
            i <= n,
            idx.len() == accepted@.len(),
            forall|k: int| 0 <= k < idx.len() ==> 0 <= #[trigger] idx[k] < i && accepted@[k] == spans@[idx[k]],
            forall|a: int, c: int| 0 <= a < c < idx.len() ==> #[trigger] idx[a] < #[trigger] idx[c],
            forall|j: int| 0 <= j < i ==> #[trigger] covered(spans@, accepted@, idx, j),
            forall|a: int, c: int| 0 <= a < c < accepted@.len() ==> !crosses(#[trigger] accepted@[a], #[trigger] accepted@[c]),
        decreases n - i,
    {
        let span = spans[i];
        let crossing = crosses_any(&accepted, &span);
        let ghost old_acc = accepted@;
        let ghost old_idx = idx;
        if !crossing {
            accepted.push(span);
            proof {
                idx = idx.push(i as int);
                assert forall|j: int| 0 <= j < i + 1 implies #[trigger] covered(spans@, accepted@, idx, j) by {
                    if j == i {
                        assert(idx[idx.len() - 1] == j);
                    } else {
                        assert(covered(spans@, old_acc, old_idx, j));
                        if exists|k: int| 0 <= k < old_idx.len() && #[trigger] old_idx[k] == j {
                            let k = choose|k: int| 0 <= k < old_idx.len() && #[trigger] old_idx[k] == j;
                            assert(idx[k] == j);
                        } else {
                            let k = choose|k: int| 0 <= k < old_idx.len() && old_idx[k] < j && #[trigger] crosses(old_acc[k], spans@[j]);
                            assert(accepted@[k] == old_acc[k]);
                            assert(idx[k] == old_idx[k]);
                        }
                    }
                }
            }
        } else {
            proof {
                let q = choose|q: int| 0 <= q < accepted@.len() && #[trigger] crosses(accepted@[q], span);
                assert(idx[q] < i);
                assert(spans@[i as int] == span);
                assert(crosses(accepted@[q], spans@[i as int]));
                assert(covered(spans@, accepted@, idx, i as int));
            }
        }
        i = i + 1;
    }
    assert(crossing_filter(spans@, accepted@, idx));
    accepted
}

/// `span` is a valid non-empty span of `b` of at least `min` bytes.
pub open spec fn keepable(b: Seq<u8>, span: AnnotationSpan, min: int) -> bool {
    &&& valid_range(b, span.start as int, span.end as int)
    &&& span.end - span.start >= min
}

/// The spans of `s[..i]` that are keepable, in order.
pub open spec fn keep_valid(b: Seq<u8>, s: Seq<AnnotationSpan>, min: int, i: int) -> Seq<AnnotationSpan>
    decreases i,
{
    if i <= 0 {
        Seq::empty()
    } else {
        keep_valid(b, s, min, i - 1) + if keepable(b, s[i - 1], min) {
            seq![s[i - 1]]
        } else {
            Seq::empty()
        }
    }
}

/// `result` is `input` normalized: its keepable spans, stably sorted by start,
/// end and rank, less each one a kept earlier span crosses.
pub open spec fn normalizes(b: Seq<u8>, input: Seq<AnnotationSpan>, result: Seq<AnnotationSpan>, min: int) -> bool {
    &&& exists|idx: Seq<int>|
        #[trigger] crossing_filter(
            stable_sorted(SpanOrder::StartEndPriority, keep_valid(b, input, min, input.len() as int)),
            result,
            idx,
        )
    &&& forall|a: int, c: int| 0 <= a < c < result.len() ==> !crosses(#[trigger] result[a], #[trigger] result[c])
}

/// Keeps the valid spans of at least `min_span_bytes` bytes, sorts them by
/// start, end and rank, and drops each one a kept earlier span crosses.
pub fn normalize_spans(text: &str, spans: Vec<AnnotationSpan>, min_span_bytes: usize) -> (normalized: Vec<AnnotationSpan>)
    ensures
        normalizes(text.spec_bytes(), spans@, normalized@, min_span_bytes as int),
        sorted_spans(SpanOrder::StartEndPriority, normalized@),
        forall|k: int|
            0 <= k < normalized@.len() ==> keepable(
                text.spec_bytes(),
                #[trigger] normalized@[k],
                min_span_bytes as int,
            ) && spans@.contains(normalized@[k]),
        forall|a: int, c: int|
            0 <= a < c < normalized@.len() ==> !crosses(#[trigger] normalized@[a], #[trigger] normalized@[c]),
{
    let bytes = text.as_bytes();
    let ghost b = bytes@;
    let n = bytes.len();
    let mut kept: Vec<AnnotationSpan> = Vec::new();
    let mut i: usize = 0;
    while i < spans.len()
        invariant
            b == bytes@,
            n == b.len(),
            i <= spans@.len(),
            forall|k: int|
                0 <= k < kept@.len() ==> keepable(b, #[trigger] kept@[k], min_span_bytes as int)
                    && spans@.contains(kept@[k]),
            kept@ == keep_valid(b, spans@, min_span_bytes as int, i as int),
        decreases spans@.len() - i,
    {
        let s = spans[i];
        let ghost before = kept@;
        if s.start < s.end && s.end <= n && boundary_check(bytes, s.start) && boundary_check(
            bytes,
            s.end,
        ) && s.end - s.start >= min_span_bytes {
            assert(spans@[i as int] == s);
            kept.push(s);
        }
        proof {
            assert(spans@[i as int] == s);
            if keepable(b, s, min_span_bytes as int) {
                assert(kept@ =~= before + seq![s]);
            } else {
                assert(kept@ =~= before + Seq::<AnnotationSpan>::empty());
            }
        }
        i = i + 1;
    }
    let sorted = sort_spans(kept, SpanOrder::StartEndPriority);
    proof {
        assert forall|k: int| 0 <= k < sorted@.len() implies keepable(b, #[trigger] sorted@[k], min_span_bytes as int)
            && spans@.contains(sorted@[k]) by {
            vstd::seq_lib::to_multiset_contains(sorted@, sorted@[k]);
            vstd::seq_lib::to_multiset_contains(kept@, sorted@[k]);
            let j = choose|j: int| 0 <= j < kept@.len() && kept@[j] == sorted@[k];
            assert(keepable(b, kept@[j], min_span_bytes as int));
        }
    }
    let result = remove_crossing_spans(sorted);
    proof {
        let idx = choose|idx: Seq<int>| crossing_filter(sorted@, result@, idx);
        assert forall|a: int, c: int| 0 <= a < c < result@.len() implies span_le(
            SpanOrder::StartEndPriority,
            #[trigger] result@[a],
            #[trigger] result@[c],
        ) by {
            assert(idx[a] < idx[c]);
            assert(span_le(SpanOrder::StartEndPriority, sorted@[idx[a]], sorted@[idx[c]]));
        }
        assert forall|k: int| 0 <= k < result@.len() implies keepable(b, #[trigger] result@[k], min_span_bytes as int)
            && spans@.contains(result@[k]) by {
            assert(result@[k] == sorted@[idx[k]]);
        }
        assert(crossing_filter(sorted@, result@, idx));
    }
    result
}

} // verus!

verus! {

/// Every byte of `s` is ASCII.
pub open spec fn ascii_seq(s: Seq<u8>) -> bool {
    forall|k: int| 0 <= k < s.len() ==> #[trigger] s[k] < 0x80
}

pub proof fn lemma_ascii_valid(s: Seq<u8>)
    requires
        ascii_seq(s),
    ensures
        valid_utf8(s),
    decreases s.len(),
{
    if s.len() > 0 {
        assert(s[0] < 0x80);
        let rest = pop_first_scalar(s);
        assert(rest =~= s.subrange(1, s.len() as int));
        assert forall|k: int| 0 <= k < rest.len() implies #[trigger] rest[k] < 0x80 by {
            assert(rest[k] == s[k + 1]);
        }
        lemma_ascii_valid(rest);
    }
}

/// Bytes `[lo, hi)` of valid UTF-8 cut at boundaries are valid UTF-8.
pub proof fn lemma_piece_valid(b: Seq<u8>, lo: int, hi: int)
    requires
        valid_utf8(b),
        0 <= lo <= hi <= b.len(),
        is_boundary(b, lo),
        is_boundary(b, hi),
    ensures
        valid_utf8(b.subrange(lo, hi)),
{
    lemma_tail_valid(b, lo);
    let t = crate::scalars::tail(b, lo);
    let m = hi - lo;
    if m < t.len() {
        assert(t[m] == b[hi]);
        is_char_boundary_iff_not_is_continuation_byte(t, m);
    } else {
        is_char_boundary_start_end_of_seq(t);
    }
    if m == 0 {
        is_char_boundary_start_end_of_seq(t);
    }
    valid_utf8_split(t, m);
    assert(t.subrange(0, m) =~= b.subrange(lo, hi));
}

/// Whether a render event opens or closes a span.
#[derive(Clone, Copy, Debug, Eq, PartialEq, Structural)]
pub enum RenderEventKind {
    Close,
    Open,
}

/// One tag to insert into the rendered text.
#[derive(Clone, Copy, Debug, Eq, PartialEq, Structural)]
pub struct RenderEvent {
    pub position: usize,
    pub label: Label,
    pub start: usize,
    pub end: usize,
    pub kind: RenderEventKind,
}

/// Tag order at one position: closing tags before opening tags; opening tags
/// outer label first and longer span first; closing tags inner label first and
/// later start first.
pub open spec fn event_le(a: RenderEvent, b: RenderEvent) -> bool {
    let ka = if a.kind == RenderEventKind::Close {
        0int
    } else {
        1int
    };
    let kb = if b.kind == RenderEventKind::Close {
        0int
    } else {
        1int
    };
    let a1 = if a.kind == RenderEventKind::Open {
        priority(a.label)
    } else {
        -priority(a.label)
    };
    let b1 = if b.kind == RenderEventKind::Open {
        priority(b.label)
    } else {
        -priority(b.label)
    };
    let a2 = if a.kind == RenderEventKind::Open {
        -(a.end as int)
    } else {
        -(a.start as int)
    };
    let b2 = if b.kind == RenderEventKind::Open {
        -(b.end as int)
    } else {
        -(b.start as int)
    };
    a.position < b.position || (a.position == b.position && (ka < kb || (ka == kb && lex3_le(
        a1,
        a2,
        0,
        b1,
        b2,
        0,
    ))))
}

fn event_lt(a: &RenderEvent, b: &RenderEvent) -> (r: bool)
    ensures
        r == !event_le(*b, *a),
{
    if a.position != b.position {
        return a.position < b.position;
    }
    let a_open = a.kind == RenderEventKind::Open;
    let b_open = b.kind == RenderEventKind::Open;
    if a_open != b_open {
        return b_open;
    }
    let pa = label_priority(a.label);
    let pb = label_priority(b.label);
    if a_open {
        pa < pb || (pa == pb && a.end > b.end)
    } else {
        pa > pb || (pa == pb && a.start > b.start)
    }
}

fn sort_events(events: Vec<RenderEvent>) -> (sorted: Vec<RenderEvent>)
    ensures
        forall|i: int, j: int| 0 <= i < j < sorted@.len() ==> event_le(#[trigger] sorted@[i], #[trigger] sorted@[j]),
        sorted@.to_multiset() == events@.to_multiset(),
        sorted@.len() == events@.len(),
{
    broadcast use vstd::seq_lib::group_to_multiset_ensures;

    let n = events.len();
    let mut out: Vec<RenderEvent> = Vec::new();
    let mut i: usize = 0;
    while i < n
        invariant
            n == events@.len(),
            i <= n,
            forall|a: int, c: int| 0 <= a < c < out@.len() ==> event_le(#[trigger] out@[a], #[trigger] out@[c]),
            out@.to_multiset() == events@.subrange(0, i as int).to_multiset(),
            out@.len() == i,
        decreases n - i,
    {
        let x = events[i];
        let mut pos: usize = 0;
        while pos < out.len() && !event_lt(&x, &out[pos])
            invariant
                pos <= out@.len(),
                forall|j: int| 0 <= j < pos ==> event_le(#[trigger] out@[j], x),
            decreases out@.len() - pos,
        {
            pos = pos + 1;
        }
        let ghost before = out@;
        out.insert(pos, x);
        proof {
            assert(events@.subrange(0, i + 1) =~= events@.subrange(0, i as int).push(x));
            assert(out@ == before.insert(pos as int, x));
            vstd::seq_lib::to_multiset_insert(before, pos as int, x);
            vstd::seq_lib::to_multiset_build(events@.subrange(0, i as int), x);
            assert forall|a: int, c: int| 0 <= a < c < out@.len() implies event_le(
                #[trigger] out@[a],
                #[trigger] out@[c],
            ) by {
                if c < pos {
                    assert(out@[a] == before[a] && out@[c] == before[c]);
                } else if c == pos {
                    assert(out@[a] == before[a]);
                } else if a == pos {
                    assert(out@[c] == before[c - 1]);
                    assert(event_le(before[pos as int], before[c - 1]));
                } else if a < pos {
                    assert(out@[a] == before[a] && out@[c] == before[c - 1]);
                } else {
                    assert(out@[a] == before[a - 1] && out@[c] == before[c - 1]);
                }
            }
        }
        i = i + 1;
    }
    assert(events@.subrange(0, n as int) =~= events@);
    out
}

/// The ASCII name of a label.
pub open spec fn label_bytes(label: Label) -> Seq<u8> {
    match label {
        Label::Paragraph => seq![0x70u8, 0x61, 0x72, 0x61, 0x67, 0x72, 0x61, 0x70, 0x68],
        Label::Metadata => seq![0x6du8, 0x65, 0x74, 0x61, 0x64, 0x61, 0x74, 0x61],
        Label::Section => seq![0x73u8, 0x65, 0x63, 0x74, 0x69, 0x6f, 0x6e],
        Label::ListItem => seq![0x6cu8, 0x69, 0x73, 0x74, 0x5f, 0x69, 0x74, 0x65, 0x6d],
        Label::Dialogue => seq![0x64u8, 0x69, 0x61, 0x6c, 0x6f, 0x67, 0x75, 0x65],
        Label::Sentence => seq![0x73u8, 0x65, 0x6e, 0x74, 0x65, 0x6e, 0x63, 0x65],
    }
}

/// The bytes of the tag an event inserts: `<|name|>` or `</|name|>`.
pub open spec fn tag_bytes(e: RenderEvent) -> Seq<u8> {
    let open = if e.kind == RenderEventKind::Close {
        seq![0x3Cu8, 0x2Fu8, 0x7Cu8]
    } else {
        seq![0x3Cu8, 0x7Cu8]
    };
    open + label_bytes(e.label) + seq![0x7Cu8, 0x3Eu8]
}

/// The text from `cursor` on with the tags of `ev` inserted at their positions.
pub open spec fn rendered_from(b: Seq<u8>, cursor: int, ev: Seq<RenderEvent>) -> Seq<u8>
    decreases ev.len(),
{
    if ev.len() == 0 {
        if cursor < b.len() {
            b.subrange(cursor, b.len() as int)
        } else {
            Seq::empty()
        }
    } else {
        let e = ev[0];
        let piece = if e.position > cursor {
            b.subrange(cursor, e.position as int)
        } else {
            Seq::empty()
        };
        let next = if e.position > cursor {
            e.position as int
        } else {
            cursor
        };
        piece + tag_bytes(e) + rendered_from(b, next, ev.drop_first())
    }
}

fn push_tag(out: &mut Vec<u8>, e: &RenderEvent)
    ensures
        final(out)@ == old(out)@ + tag_bytes(*e),
{
    let name: Vec<u8> = match e.label {
        Label::Paragraph => vec![0x70u8, 0x61, 0x72, 0x61, 0x67, 0x72, 0x61, 0x70, 0x68],
        Label::Metadata => vec![0x6du8, 0x65, 0x74, 0x61, 0x64, 0x61, 0x74, 0x61],
        Label::Section => vec![0x73u8, 0x65, 0x63, 0x74, 0x69, 0x6f, 0x6e],
        Label::ListItem => vec![0x6cu8, 0x69, 0x73, 0x74, 0x5f, 0x69, 0x74, 0x65, 0x6d],
        Label::Dialogue => vec![0x64u8, 0x69, 0x61, 0x6c, 0x6f, 0x67, 0x75, 0x65],
        Label::Sentence => vec![0x73u8, 0x65, 0x6e, 0x74, 0x65, 0x6e, 0x63, 0x65],
    };
    assert(name@ =~= label_bytes(e.label));
    let ghost start = out@;
    out.push(0x3C);
    if e.kind == RenderEventKind::Close {
        out.push(0x2F);
    }
    out.push(0x7C);
    let ghost mid = out@;
    let mut k: usize = 0;
    while k < name.len()
        invariant
            k <= name@.len(),
            out@ == mid + name@.subrange(0, k as int),
        decreases name@.len() - k,
    {
        out.push(name[k]);
        k = k + 1;
        assert(out@ =~= mid + name@.subrange(0, k as int));
    }
    out.push(0x7C);
    out.push(0x3E);
    assert(name@.subrange(0, name@.len() as int) =~= name@);
    assert(out@ =~= start + tag_bytes(*e));
}

fn push_piece(out: &mut Vec<u8>, bytes: &[u8], lo: usize, hi: usize)
    requires
        lo <= hi <= bytes@.len(),
    ensures
        final(out)@ == old(out)@ + bytes@.subrange(lo as int, hi as int),
{
    let ghost start = out@;
    let mut k = lo;
    while k < hi
        invariant
            lo <= k <= hi <= bytes@.len(),
            out@ == start + bytes@.subrange(lo as int, k as int),
        decreases hi - k,
    {
        out.push(bytes[k]);
        k = k + 1;
        assert(out@ =~= start + bytes@.subrange(lo as int, k as int));
    }
}

/// Turns `bytes` into a `String` with `String::from_utf8`; `None` exactly when
/// the bytes are not well-formed UTF-8, and otherwise the decoded characters.
#[verifier::external_body]
pub(crate) fn string_from_utf8(bytes: Vec<u8>) -> (s: Option<String>)
    ensures
        s.is_some() == valid_utf8(bytes@),
        s matches Some(t) ==> t@ == decode_utf8(bytes@),
{
    String::from_utf8(bytes).ok()
}

proof fn lemma_tag_valid(e: RenderEvent)
    ensures
        valid_utf8(tag_bytes(e)),
{
    let t = tag_bytes(e);
    assert(ascii_seq(t)) by {
        assert forall|k: int| 0 <= k < t.len() implies #[trigger] t[k] < 0x80 by {
            let open = if e.kind == RenderEventKind::Close {
                seq![0x3Cu8, 0x2Fu8, 0x7Cu8]
            } else {
                seq![0x3Cu8, 0x7Cu8]
            };
            let name = label_bytes(e.label);
            if k < open.len() {
            } else if k < open.len() + name.len() {
                assert(t[k] == name[k - open.len()]);
            } else {
            }
        }
    }
    lemma_ascii_valid(t);
}

/// Renders `events` (tag positions at boundaries of `text`, in order) into `text`.
pub fn render_events(text: &str, events: &Vec<RenderEvent>) -> (tagged: String)
    requires
        forall|k: int|
            0 <= k < events@.len() ==> (#[trigger] events@[k]).position <= text.spec_bytes().len()
                && is_boundary(text.spec_bytes(), events@[k].position as int),
    ensures
        tagged@ == decode_utf8(rendered_from(text.spec_bytes(), 0, events@)),
{
    let bytes = text.as_bytes();
    let ghost b = bytes@;
    let n = bytes.len();
    let mut out: Vec<u8> = Vec::new();
    let mut cursor: usize = 0;
    let mut i: usize = 0;
    proof {
        lemma_ascii_valid(out@);
        assert(events@.subrange(0, events@.len() as int) =~= events@);
        assert(out@ + rendered_from(b, 0, events@) =~= rendered_from(b, 0, events@));
    }
    while i < events.len()
        invariant
            b == bytes@,
            valid_utf8(b),
            n == b.len(),
            i <= events@.len(),
            cursor <= n,
            is_boundary(b, cursor as int),
            forall|k: int|
                0 <= k < events@.len() ==> (#[trigger] events@[k]).position <= n && is_boundary(
                    b,
                    events@[k].position as int,
                ),
            valid_utf8(out@),
            out@ + rendered_from(b, cursor as int, events@.subrange(i as int, events@.len() as int))
                == rendered_from(b, 0, events@),
        decreases events@.len() - i,
    {
        let e = events[i];
        let ghost rest = events@.subrange(i as int, events@.len() as int);
        let ghost old_cursor = cursor;
        assert(rest[0] == e);
        assert(rest.drop_first() =~= events@.subrange(i + 1, events@.len() as int));
        let ghost before = out@;
        if e.position > cursor {
            proof {
                lemma_piece_valid(b, cursor as int, e.position as int);
                vstd::utf8::valid_utf8_concat(out@, b.subrange(cursor as int, e.position as int));
            }
            push_piece(&mut out, bytes, cursor, e.position);
            cursor = e.position;
        }
        proof {
            lemma_tag_valid(e);
            vstd::utf8::valid_utf8_concat(out@, tag_bytes(e));
        }
        push_tag(&mut out, &e);
        proof {
            let piece = if e.position > old_cursor {
                b.subrange(old_cursor as int, e.position as int)
            } else {
                Seq::<u8>::empty()
            };
            assert(rendered_from(b, old_cursor as int, rest) == piece + tag_bytes(e) + rendered_from(
                b,
                cursor as int,
                rest.drop_first(),
            ));
            assert(out@ =~= before + piece + tag_bytes(e));
            assert(out@ + rendered_from(b, cursor as int, rest.drop_first()) =~= before + rendered_from(
                b,
                old_cursor as int,
                rest,
            ));
        }
        i = i + 1;
    }
    proof {
        assert(events@.subrange(i as int, events@.len() as int).len() == 0);
    }
    if cursor < n {
        proof {
            lemma_piece_valid(b, cursor as int, n as int);
            vstd::utf8::valid_utf8_concat(out@, b.subrange(cursor as int, n as int));
        }
        push_piece(&mut out, bytes, cursor, n);
    }
    assert(out@ =~= rendered_from(b, 0, events@));
    match string_from_utf8(out) {
        Some(s) => s,
        None => String::new(),
    }
}

} // verus!

verus! {

/// An event sequence that can be rendered into `b`: in tag order, at
/// boundaries of `b`, each opening or closing one of `spans`.
pub open spec fn renderable(b: Seq<u8>, spans: Seq<AnnotationSpan>, ev: Seq<RenderEvent>) -> bool {
    &&& forall|i: int, j: int| 0 <= i < j < ev.len() ==> event_le(#[trigger] ev[i], #[trigger] ev[j])
    &&& forall|k: int|
        0 <= k < ev.len() ==> (#[trigger] ev[k]).position <= b.len() && is_boundary(
            b,
            ev[k].position as int,
        ) && exists|j: int|
            0 <= j < spans.len() && #[trigger] spans[j].start == ev[k].start && spans[j].end == ev[k].end
                && spans[j].label == ev[k].label && valid_range(b, ev[k].start as int, ev[k].end as int)
                && ev[k].position == (if ev[k].kind == RenderEventKind::Open {
                ev[k].start
            } else {
                ev[k].end
            })
}

/// The text pieces that `rendered_from` copies, without the tags between them.
pub open spec fn untagged_from(b: Seq<u8>, cursor: int, ev: Seq<RenderEvent>) -> Seq<u8>
    decreases ev.len(),
{
    if ev.len() == 0 {
        if cursor < b.len() {
            b.subrange(cursor, b.len() as int)
        } else {
            Seq::empty()
        }
    } else {
        let e = ev[0];
        let piece = if e.position > cursor {
            b.subrange(cursor, e.position as int)
        } else {
            Seq::empty()
        };
        let next = if e.position > cursor {
            e.position as int
        } else {
            cursor
        };
        piece + untagged_from(b, next, ev.drop_first())
    }
}

/// Rendering only inserts tags: for events in tag order inside the text, the
/// pieces of text between the tags are the text itself, in order.
pub proof fn lemma_rendering_keeps_text(b: Seq<u8>, cursor: int, ev: Seq<RenderEvent>)
    requires
        0 <= cursor <= b.len(),
        forall|i: int, j: int| 0 <= i < j < ev.len() ==> event_le(#[trigger] ev[i], #[trigger] ev[j]),
        forall|k: int| 0 <= k < ev.len() ==> (#[trigger] ev[k]).position <= b.len(),
    ensures
        untagged_from(b, cursor, ev) == b.subrange(cursor, b.len() as int),
    decreases ev.len(),
{
    if ev.len() == 0 {
        if cursor == b.len() {
            assert(b.subrange(cursor, b.len() as int) =~= Seq::<u8>::empty());
        }
    } else {
        let e = ev[0];
        let rest = ev.drop_first();
        let next = if e.position > cursor {
            e.position as int
        } else {
            cursor
        };
        assert forall|i: int, j: int| 0 <= i < j < rest.len() implies event_le(#[trigger] rest[i], #[trigger] rest[j]) by {
            assert(rest[i] == ev[i + 1]);
            assert(rest[j] == ev[j + 1]);
        }
        assert forall|k: int| 0 <= k < rest.len() implies (#[trigger] rest[k]).position <= b.len() by {
            assert(rest[k] == ev[k + 1]);
        }
        lemma_rendering_keeps_text(b, next, rest);
        if e.position > cursor {
            assert(b.subrange(cursor, e.position as int) + b.subrange(e.position as int, b.len() as int)
                =~= b.subrange(cursor, b.len() as int));
        }
    }
}

/// The opening and closing tag events of each span, in order.
pub open spec fn events_of(kept: Seq<AnnotationSpan>) -> Seq<RenderEvent>
    decreases kept.len(),
{
    if kept.len() == 0 {
        Seq::empty()
    } else {
        let x = kept.last();
        events_of(kept.drop_last()) + seq![
            RenderEvent { position: x.start, label: x.label, start: x.start, end: x.end, kind: RenderEventKind::Open },
            RenderEvent { position: x.end, label: x.label, start: x.start, end: x.end, kind: RenderEventKind::Close },
        ]
    }
}

/// `ev` are the tag events of `spans` over `b`: the events of the spans that
/// normalizing keeps (valid, sorted, without crossings), in tag order.
pub open spec fn renders(b: Seq<u8>, spans: Seq<AnnotationSpan>, ev: Seq<RenderEvent>) -> bool {
    &&& forall|i: int, j: int| 0 <= i < j < ev.len() ==> event_le(#[trigger] ev[i], #[trigger] ev[j])
    &&& forall|k: int| 0 <= k < ev.len() ==> (#[trigger] ev[k]).position <= b.len()
    &&& exists|kept: Seq<AnnotationSpan>|
        #[trigger] normalizes(b, spans, kept, 1) && ev.to_multiset() == events_of(kept).to_multiset()
}

/// Renders nested inline tags from standoff spans: the valid spans, sorted and
/// without crossings, each opened and closed at its offsets.
pub fn render_spans(text: &str, spans: &[AnnotationSpan]) -> (tagged: String)
    ensures
        exists|ev: Seq<RenderEvent>|
            #[trigger] renderable(text.spec_bytes(), spans@, ev) && tagged@ == decode_utf8(
                rendered_from(text.spec_bytes(), 0, ev),
            ) && (spans@.len() == 0 ==> ev.len() == 0),
        spans@.len() == 0 ==> tagged@ == text@,
        exists|ev: Seq<RenderEvent>|
            #[trigger] renders(text.spec_bytes(), spans@, ev) && tagged@ == decode_utf8(
                rendered_from(text.spec_bytes(), 0, ev),
            ),
{
    broadcast use vstd::seq_lib::group_to_multiset_ensures;
    broadcast use vstd::utf8::encode_utf8_decode_utf8;

    let bytes = text.as_bytes();
    let ghost b = bytes@;
    let n = bytes.len();
    let mut valid: Vec<AnnotationSpan> = Vec::new();
    let mut i: usize = 0;
    while i < spans.len()
        invariant
            b == bytes@,
            n == b.len(),
            i <= spans@.len(),
            forall|k: int|
                0 <= k < valid@.len() ==> valid_range(b, (#[trigger] valid@[k]).start as int, valid@[k].end as int)
                    && spans@.contains(valid@[k]),
            spans@.len() == 0 ==> valid@.len() == 0,
            valid@ == keep_valid(b, spans@, 1, i as int),
        decreases spans@.len() - i,
    {
        let s = spans[i];
        let ghost before = valid@;
        if s.start < s.end && s.end <= n && boundary_check(bytes, s.start) && boundary_check(bytes, s.end) {
            assert(spans@[i as int] == s);
            valid.push(s);
        }
        proof {
            assert(spans@[i as int] == s);
            if keepable(b, s, 1) {
                assert(valid@ =~= before + seq![s]);
            } else {
                assert(valid@ =~= before + Seq::<AnnotationSpan>::empty());
            }
        }
        i = i + 1;
    }
    let ghost valid_view = valid@;
    let sorted = sort_spans(valid, SpanOrder::StartEndPriority);
    let kept = remove_crossing_spans(sorted);
    let mut events: Vec<RenderEvent> = Vec::new();
    let mut k: usize = 0;
    proof {
        let idx = choose|idx: Seq<int>| crossing_filter(sorted@, kept@, idx);
        assert forall|q: int| 0 <= q < kept@.len() implies valid_range(b, (#[trigger] kept@[q]).start as int, kept@[q].end as int)
            && spans@.contains(kept@[q]) by {
            assert(kept@[q] == sorted@[idx[q]]);
            vstd::seq_lib::to_multiset_contains(sorted@, sorted@[idx[q]]);
            vstd::seq_lib::to_multiset_contains(valid_view, sorted@[idx[q]]);
        }
        if spans@.len() == 0 {
            assert(sorted@.len() == 0);
            assert(kept@.len() == idx.len());
        }
    }
    while k < kept.len()
        invariant
            b == bytes@,
            n == b.len(),
            k <= kept@.len(),
            forall|q: int|
                0 <= q < kept@.len() ==> valid_range(b, (#[trigger] kept@[q]).start as int, kept@[q].end as int)
                    && spans@.contains(kept@[q]),
            forall|q: int|
                0 <= q < events@.len() ==> (#[trigger] events@[q]).position <= b.len() && is_boundary(
                    b,
                    events@[q].position as int,
                ) && exists|j: int|
                    0 <= j < spans@.len() && #[trigger] spans@[j].start == events@[q].start && spans@[j].end
                        == events@[q].end && spans@[j].label == events@[q].label && valid_range(
                        b,
                        events@[q].start as int,
                        events@[q].end as int,
                    ) && events@[q].position == (if events@[q].kind == RenderEventKind::Open {
                        events@[q].start
                    } else {
                        events@[q].end
                    }),
            kept@.len() == 0 ==> events@.len() == 0,
            events@ == events_of(kept@.subrange(0, k as int)),
        decreases kept@.len() - k,
    {
        let span = kept[k];
        let ghost before = events@;
        proof {
            assert(spans@.contains(kept@[k as int]));
            let j = choose|j: int| 0 <= j < spans@.len() && spans@[j] == span;
            assert(spans@[j].start == span.start);
        }
        events.push(RenderEvent {
            position: span.start,
            label: span.label,
            start: span.start,
            end: span.end,
            kind: RenderEventKind::Open,
        });
        events.push(RenderEvent {
            position: span.end,
            label: span.label,
            start: span.start,
            end: span.end,
            kind: RenderEventKind::Close,
        });
        proof {
            assert(kept@.subrange(0, k + 1).drop_last() =~= kept@.subrange(0, k as int));
            assert(kept@.subrange(0, k + 1).last() == span);
            assert(events@ =~= events_of(kept@.subrange(0, k + 1)));
        }
        k = k + 1;
    }
    let ghost unsorted = events@;
    let ordered = sort_events(events);
    proof {
        assert forall|q: int| 0 <= q < ordered@.len() implies (#[trigger] ordered@[q]).position <= b.len()
            && is_boundary(b, ordered@[q].position as int) && exists|j: int|
            0 <= j < spans@.len() && #[trigger] spans@[j].start == ordered@[q].start && spans@[j].end
                == ordered@[q].end && spans@[j].label == ordered@[q].label && valid_range(
                b,
                ordered@[q].start as int,
                ordered@[q].end as int,
            ) && ordered@[q].position == (if ordered@[q].kind == RenderEventKind::Open {
                ordered@[q].start
            } else {
                ordered@[q].end
            }) by {
            vstd::seq_lib::to_multiset_contains(ordered@, ordered@[q]);
            vstd::seq_lib::to_multiset_contains(unsorted, ordered@[q]);
            let p = choose|p: int| 0 <= p < unsorted.len() && unsorted[p] == ordered@[q];
            assert(unsorted[p] == ordered@[q]);
        }
        assert(renderable(b, spans@, ordered@));
        assert(kept@.subrange(0, kept@.len() as int) =~= kept@);
        let idx = choose|idx: Seq<int>| crossing_filter(sorted@, kept@, idx);
        assert(crossing_filter(sorted@, kept@, idx));
        assert(normalizes(b, spans@, kept@, 1));
        assert(renders(b, spans@, ordered@));
    }
    let tagged = render_events(text, &ordered);
    proof {
        if spans@.len() == 0 {
            assert(ordered@.len() == 0);
            if n > 0 {
                assert(b.subrange(0, n as int) =~= b);
            } else {
                assert(b =~= Seq::<u8>::empty());
            }
            assert(rendered_from(b, 0, ordered@) =~= b);
        }
    }
    tagged
}

/// Each range as a span with `label` and full confidence.
pub open spec fn as_spans(label: Label, ranges: Seq<(usize, usize)>) -> Seq<AnnotationSpan> {
    ranges.map_values(|r: (usize, usize)| AnnotationSpan { label, start: r.0, end: r.1, score: 1000 })
}

/// The metadata, section and list-item spans of `st[..i]`, in order.
pub open spec fn suppressing(st: Seq<AnnotationSpan>, i: int) -> Seq<AnnotationSpan>
    decreases i,
{
    if i <= 0 {
        Seq::empty()
    } else {
        let x = st[i - 1];
        suppressing(st, i - 1) + if x.label == Label::Metadata || x.label == Label::Section || x.label
            == Label::ListItem {
            seq![x]
        } else {
            Seq::empty()
        }
    }
}

/// `r` are the sentence ranges of `b` with the `suppress` spans skipped.
pub open spec fn sentence_ranges(b: Seq<u8>, suppress: Seq<AnnotationSpan>, r: Seq<(usize, usize)>) -> bool {
    exists|breaks: Seq<SentenceBoundaryCandidate>|
        #[trigger] lists_sentence_boundaries(b, breaks) && r == sentence_walk(
            b,
            breaks,
            suppress,
            0,
            allowed_from(b, 0, suppress),
        )
}

/// The spans, before normalizing, that `cfg` gathers from `b` given its
/// structural spans `st` and its sentence ranges `sent`.
pub open spec fn gathered_spans(
    cfg: SegmenterConfig,
    b: Seq<u8>,
    st: Seq<AnnotationSpan>,
    sent: Seq<(usize, usize)>,
) -> Seq<AnnotationSpan> {
    let paragraphs = if cfg.include_paragraphs {
        as_spans(Label::Paragraph, paragraph_walk(b, paragraph_start(b, 0), 0))
    } else {
        Seq::empty()
    };
    let sentences = if cfg.include_sentences {
        as_spans(Label::Sentence, sent)
    } else {
        Seq::empty()
    };
    paragraphs + st + sentences
}

/// `result` is what `cfg` makes of `b`: the structural spans resolved, the
/// sentences found outside the suppressed ones, all gathered with the
/// paragraphs and normalized.
pub open spec fn segments(cfg: SegmenterConfig, b: Seq<u8>, result: Seq<AnnotationSpan>) -> bool {
    exists|st: Seq<AnnotationSpan>, sent: Seq<(usize, usize)>|
        #![trigger resolves_to(structural_candidates(cfg, b), st), gathered_spans(cfg, b, st, sent)]
        resolves_to(structural_candidates(cfg, b), st) && (cfg.include_sentences ==> sentence_ranges(
            b,
            if cfg.suppress_sentences_in_structural_spans {
                suppressing(st, st.len() as int)
            } else {
                Seq::empty()
            },
            sent,
        )) && normalizes(b, gathered_spans(cfg, b, st, sent), result, cfg.min_span_bytes as int)
}

impl CombinedSegmenter {
    /// Canonical standoff spans: paragraphs, structural spans and sentences,
    /// normalized into a sorted, non-crossing list.
    pub fn spans(&self, text: &str) -> (spans: Vec<AnnotationSpan>)
        ensures
            segments(self.spec_config(), text.spec_bytes(), spans@),
            sorted_spans(SpanOrder::StartEndPriority, spans@),
            forall|k: int|
                0 <= k < spans@.len() ==> keepable(
                    text.spec_bytes(),
                    #[trigger] spans@[k],
                    self.spec_config().min_span_bytes as int,
                ),
            forall|a: int, c: int|
                0 <= a < c < spans@.len() ==> !crosses(#[trigger] spans@[a], #[trigger] spans@[c]),
    {
        let ghost b = text.spec_bytes();
        let ghost cfg = self.config;
        let mut spans: Vec<AnnotationSpan> = Vec::new();
        let structural = self.structural_spans(text);
        if self.config.include_paragraphs {
            let paragraphs = paragraph_spans(text);
            let mut i: usize = 0;
            while i < paragraphs.len()
                invariant
                    i <= paragraphs@.len(),
                    spans@ == as_spans(Label::Paragraph, paragraphs@.subrange(0, i as int)),
                decreases paragraphs@.len() - i,
            {
                let (s, e) = paragraphs[i];
                spans.push(AnnotationSpan::new(Label::Paragraph, s, e, 1000));
                assert(spans@ =~= as_spans(Label::Paragraph, paragraphs@.subrange(0, i + 1)));
                i = i + 1;
            }
            assert(paragraphs@.subrange(0, paragraphs@.len() as int) =~= paragraphs@);
        }
        let ghost paragraph_part = spans@;
        assert(paragraph_part == if cfg.include_paragraphs {
            as_spans(Label::Paragraph, paragraph_walk(b, paragraph_start(b, 0), 0))
        } else {
            Seq::<AnnotationSpan>::empty()
        });
        let mut i: usize = 0;
        while i < structural.len()
            invariant
                i <= structural@.len(),
                spans@ == paragraph_part + structural@.subrange(0, i as int),
            decreases structural@.len() - i,
        {
            spans.push(structural[i]);
            assert(spans@ =~= paragraph_part + structural@.subrange(0, i + 1));
            i = i + 1;
        }
        assert(structural@.subrange(0, structural@.len() as int) =~= structural@);
        let ghost mut sent: Seq<(usize, usize)> = Seq::empty();
        if self.config.include_sentences {
            let mut suppress: Vec<AnnotationSpan> = Vec::new();
            if self.config.suppress_sentences_in_structural_spans {
                let mut i: usize = 0;
                while i < structural.len()
                    invariant
                        i <= structural@.len(),
                        suppress@ == suppressing(structural@, i as int),
                    decreases structural@.len() - i,
                {
                    let s = structural[i];
                    let ghost before = suppress@;
                    if s.label == Label::Metadata || s.label == Label::Section || s.label
                        == Label::ListItem {
                        suppress.push(s);
                    }
                    assert(suppress@ =~= suppressing(structural@, i + 1));
                    i = i + 1;
                }
            }
            let sentences = sentence_spans(text, suppress.as_slice());
            proof {
                sent = sentences@;
            }
            let ghost head = spans@;
            let mut i: usize = 0;
            while i < sentences.len()
                invariant
                    i <= sentences@.len(),
                    spans@ == head + as_spans(Label::Sentence, sentences@.subrange(0, i as int)),
                decreases sentences@.len() - i,
            {
                let (s, e) = sentences[i];
                spans.push(AnnotationSpan::new(Label::Sentence, s, e, 1000));
                assert(spans@ =~= head + as_spans(Label::Sentence, sentences@.subrange(0, i + 1)));
                i = i + 1;
            }
            assert(sentences@.subrange(0, sentences@.len() as int) =~= sentences@);
            assert(sentence_ranges(
                b,
                if cfg.suppress_sentences_in_structural_spans {
                    suppressing(structural@, structural@.len() as int)
                } else {
                    Seq::empty()
                },
                sent,
            ));
        }
        assert(spans@ =~= gathered_spans(cfg, b, structural@, sent));
        let result = normalize_spans(text, spans, self.config.min_span_bytes);
        assert(resolves_to(structural_candidates(cfg, b), structural@));
        result
    }

    /// Annotates UTF-8 text: canonical standoff spans plus the tagged text.
    pub fn annotate(&self, text: &str) -> (annotation: Annotation)
        ensures
            segments(self.spec_config(), text.spec_bytes(), annotation.spans@),
            exists|ev: Seq<RenderEvent>|
                #[trigger] renders(text.spec_bytes(), annotation.spans@, ev) && annotation.tagged@
                    == decode_utf8(rendered_from(text.spec_bytes(), 0, ev)) && untagged_from(
                    text.spec_bytes(),
                    0,
                    ev,
                ) == text.spec_bytes(),
            sorted_spans(SpanOrder::StartEndPriority, annotation.spans@),
            forall|k: int|
                0 <= k < annotation.spans@.len() ==> keepable(
                    text.spec_bytes(),
                    #[trigger] annotation.spans@[k],
                    self.spec_config().min_span_bytes as int,
                ),
            forall|a: int, c: int|
                0 <= a < c < annotation.spans@.len() ==> !crosses(
                    #[trigger] annotation.spans@[a],
                    #[trigger] annotation.spans@[c],
                ),
            exists|ev: Seq<RenderEvent>|
                #[trigger] renderable(text.spec_bytes(), annotation.spans@, ev)
                    && annotation.tagged@ == decode_utf8(rendered_from(text.spec_bytes(), 0, ev)),
    {
        let spans = self.spans(text);
        let slice = spans.as_slice();
        let tagged = render_spans(text, slice);
        proof {
            assert(slice@ == spans@);
            let ev = choose|ev: Seq<RenderEvent>|
                #[trigger] renderable(text.spec_bytes(), slice@, ev) && tagged@ == decode_utf8(
                    rendered_from(text.spec_bytes(), 0, ev),
                ) && (slice@.len() == 0 ==> ev.len() == 0);
            assert(renderable(text.spec_bytes(), spans@, ev));
            assert(tagged@ == decode_utf8(rendered_from(text.spec_bytes(), 0, ev)));
            let ev2 = choose|ev2: Seq<RenderEvent>|
                #[trigger] renders(text.spec_bytes(), slice@, ev2) && tagged@ == decode_utf8(
                    rendered_from(text.spec_bytes(), 0, ev2),
                );
            let b = text.spec_bytes();
            lemma_rendering_keeps_text(b, 0, ev2);
            assert(b.subrange(0, b.len() as int) =~= b);
            assert(renders(b, spans@, ev2));
        }
        Annotation { spans, tagged }
    }
}

impl Default for CombinedSegmenter {
    fn default() -> (segmenter: Self)
        ensures
            segmenter.spec_config() == (SegmenterConfig {
                include_paragraphs: true,
                include_sentences: true,
                include_metadata: true,
                include_sections: true,
                include_list_items: true,
                include_dialogue: true,
                suppress_sentences_in_structural_spans: true,
                min_span_bytes: 1,
            }),
    {
        CombinedSegmenter::new(SegmenterConfig::default())
    }
}

} // verus!
