use vstd::prelude::*;
use vstd::string::StringSliceAdditionalSpecFns;
use vstd::utf8::*;

use crate::scalars::is_scalar_start;
use crate::segment::{
    normalize_spans, normalizes, segments, suppressing, CombinedSegmenter, SegmenterConfig, allowed_from, first_overlap_from, first_overlapping_span, lists_sentence_boundaries, next_allowed_nonspace,
    opt_int, overlaps_any, previous_nonspace_end, previous_nonspace_end_spec, sentence_tail, sentence_walk,
    valid_range, is_sentence_boundary, sentence_boundary_candidates, AnnotationSpan, Label,
    SentenceBoundaryCandidate,
};
use crate::segment_laws::{lemma_normalizing_is_determined, lemma_segments_are_determined};
use crate::textops::is_boundary;

verus! {

broadcast use vstd::utf8::encode_utf8_valid_utf8;

/// A sentence span with a confidence in thousandths.
pub open spec fn sentence(start: int, end: int, score: u32) -> AnnotationSpan {
    AnnotationSpan { label: Label::Sentence, start: start as usize, end: end as usize, score }
}

/// The sentences from break `i` on when a model has scored the breaks: breaks
/// that are not kept are passed over; a kept break past the cursor closes a
/// sentence there, with the break's score, unless a suppressed span overlaps
/// it, in which case the text before that span (if any is left after trimming)
/// is a sentence of full confidence and the cursor moves past the span. The
/// text after the last break, unless suppressed, is a sentence of full
/// confidence.
pub open spec fn scored_walk(
    b: Seq<u8>,
    breaks: Seq<SentenceBoundaryCandidate>,
    keep: Seq<bool>,
    scores: Seq<u32>,
    suppress: Seq<AnnotationSpan>,
    i: int,
    cursor: Option<int>,
) -> Seq<AnnotationSpan>
    decreases breaks.len() - i,
{
    if i < 0 || i >= breaks.len() {
        match cursor {
            Some(start) => if sentence_tail(b, cursor, suppress).len() > 0 {
                seq![sentence(start, b.len() as int, 1000)]
            } else {
                Seq::empty()
            },
            None => Seq::empty(),
        }
    } else {
        match cursor {
            None => Seq::empty(),
            Some(start) => {
                let be = breaks[i].break_end as int;
                if !keep[i] || be <= start {
                    scored_walk(b, breaks, keep, scores, suppress, i + 1, cursor)
                } else {
                    match first_overlap_from(start, be, suppress, 0, None) {
                        Some(o) => {
                            let head = if o.start > start {
                                match previous_nonspace_end_spec(b, start, o.start as int) {
                                    Some(e) => if e > start {
                                        seq![sentence(start, e, 1000)]
                                    } else {
                                        Seq::empty()
                                    },
                                    None => Seq::empty(),
                                }
                            } else {
                                Seq::empty()
                            };
                            head + scored_walk(
                                b,
                                breaks,
                                keep,
                                scores,
                                suppress,
                                i + 1,
                                allowed_from(b, o.end as int, suppress),
                            )
                        },
                        None => seq![sentence(start, be, scores[i])] + scored_walk(
                            b,
                            breaks,
                            keep,
                            scores,
                            suppress,
                            i + 1,
                            allowed_from(b, be, suppress),
                        ),
                    }
                }
            },
        }
    }
}

/// The sentences found from breaks a model scored: `keep[k]` says whether
/// break `k` is taken and `scores[k]` is its confidence in thousandths.
pub fn scored_sentence_spans(
    text: &str,
    breaks: &[SentenceBoundaryCandidate],
    keep: &[bool],
    scores: &[u32],
    suppress: &[AnnotationSpan],
) -> (spans: Vec<AnnotationSpan>)
    requires
        lists_sentence_boundaries(text.spec_bytes(), breaks@),
        keep@.len() == breaks@.len(),
        scores@.len() == breaks@.len(),
    ensures
        spans@ == scored_walk(
            text.spec_bytes(),
            breaks@,
            keep@,
            scores@,
            suppress@,
            0,
            allowed_from(text.spec_bytes(), 0, suppress@),
        ),
        forall|k: int|
            0 <= k < spans@.len() ==> valid_range(
                text.spec_bytes(),
                (#[trigger] spans@[k]).start as int,
                spans@[k].end as int,
            ) && spans@[k].label == Label::Sentence,
{
    let bytes = text.as_bytes();
    let ghost b = bytes@;
    let n = bytes.len();
    let mut spans: Vec<AnnotationSpan> = Vec::new();
    let mut cursor = next_allowed_nonspace(bytes, 0, suppress);
    let ghost whole = scored_walk(b, breaks@, keep@, scores@, suppress@, 0, allowed_from(b, 0, suppress@));
    let mut i: usize = 0;
    while i < breaks.len() && cursor.is_some()
        invariant
            b == bytes@,
            valid_utf8(b),
            n == b.len(),
            i <= breaks@.len(),
            keep@.len() == breaks@.len(),
            scores@.len() == breaks@.len(),
            forall|k: int|
                0 <= k < breaks@.len() ==> (#[trigger] breaks@[k]).break_end <= n && is_boundary(
                    b,
                    breaks@[k].break_end as int,
                ),
            cursor matches Some(x) ==> x < n && is_scalar_start(b, x as int),
            forall|k: int|
                0 <= k < spans@.len() ==> valid_range(b, (#[trigger] spans@[k]).start as int, spans@[k].end as int)
                    && spans@[k].label == Label::Sentence,
            spans@ + scored_walk(b, breaks@, keep@, scores@, suppress@, i as int, opt_int(cursor)) == whole,
        decreases breaks@.len() - i,
    {
        let start = cursor.unwrap();
        let break_end = breaks[i].break_end;
        let ghost before = spans@;
        if keep[i] && break_end > start {
            match first_overlapping_span(start, break_end, suppress) {
                Some(overlap) => {
                    if overlap.start > start {
                        if let Some(end) = previous_nonspace_end(bytes, start, overlap.start) {
                            if end > start {
                                spans.push(AnnotationSpan::new(Label::Sentence, start, end, 1000));
                            }
                        }
                    }
                    cursor = next_allowed_nonspace(bytes, overlap.end, suppress);
                    proof {
                        let head = spans@.subrange(before.len() as int, spans@.len() as int);
                        assert(spans@ =~= before + head);
                    }
                },
                None => {
                    spans.push(AnnotationSpan::new(Label::Sentence, start, break_end, scores[i]));
                    cursor = next_allowed_nonspace(bytes, break_end, suppress);
                },
            }
        }
        proof {
            assert(spans@ + scored_walk(b, breaks@, keep@, scores@, suppress@, i + 1, opt_int(cursor)) =~= before
                + scored_walk(b, breaks@, keep@, scores@, suppress@, i as int, Some(start as int)));
        }
        i = i + 1;
    }
    if let Some(start) = cursor {
        if start < n && !overlaps_any(start, n, suppress) {
            spans.push(AnnotationSpan::new(Label::Sentence, start, n, 1000));
        }
    }
    proof {
        assert(spans@ =~= whole);
    }
    spans
}

/// The breaks of `breaks[i..]` that are kept, in order.
pub open spec fn kept_breaks(breaks: Seq<SentenceBoundaryCandidate>, keep: Seq<bool>, i: int) -> Seq<
    SentenceBoundaryCandidate,
>
    decreases breaks.len() - i,
{
    if i < 0 || i >= breaks.len() {
        Seq::empty()
    } else if keep[i] {
        seq![breaks[i]] + kept_breaks(breaks, keep, i + 1)
    } else {
        kept_breaks(breaks, keep, i + 1)
    }
}

/// The byte ranges of `spans`.
pub open spec fn ranges_of(spans: Seq<AnnotationSpan>) -> Seq<(usize, usize)> {
    spans.map_values(|x: AnnotationSpan| (x.start, x.end))
}

proof fn lemma_ranges_of_add(a: Seq<AnnotationSpan>, c: Seq<AnnotationSpan>)
    ensures
        ranges_of(a + c) == ranges_of(a) + ranges_of(c),
{
    assert(ranges_of(a + c) =~= ranges_of(a) + ranges_of(c));
}

/// Walking breaks from index `i` is walking the breaks after `i` from the start.
proof fn lemma_walk_shift(b: Seq<u8>, s: Seq<SentenceBoundaryCandidate>, suppress: Seq<AnnotationSpan>, i: int)
    requires
        0 <= i <= s.len(),
    ensures
        forall|c: Option<int>|
            #[trigger] sentence_walk(b, s, suppress, i, c) == sentence_walk(
                b,
                s.subrange(i, s.len() as int),
                suppress,
                0,
                c,
            ),
    decreases s.len() - i,
{
    let t = s.subrange(i, s.len() as int);
    if i < s.len() {
        lemma_walk_shift(b, s, suppress, i + 1);
        lemma_walk_shift(b, t, suppress, 1);
        assert(t.subrange(1, t.len() as int) =~= s.subrange(i + 1, s.len() as int));
        assert(t[0] == s[i]);
        assert forall|c: Option<int>| #[trigger] sentence_walk(b, s, suppress, i, c) == sentence_walk(b, t, suppress, 0, c) by {
            assert(sentence_walk(b, s, suppress, i + 1, c) == sentence_walk(b, t, suppress, 1, c));
            match c {
                None => {},
                Some(start) => {
                    let be = s[i].break_end as int;
                    match first_overlap_from(start, be, suppress, 0, None) {
                        Some(o) => {
                            let c2 = allowed_from(b, o.end as int, suppress);
                            assert(sentence_walk(b, s, suppress, i + 1, c2) == sentence_walk(b, t, suppress, 1, c2));
                        },
                        None => {
                            let c2 = allowed_from(b, be, suppress);
                            assert(sentence_walk(b, s, suppress, i + 1, c2) == sentence_walk(b, t, suppress, 1, c2));
                        },
                    }
                },
            }
        }
    } else {
        assert forall|c: Option<int>| #[trigger] sentence_walk(b, s, suppress, i, c) == sentence_walk(b, t, suppress, 0, c) by {
            assert(t.len() == 0);
        }
    }
}

proof fn lemma_scored_walk_kept(
    b: Seq<u8>,
    breaks: Seq<SentenceBoundaryCandidate>,
    keep: Seq<bool>,
    scores: Seq<u32>,
    suppress: Seq<AnnotationSpan>,
    i: int,
    c: Option<int>,
)
    requires
        0 <= i <= breaks.len(),
        keep.len() == breaks.len(),
    ensures
        ranges_of(scored_walk(b, breaks, keep, scores, suppress, i, c)) == sentence_walk(
            b,
            kept_breaks(breaks, keep, i),
            suppress,
            0,
            c,
        ),
    decreases breaks.len() - i,
{
    let k = kept_breaks(breaks, keep, i);
    if i >= breaks.len() {
        assert(k.len() == 0);
        match c {
            None => {},
            Some(start) => {
                if sentence_tail(b, c, suppress).len() > 0 {
                    assert(ranges_of(seq![sentence(start, b.len() as int, 1000)]) =~= seq![(start as usize, b.len() as usize)]);
                } else {
                    assert(ranges_of(Seq::<AnnotationSpan>::empty()) =~= Seq::<(usize, usize)>::empty());
                }
            },
        }
    } else {
        match c {
            None => {
                assert(ranges_of(Seq::<AnnotationSpan>::empty()) =~= Seq::<(usize, usize)>::empty());
            },
            Some(start) => {
                let be = breaks[i].break_end as int;
                if !keep[i] {
                    lemma_scored_walk_kept(b, breaks, keep, scores, suppress, i + 1, c);
                } else {
                    let rest = kept_breaks(breaks, keep, i + 1);
                    assert(k == seq![breaks[i]] + rest);
                    assert(k[0] == breaks[i]);
                    lemma_walk_shift(b, k, suppress, 1);
                    assert(k.subrange(1, k.len() as int) =~= rest);
                    if be <= start {
                        lemma_scored_walk_kept(b, breaks, keep, scores, suppress, i + 1, c);
                        assert(sentence_walk(b, k, suppress, 1, c) == sentence_walk(b, rest, suppress, 0, c));
                    } else {
                        match first_overlap_from(start, be, suppress, 0, None) {
                            Some(o) => {
                                let c2 = allowed_from(b, o.end as int, suppress);
                                lemma_scored_walk_kept(b, breaks, keep, scores, suppress, i + 1, c2);
                                assert(sentence_walk(b, k, suppress, 1, c2) == sentence_walk(b, rest, suppress, 0, c2));
                                let head = if o.start > start {
                                    match previous_nonspace_end_spec(b, start, o.start as int) {
                                        Some(e) => if e > start {
                                            seq![sentence(start, e, 1000)]
                                        } else {
                                            Seq::empty()
                                        },
                                        None => Seq::empty(),
                                    }
                                } else {
                                    Seq::empty()
                                };
                                let tail = scored_walk(b, breaks, keep, scores, suppress, i + 1, c2);
                                lemma_ranges_of_add(head, tail);
                                assert(ranges_of(head) =~= if o.start > start {
                                    match previous_nonspace_end_spec(b, start, o.start as int) {
                                        Some(e) => if e > start {
                                            seq![(start as usize, e as usize)]
                                        } else {
                                            Seq::empty()
                                        },
                                        None => Seq::empty(),
                                    }
                                } else {
                                    Seq::empty()
                                });
                            },
                            None => {
                                let c2 = allowed_from(b, be, suppress);
                                lemma_scored_walk_kept(b, breaks, keep, scores, suppress, i + 1, c2);
                                assert(sentence_walk(b, k, suppress, 1, c2) == sentence_walk(b, rest, suppress, 0, c2));
                                let tail = scored_walk(b, breaks, keep, scores, suppress, i + 1, c2);
                                lemma_ranges_of_add(seq![sentence(start, be, scores[i])], tail);
                                assert(ranges_of(seq![sentence(start, be, scores[i])]) =~= seq![(start as usize, be as usize)]);
                            },
                        }
                    }
                }
            },
        }
    }
}

/// Model-scored sentences are the heuristic sentences over the kept breaks:
/// the ranges a scored walk finds are those the plain sentence walk finds when
/// given only the breaks the model keeps. With every break kept, the model
/// finds exactly the heuristic sentences.
pub proof fn lemma_scored_sentences_follow_kept_breaks(
    b: Seq<u8>,
    breaks: Seq<SentenceBoundaryCandidate>,
    keep: Seq<bool>,
    scores: Seq<u32>,
    suppress: Seq<AnnotationSpan>,
)
    requires
        keep.len() == breaks.len(),
    ensures
        ranges_of(scored_walk(b, breaks, keep, scores, suppress, 0, allowed_from(b, 0, suppress)))
            == sentence_walk(b, kept_breaks(breaks, keep, 0), suppress, 0, allowed_from(b, 0, suppress)),
        (forall|k: int| 0 <= k < keep.len() ==> #[trigger] keep[k]) ==> kept_breaks(breaks, keep, 0) == breaks,
{
    lemma_scored_walk_kept(b, breaks, keep, scores, suppress, 0, allowed_from(b, 0, suppress));
    if forall|k: int| 0 <= k < keep.len() ==> #[trigger] keep[k] {
        lemma_all_kept(breaks, keep, 0);
        assert(breaks.subrange(0, breaks.len() as int) =~= breaks);
    }
}

proof fn lemma_all_kept(breaks: Seq<SentenceBoundaryCandidate>, keep: Seq<bool>, i: int)
    requires
        0 <= i <= breaks.len(),
        keep.len() == breaks.len(),
        forall|k: int| 0 <= k < keep.len() ==> #[trigger] keep[k],
    ensures
        kept_breaks(breaks, keep, i) == breaks.subrange(i, breaks.len() as int),
    decreases breaks.len() - i,
{
    if i < breaks.len() {
        lemma_all_kept(breaks, keep, i + 1);
        assert(keep[i]);
        assert(seq![breaks[i]] + breaks.subrange(i + 1, breaks.len() as int) =~= breaks.subrange(
            i,
            breaks.len() as int,
        ));
    } else {
        assert(breaks.subrange(i, breaks.len() as int) =~= Seq::<SentenceBoundaryCandidate>::empty());
    }
}

/// `cfg` without its sentences.
pub open spec fn without_sentences(cfg: SegmenterConfig) -> SegmenterConfig {
    SegmenterConfig { include_sentences: false, ..cfg }
}

/// `result` is what `cfg` makes of `b` when a model has scored the sentence
/// breaks: the spans found without sentences, joined (when `cfg` includes
/// sentences) by the scored sentences outside the structural spans they
/// suppress, and normalized.
pub open spec fn scored_segments(
    cfg: SegmenterConfig,
    b: Seq<u8>,
    breaks: Seq<SentenceBoundaryCandidate>,
    keep: Seq<bool>,
    scores: Seq<u32>,
    result: Seq<AnnotationSpan>,
) -> bool {
    exists|base: Seq<AnnotationSpan>|
        #[trigger] segments(without_sentences(cfg), b, base) && {
            let suppress = if cfg.suppress_sentences_in_structural_spans {
                suppressing(base, base.len() as int)
            } else {
                Seq::empty()
            };
            let sentences = if cfg.include_sentences {
                scored_walk(b, breaks, keep, scores, suppress, 0, allowed_from(b, 0, suppress))
            } else {
                Seq::empty()
            };
            normalizes(b, base + sentences, result, cfg.min_span_bytes as int)
        }
}

/// Segments `text` under `cfg` with sentences from breaks a model scored
/// (`keep[k]` whether break `k` is taken, `scores[k]` its confidence).
pub fn segment_with_scored_breaks(
    cfg: &SegmenterConfig,
    text: &str,
    breaks: &[SentenceBoundaryCandidate],
    keep: &[bool],
    scores: &[u32],
) -> (spans: Vec<AnnotationSpan>)
    requires
        lists_sentence_boundaries(text.spec_bytes(), breaks@),
        keep@.len() == breaks@.len(),
        scores@.len() == breaks@.len(),
    ensures
        scored_segments(*cfg, text.spec_bytes(), breaks@, keep@, scores@, spans@),
{
    let ghost b = text.spec_bytes();
    let fallback = SegmenterConfig { include_sentences: false, ..*cfg };
    let base = CombinedSegmenter::new(fallback).spans(text);
    let mut gathered: Vec<AnnotationSpan> = Vec::new();
    let mut i: usize = 0;
    while i < base.len()
        invariant
            i <= base@.len(),
            gathered@ == base@.subrange(0, i as int),
        decreases base@.len() - i,
    {
        gathered.push(base[i]);
        assert(gathered@ =~= base@.subrange(0, i + 1));
        i = i + 1;
    }
    assert(base@.subrange(0, base@.len() as int) =~= base@);
    let mut suppress: Vec<AnnotationSpan> = Vec::new();
    if cfg.suppress_sentences_in_structural_spans {
        let mut i: usize = 0;
        while i < base.len()
            invariant
                i <= base@.len(),
                suppress@ == suppressing(base@, i as int),
            decreases base@.len() - i,
        {
            let s = base[i];
            if s.label == Label::Metadata || s.label == Label::Section || s.label == Label::ListItem {
                suppress.push(s);
            }
            assert(suppress@ =~= suppressing(base@, i + 1));
            i = i + 1;
        }
    }
    let ghost mut sentences: Seq<AnnotationSpan> = Seq::empty();
    if cfg.include_sentences {
        let found = scored_sentence_spans(text, breaks, keep, scores, suppress.as_slice());
        proof {
            sentences = found@;
        }
        let mut i: usize = 0;
        while i < found.len()
            invariant
                i <= found@.len(),
                gathered@ == base@ + found@.subrange(0, i as int),
            decreases found@.len() - i,
        {
            gathered.push(found[i]);
            assert(gathered@ =~= base@ + found@.subrange(0, i + 1));
            i = i + 1;
        }
        assert(found@.subrange(0, found@.len() as int) =~= found@);
    } else {
        assert(gathered@ =~= base@ + Seq::<AnnotationSpan>::empty());
    }
    let result = normalize_spans(text, gathered, cfg.min_span_bytes);
    proof {
        assert(fallback == without_sentences(*cfg));
        assert(segments(without_sentences(*cfg), b, base@));
    }
    result
}

/// `s` lists, in increasing order, exactly the offsets in `[0, hi)` that satisfy `p`.
pub open spec fn lists_offsets(s: Seq<int>, hi: int, p: spec_fn(int) -> bool) -> bool {
    &&& forall|a: int, d: int| 0 <= a < d < s.len() ==> #[trigger] s[a] < #[trigger] s[d]
    &&& forall|k: int| 0 <= k < s.len() ==> 0 <= #[trigger] s[k] < hi && p(s[k])
    &&& forall|i: int| 0 <= i < hi && #[trigger] p(i) ==> exists|k: int| 0 <= k < s.len() && #[trigger] s[k] == i
}

/// At most one sequence lists exactly the offsets below `hi` that satisfy `p`.
proof fn lemma_lists_offsets_unique(s1: Seq<int>, s2: Seq<int>, hi: int, p: spec_fn(int) -> bool)
    requires
        lists_offsets(s1, hi, p),
        lists_offsets(s2, hi, p),
    ensures
        s1 == s2,
    decreases s1.len() + s2.len(),
{
    if s1.len() == 0 || s2.len() == 0 {
        if s1.len() > 0 {
            assert(p(s1[0]) && 0 <= s1[0] < hi);
        }
        if s2.len() > 0 {
            assert(p(s2[0]) && 0 <= s2[0] < hi);
        }
        assert(s1 =~= s2);
    } else {
        let n1 = s1.len() - 1;
        let n2 = s2.len() - 1;
        let x1 = s1[n1];
        let x2 = s2[n2];
        assert(p(x1) && 0 <= x1 < hi);
        assert(p(x2) && 0 <= x2 < hi);
        let k1 = choose|k: int| 0 <= k < s2.len() && #[trigger] s2[k] == x1;
        let k2 = choose|k: int| 0 <= k < s1.len() && #[trigger] s1[k] == x2;
        if k1 < n2 {
            assert(s2[k1] < s2[n2]);
        }
        if k2 < n1 {
            assert(s1[k2] < s1[n1]);
        }
        assert(x1 == x2);
        let t1 = s1.drop_last();
        let t2 = s2.drop_last();
        assert forall|k: int| 0 <= k < t1.len() implies 0 <= #[trigger] t1[k] < x1 && p(t1[k]) by {
            assert(t1[k] == s1[k]);
            assert(s1[k] < s1[n1]);
        }
        assert forall|k: int| 0 <= k < t2.len() implies 0 <= #[trigger] t2[k] < x1 && p(t2[k]) by {
            assert(t2[k] == s2[k]);
            assert(s2[k] < s2[n2]);
        }
        assert forall|a: int, d: int| 0 <= a < d < t1.len() implies #[trigger] t1[a] < #[trigger] t1[d] by {
            assert(t1[a] == s1[a] && t1[d] == s1[d]);
        }
        assert forall|a: int, d: int| 0 <= a < d < t2.len() implies #[trigger] t2[a] < #[trigger] t2[d] by {
            assert(t2[a] == s2[a] && t2[d] == s2[d]);
        }
        assert forall|i: int| 0 <= i < x1 && #[trigger] p(i) implies exists|k: int| 0 <= k < t1.len() && #[trigger] t1[k] == i by {
            let k = choose|k: int| 0 <= k < s1.len() && #[trigger] s1[k] == i;
            assert(k != n1);
            assert(t1[k] == s1[k]);
        }
        assert forall|i: int| 0 <= i < x1 && #[trigger] p(i) implies exists|k: int| 0 <= k < t2.len() && #[trigger] t2[k] == i by {
            let k = choose|k: int| 0 <= k < s2.len() && #[trigger] s2[k] == i;
            assert(k != n2);
            assert(t2[k] == s2[k]);
        }
        lemma_lists_offsets_unique(t1, t2, x1, p);
        assert(s1 =~= t1.push(x1));
        assert(s2 =~= t2.push(x2));
    }
}

/// The offsets at which the candidates of `c` sit.
pub open spec fn candidate_offsets(c: Seq<SentenceBoundaryCandidate>) -> Seq<int> {
    Seq::new(c.len(), |k: int| c[k].feature_pos as int)
}

/// At most one candidate list names exactly the sentence boundaries of `b`.
pub proof fn lemma_sentence_boundaries_unique(
    b: Seq<u8>,
    c1: Seq<SentenceBoundaryCandidate>,
    c2: Seq<SentenceBoundaryCandidate>,
)
    requires
        lists_sentence_boundaries(b, c1),
        lists_sentence_boundaries(b, c2),
    ensures
        c1 == c2,
{
    let p = |o: int| is_sentence_boundary(b, o);
    let hi = b.len() as int;
    let s1 = candidate_offsets(c1);
    let s2 = candidate_offsets(c2);
    assert forall|a: int, d: int| 0 <= a < d < s1.len() implies #[trigger] s1[a] < #[trigger] s1[d] by {
        assert(c1[a].feature_pos < c1[d].feature_pos);
    }
    assert forall|a: int, d: int| 0 <= a < d < s2.len() implies #[trigger] s2[a] < #[trigger] s2[d] by {
        assert(c2[a].feature_pos < c2[d].feature_pos);
    }
    assert forall|k: int| 0 <= k < s1.len() implies 0 <= #[trigger] s1[k] < hi && p(s1[k]) by {
        assert(is_sentence_boundary(b, c1[k].feature_pos as int));
    }
    assert forall|k: int| 0 <= k < s2.len() implies 0 <= #[trigger] s2[k] < hi && p(s2[k]) by {
        assert(is_sentence_boundary(b, c2[k].feature_pos as int));
    }
    assert forall|i: int| 0 <= i < hi && #[trigger] p(i) implies exists|k: int| 0 <= k < s1.len() && #[trigger] s1[k] == i by {
        assert(is_sentence_boundary(b, i));
        let k = choose|k: int| 0 <= k < c1.len() && #[trigger] c1[k].feature_pos == i;
        assert(s1[k] == i);
    }
    assert forall|i: int| 0 <= i < hi && #[trigger] p(i) implies exists|k: int| 0 <= k < s2.len() && #[trigger] s2[k] == i by {
        assert(is_sentence_boundary(b, i));
        let k = choose|k: int| 0 <= k < c2.len() && #[trigger] c2[k].feature_pos == i;
        assert(s2[k] == i);
    }
    lemma_lists_offsets_unique(s1, s2, hi, p);
    assert forall|k: int| 0 <= k < c1.len() implies #[trigger] c1[k] == c2[k] by {
        assert(s1[k] == s2[k]);
        assert(is_sentence_boundary(b, c1[k].feature_pos as int));
        assert(is_sentence_boundary(b, c2[k].feature_pos as int));
    }
    assert(c1 =~= c2);
}

/// Segments `text` under `cfg`, with sentences from a model's choices over
/// the text's sentence-boundary candidates, in order: `keep[k]` says whether
/// candidate `k` is taken and `scores[k]` is its confidence in thousandths.
/// `None` when either list's length is not the number of candidates.
pub fn segment_with_model_choices(cfg: &SegmenterConfig, text: &str, keep: &[bool], scores: &[u32]) -> (r: Option<
    Vec<AnnotationSpan>,
>)
    ensures
        exists|c: Seq<SentenceBoundaryCandidate>|
            #[trigger] lists_sentence_boundaries(text.spec_bytes(), c) && (r is Some <==> (keep@.len()
                == c.len() && scores@.len() == c.len())) && (r matches Some(spans) ==> scored_segments(
                *cfg,
                text.spec_bytes(),
                c,
                keep@,
                scores@,
                spans@,
            )),
{
    let candidates = sentence_boundary_candidates(text);
    assert(lists_sentence_boundaries(text.spec_bytes(), candidates@));
    if keep.len() != candidates.len() || scores.len() != candidates.len() {
        return None;
    }
    Some(segment_with_scored_breaks(cfg, text, candidates.as_slice(), keep, scores))
}

/// The sentences found from a model's choices over the text's
/// sentence-boundary candidates (as for `segment_with_model_choices`), outside
/// the `suppress` spans. `None` when either list's length is not the number
/// of candidates.
pub fn sentences_with_model_choices(
    text: &str,
    keep: &[bool],
    scores: &[u32],
    suppress: &[AnnotationSpan],
) -> (r: Option<Vec<AnnotationSpan>>)
    ensures
        exists|c: Seq<SentenceBoundaryCandidate>|
            #[trigger] lists_sentence_boundaries(text.spec_bytes(), c) && (r is Some <==> (keep@.len()
                == c.len() && scores@.len() == c.len())) && (r matches Some(spans) ==> spans@
                == scored_walk(
                text.spec_bytes(),
                c,
                keep@,
                scores@,
                suppress@,
                0,
                allowed_from(text.spec_bytes(), 0, suppress@),
            )),
{
    let candidates = sentence_boundary_candidates(text);
    assert(lists_sentence_boundaries(text.spec_bytes(), candidates@));
    if keep.len() != candidates.len() || scores.len() != candidates.len() {
        return None;
    }
    Some(scored_sentence_spans(text, candidates.as_slice(), keep, scores, suppress))
}

/// Segmenting with scored breaks is a function of its inputs: two results for
/// the same configuration, text, breaks, choices and scores are the same.
pub proof fn lemma_scored_segments_are_determined(
    cfg: SegmenterConfig,
    b: Seq<u8>,
    breaks: Seq<SentenceBoundaryCandidate>,
    keep: Seq<bool>,
    scores: Seq<u32>,
    r1: Seq<AnnotationSpan>,
    r2: Seq<AnnotationSpan>,
)
    requires
        scored_segments(cfg, b, breaks, keep, scores, r1),
        scored_segments(cfg, b, breaks, keep, scores, r2),
    ensures
        r1 == r2,
{
    let base1 = choose|base: Seq<AnnotationSpan>|
        #[trigger] segments(without_sentences(cfg), b, base) && {
            let suppress = if cfg.suppress_sentences_in_structural_spans {
                suppressing(base, base.len() as int)
            } else {
                Seq::empty()
            };
            let sentences = if cfg.include_sentences {
                scored_walk(b, breaks, keep, scores, suppress, 0, allowed_from(b, 0, suppress))
            } else {
                Seq::empty()
            };
            normalizes(b, base + sentences, r1, cfg.min_span_bytes as int)
        };
    let base2 = choose|base: Seq<AnnotationSpan>|
        #[trigger] segments(without_sentences(cfg), b, base) && {
            let suppress = if cfg.suppress_sentences_in_structural_spans {
                suppressing(base, base.len() as int)
            } else {
                Seq::empty()
            };
            let sentences = if cfg.include_sentences {
                scored_walk(b, breaks, keep, scores, suppress, 0, allowed_from(b, 0, suppress))
            } else {
                Seq::empty()
            };
            normalizes(b, base + sentences, r2, cfg.min_span_bytes as int)
        };
    lemma_segments_are_determined(without_sentences(cfg), b, base1, base2);
    let suppress = if cfg.suppress_sentences_in_structural_spans {
        suppressing(base1, base1.len() as int)
    } else {
        Seq::empty()
    };
    let sentences = if cfg.include_sentences {
        scored_walk(b, breaks, keep, scores, suppress, 0, allowed_from(b, 0, suppress))
    } else {
        Seq::empty()
    };
    lemma_normalizing_is_determined(b, base1 + sentences, r1, r2, cfg.min_span_bytes as int);
}

} // verus!
