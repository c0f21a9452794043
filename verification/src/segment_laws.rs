use vstd::prelude::*;

use crate::byteset::is_ascii_digit_byte;
use crate::lines::lemma_first_nonspace_le;
use crate::scalars::{is_scalar_start, lemma_scalar_at_ascii, lemma_scalar_at_bullet, scalar_at};
use crate::textops::{first_nonspace, lemma_first_nonspace, lemma_marker_not_white_space, uppercase, white_space};
use crate::lines::{digit_run, trim_start_at};
use crate::segment::{
    break_end_at, is_sentence_boundary, list_item_score_spec, covered, crosses, crossing_filter, event_le, events_of, lists_sentence_boundaries, normalizes,
    renders, segments, sentence_ranges, AnnotationSpan, RenderEvent, RenderEventKind,
    SegmenterConfig, SentenceBoundaryCandidate,
};

verus! {

/// `first_nonspace` from `j` finds `k` when `k` starts a scalar that is not
/// whitespace and every scalar starting in `[j, k)` is whitespace.
proof fn lemma_first_nonspace_is(b: Seq<u8>, j: int, e: int, k: int)
    requires
        j <= k < e,
        is_scalar_start(b, k),
        !white_space(scalar_at(b, k)),
        forall|i: int| j <= i < k && is_scalar_start(b, i) ==> white_space(#[trigger] scalar_at(b, i)),
    ensures
        first_nonspace(b, j, e) == Some(k),
{
    lemma_first_nonspace_le(b, j, e, k);
    lemma_first_nonspace(b, j, e);
}

/// A sentence boundary is never followed by the start of an ordinary
/// lower-case sentence: after the terminal and the closers right behind it,
/// the first scalar that is not whitespace (if there is one) is an upper-case
/// letter or one of `"` `'` `“` `‘` `#` `-` `*` `•`.
pub proof fn lemma_boundary_is_followed_by_a_sentence_opener(b: Seq<u8>, o: int, k: int)
    requires
        is_sentence_boundary(b, o),
        break_end_at(b, o) <= k < b.len(),
        is_scalar_start(b, k),
        !white_space(scalar_at(b, k)),
        forall|i: int|
            break_end_at(b, o) <= i < k && is_scalar_start(b, i) ==> white_space(#[trigger] scalar_at(b, i)),
    ensures
        ({
            let c = scalar_at(b, k);
            uppercase(c) || c == 0x22 || c == 0x27 || c == 0x201C || c == 0x2018 || c == 0x23 || c == 0x2D
                || c == 0x2A || c == 0x2022
        }),
{
    lemma_first_nonspace_is(b, break_end_at(b, o), b.len() as int, k);
}

/// Every scalar that starts in `[j, x)` is whitespace when `first_nonspace`
/// from `j` finds `x`, and in all of `[j, e)` when it finds none.
proof fn lemma_first_nonspace_skips_spaces(b: Seq<u8>, j: int, e: int)
    ensures
        forall|i: int|
            j <= i < (match first_nonspace(b, j, e) {
                Some(x) => x,
                None => e,
            }) && is_scalar_start(b, i) ==> white_space(#[trigger] scalar_at(b, i)),
    decreases e - j,
{
    if j < e && !(is_scalar_start(b, j) && !white_space(scalar_at(b, j))) {
        lemma_first_nonspace_skips_spaces(b, j + 1, e);
    }
}

/// A sentence terminal (`.` `!` `?` `…`) that is not a period between two
/// digits ends a sentence when, after the closers right behind it, nothing
/// but whitespace follows, or the first scalar that is not whitespace is an
/// upper-case letter or one of `"` `'` `“` `‘` `#` `-` `*` `•`.
pub proof fn lemma_terminal_before_a_sentence_opener_is_a_boundary(b: Seq<u8>, o: int, k: int)
    requires
        is_scalar_start(b, o),
        ({
            let c = scalar_at(b, o);
            c == 0x2E || c == 0x21 || c == 0x3F || c == 0x2026
        }),
        ({
            let te = o + crate::scalars::scalar_width_at(b, o);
            !(o > 0 && is_ascii_digit_byte(b[o - 1]) && te < b.len() && is_ascii_digit_byte(b[te]))
        }),
        break_end_at(b, o) <= k <= b.len(),
        forall|i: int|
            break_end_at(b, o) <= i < k && is_scalar_start(b, i) ==> white_space(#[trigger] scalar_at(b, i)),
        k < b.len() ==> is_scalar_start(b, k) && !white_space(scalar_at(b, k)) && ({
            let c = scalar_at(b, k);
            uppercase(c) || c == 0x22 || c == 0x27 || c == 0x201C || c == 0x2018 || c == 0x23 || c == 0x2D
                || c == 0x2A || c == 0x2022
        }),
        k == b.len() ==> forall|i: int|
            break_end_at(b, o) <= i < b.len() && is_scalar_start(b, i) ==> white_space(#[trigger] scalar_at(b, i)),
    ensures
        is_sentence_boundary(b, o),
{
    if k < b.len() {
        lemma_first_nonspace_is(b, break_end_at(b, o), b.len() as int, k);
    } else {
        lemma_first_nonspace(b, break_end_at(b, o), b.len() as int);
        if let Some(x) = first_nonspace(b, break_end_at(b, o), b.len() as int) {
            assert(white_space(scalar_at(b, x)));
        }
    }
}

/// A period between two ASCII digits (a decimal point) never ends a sentence.
pub proof fn lemma_decimal_point_is_no_boundary(b: Seq<u8>, o: int)
    requires
        0 < o,
        o + 1 < b.len(),
        b[o] == 0x2E,
        is_ascii_digit_byte(b[o - 1]),
        is_ascii_digit_byte(b[o + 1]),
    ensures
        !is_sentence_boundary(b, o),
{
    assert(crate::scalars::tail(b, o)[0] == b[o]);
    assert(crate::scalars::scalar_width_at(b, o) == 1);
}

/// A line is a list item only in the two ways the numbered and bulleted laws
/// describe: confidence 980 when its trimmed text starts with `-`, `*` or
/// `•`, confidence 940 when it starts with ASCII digits followed by `.` or
/// `)`, and no list item otherwise.
pub proof fn lemma_list_item_score_cases(b: Seq<u8>, s: int, e: int)
    requires
        0 <= s <= e <= b.len(),
    ensures
        ({
            let r = list_item_score_spec(b, s, e);
            &&& r is None || r == Some(980u32) || r == Some(940u32)
            &&& r == Some(980u32) ==> exists|t: int|
                s <= t < e && (forall|i: int|
                    s <= i < t && is_scalar_start(b, i) ==> white_space(#[trigger] scalar_at(b, i))) && (#[trigger] b[t]
                    == 0x2D || b[t] == 0x2A || (t + 2 < e && b[t] == 0xE2 && b[t + 1] == 0x80 && b[t + 2]
                    == 0xA2))
            &&& r == Some(940u32) ==> exists|t: int, d: int|
                #![trigger b[t], b[t + d]]
                s <= t && d >= 1 && t + d < e && (forall|i: int|
                    s <= i < t && is_scalar_start(b, i) ==> white_space(#[trigger] scalar_at(b, i))) && (forall|i: int|
                    t <= i < t + d ==> is_ascii_digit_byte(#[trigger] b[i])) && (b[t + d] == 0x2E || b[t + d]
                    == 0x29)
        }),
{
    let t = trim_start_at(b, s, e);
    lemma_first_nonspace(b, s, e);
    lemma_first_nonspace_skips_spaces(b, s, e);
    let d = digit_run(b, t, e) as int;
    lemma_digit_run_digits(b, t, e);
    let r = list_item_score_spec(b, s, e);
    if r == Some(980u32) {
        assert(s <= t < e);
    }
    if r == Some(940u32) {
        assert(s <= t);
        assert(t + d < e);
    }
}

proof fn lemma_digit_run_digits(b: Seq<u8>, j: int, e: int)
    requires
        0 <= j,
        e <= b.len(),
    ensures
        j + digit_run(b, j, e) <= (if j < e { e } else { j }),
        forall|i: int| j <= i < j + digit_run(b, j, e) ==> is_ascii_digit_byte(#[trigger] b[i]),
    decreases e - j,
{
    if j < e && is_ascii_digit_byte(b[j]) {
        lemma_digit_run_digits(b, j + 1, e);
    }
}

/// A line whose text, after leading whitespace, starts with one or more ASCII
/// digits followed by `.` or `)` is a numbered list item, with confidence 940.
pub proof fn lemma_numbered_line_is_a_list_item(b: Seq<u8>, s: int, e: int, t: int, d: int)
    requires
        0 <= s <= t,
        d >= 1,
        t + d < e <= b.len(),
        forall|i: int| s <= i < t && is_scalar_start(b, i) ==> white_space(#[trigger] scalar_at(b, i)),
        forall|i: int| t <= i < t + d ==> is_ascii_digit_byte(#[trigger] b[i]),
        b[t + d] == 0x2E || b[t + d] == 0x29,
    ensures
        list_item_score_spec(b, s, e) == Some(940u32),
{
    assert(is_ascii_digit_byte(b[t]));
    lemma_scalar_at_ascii(b, t);
    lemma_marker_not_white_space(scalar_at(b, t));
    lemma_first_nonspace_is(b, s, e, t);
    assert(trim_start_at(b, s, e) == t);
    lemma_digit_run_is(b, t, e, d);
}

proof fn lemma_digit_run_is(b: Seq<u8>, j: int, e: int, d: int)
    requires
        0 <= j,
        d >= 0,
        j + d < e <= b.len(),
        forall|i: int| j <= i < j + d ==> is_ascii_digit_byte(#[trigger] b[i]),
        !is_ascii_digit_byte(b[j + d]),
    ensures
        digit_run(b, j, e) == d,
    decreases d,
{
    if d > 0 {
        assert(is_ascii_digit_byte(b[j]));
        lemma_digit_run_is(b, j + 1, e, d - 1);
    }
}

/// A line whose text, after leading whitespace, starts with `-`, `*` or `•`
/// is a bulleted list item, with confidence 980.
pub proof fn lemma_bulleted_line_is_a_list_item(b: Seq<u8>, s: int, e: int, t: int)
    requires
        0 <= s <= t < e <= b.len(),
        forall|i: int| s <= i < t && is_scalar_start(b, i) ==> white_space(#[trigger] scalar_at(b, i)),
        b[t] == 0x2D || b[t] == 0x2A || (t + 2 < e && b[t] == 0xE2 && b[t + 1] == 0x80 && b[t + 2] == 0xA2),
    ensures
        list_item_score_spec(b, s, e) == Some(980u32),
{
    if b[t] == 0xE2 {
        lemma_scalar_at_bullet(b, t);
    } else {
        lemma_scalar_at_ascii(b, t);
    }
    lemma_marker_not_white_space(scalar_at(b, t));
    lemma_first_nonspace_is(b, s, e, t);
    assert(trim_start_at(b, s, e) == t);
}

/// No span of `s` crosses a later one.
pub open spec fn no_crossings(s: Seq<AnnotationSpan>) -> bool {
    forall|a: int, c: int| 0 <= a < c < s.len() ==> !crosses(#[trigger] s[a], #[trigger] s[c])
}

/// `s` is strictly increasing.
pub open spec fn increasing(s: Seq<int>) -> bool {
    forall|a: int, c: int| 0 <= a < c < s.len() ==> #[trigger] s[a] < #[trigger] s[c]
}

/// Two strictly increasing sequences with the same elements are equal.
proof fn lemma_increasing_unique(s1: Seq<int>, s2: Seq<int>)
    requires
        increasing(s1),
        increasing(s2),
        forall|x: int| s1.contains(x) <==> s2.contains(x),
    ensures
        s1 == s2,
    decreases s1.len(),
{
    if s1.len() == 0 {
        if s2.len() > 0 {
            assert(s2.contains(s2[0]));
        }
        assert(s1 =~= s2);
    } else if s2.len() == 0 {
        assert(s1.contains(s1[0]));
    } else {
        assert(s1.contains(s1[0]));
        assert(s2.contains(s2[0]));
        let j = choose|j: int| 0 <= j < s2.len() && s2[j] == s1[0];
        let i = choose|i: int| 0 <= i < s1.len() && s1[i] == s2[0];
        if j > 0 {
            assert(s2[0] < s2[j]);
        }
        if i > 0 {
            assert(s1[0] < s1[i]);
        }
        assert(s1[0] == s2[0]);
        let t1 = s1.drop_first();
        let t2 = s2.drop_first();
        assert forall|x: int| t1.contains(x) <==> t2.contains(x) by {
            if t1.contains(x) {
                let k = choose|k: int| 0 <= k < t1.len() && t1[k] == x;
                assert(s1[0] < s1[k + 1]);
                assert(s1.contains(x));
                let m = choose|m: int| 0 <= m < s2.len() && s2[m] == x;
                assert(m != 0);
                assert(t2[m - 1] == x);
            }
            if t2.contains(x) {
                let k = choose|k: int| 0 <= k < t2.len() && t2[k] == x;
                assert(s2[0] < s2[k + 1]);
                assert(s2.contains(x));
                let m = choose|m: int| 0 <= m < s1.len() && s1[m] == x;
                assert(m != 0);
                assert(t1[m - 1] == x);
            }
        }
        assert(increasing(t1)) by {
            assert forall|a: int, c: int| 0 <= a < c < t1.len() implies #[trigger] t1[a] < #[trigger] t1[c] by {
                assert(s1[a + 1] < s1[c + 1]);
            }
        }
        assert(increasing(t2)) by {
            assert forall|a: int, c: int| 0 <= a < c < t2.len() implies #[trigger] t2[a] < #[trigger] t2[c] by {
                assert(s2[a + 1] < s2[c + 1]);
            }
        }
        lemma_increasing_unique(t1, t2);
        assert(s1 =~= s2) by {
            assert forall|k: int| 0 <= k < s1.len() implies s1[k] == s2[k] by {
                if k > 0 {
                    assert(s1[k] == t1[k - 1]);
                    assert(s2[k] == t2[k - 1]);
                }
            }
        }
    }
}

/// Span `j` is picked by one crossing filter exactly when it is picked by another.
proof fn lemma_filter_member(
    spans: Seq<AnnotationSpan>,
    acc1: Seq<AnnotationSpan>,
    idx1: Seq<int>,
    acc2: Seq<AnnotationSpan>,
    idx2: Seq<int>,
    j: int,
)
    requires
        crossing_filter(spans, acc1, idx1),
        crossing_filter(spans, acc2, idx2),
        no_crossings(acc1),
        no_crossings(acc2),
        0 <= j < spans.len(),
    ensures
        idx1.contains(j) <==> idx2.contains(j),
    decreases j, 1int,
{
    if idx1.contains(j) && !idx2.contains(j) {
        lemma_filter_member_half(spans, acc1, idx1, acc2, idx2, j);
    }
    if idx2.contains(j) && !idx1.contains(j) {
        lemma_filter_member_half(spans, acc2, idx2, acc1, idx1, j);
    }
}

proof fn lemma_filter_member_half(
    spans: Seq<AnnotationSpan>,
    acc1: Seq<AnnotationSpan>,
    idx1: Seq<int>,
    acc2: Seq<AnnotationSpan>,
    idx2: Seq<int>,
    j: int,
)
    requires
        crossing_filter(spans, acc1, idx1),
        crossing_filter(spans, acc2, idx2),
        no_crossings(acc1),
        no_crossings(acc2),
        0 <= j < spans.len(),
        idx1.contains(j),
    ensures
        idx2.contains(j),
    decreases j, 0int,
{
    if !idx2.contains(j) {
        assert(covered(spans, acc2, idx2, j));
        let k = choose|k: int| 0 <= k < idx2.len() && idx2[k] < j && #[trigger] crosses(acc2[k], spans[j]);
        let jp = idx2[k];
        assert(idx2.contains(jp));
        lemma_filter_member(spans, acc1, idx1, acc2, idx2, jp);
        let k1 = choose|k1: int| 0 <= k1 < idx1.len() && idx1[k1] == jp;
        let k0 = choose|k0: int| 0 <= k0 < idx1.len() && idx1[k0] == j;
        if k1 >= k0 {
            if k1 > k0 {
                assert(idx1[k0] < idx1[k1]);
            }
        }
        assert(k1 < k0);
        assert(!crosses(acc1[k1], acc1[k0]));
        assert(acc1[k1] == spans[jp]);
        assert(acc2[k] == spans[jp]);
    }
}

/// A crossing filter's result is determined by the spans it filters.
proof fn lemma_crossing_filter_unique(
    spans: Seq<AnnotationSpan>,
    acc1: Seq<AnnotationSpan>,
    idx1: Seq<int>,
    acc2: Seq<AnnotationSpan>,
    idx2: Seq<int>,
)
    requires
        crossing_filter(spans, acc1, idx1),
        crossing_filter(spans, acc2, idx2),
        no_crossings(acc1),
        no_crossings(acc2),
    ensures
        acc1 == acc2,
{
    assert forall|x: int| idx1.contains(x) <==> idx2.contains(x) by {
        if 0 <= x < spans.len() {
            lemma_filter_member(spans, acc1, idx1, acc2, idx2, x);
        }
    }
    lemma_increasing_unique(idx1, idx2);
    assert(acc1 =~= acc2) by {
        assert forall|k: int| 0 <= k < acc1.len() implies acc1[k] == acc2[k] by {
            assert(acc1[k] == spans[idx1[k]]);
            assert(acc2[k] == spans[idx2[k]]);
        }
    }
}

/// Normalizing is a function of its input: two results for the same text,
/// spans and minimum length are the same.
pub proof fn lemma_normalizing_is_determined(
    b: Seq<u8>,
    input: Seq<AnnotationSpan>,
    r1: Seq<AnnotationSpan>,
    r2: Seq<AnnotationSpan>,
    min: int,
)
    requires
        normalizes(b, input, r1, min),
        normalizes(b, input, r2, min),
    ensures
        r1 == r2,
{
    let sorted = crate::segment::stable_sorted(
        crate::segment::SpanOrder::StartEndPriority,
        crate::segment::keep_valid(b, input, min, input.len() as int),
    );
    let idx1 = choose|idx: Seq<int>| #[trigger] crossing_filter(sorted, r1, idx);
    let idx2 = choose|idx: Seq<int>| #[trigger] crossing_filter(sorted, r2, idx);
    lemma_crossing_filter_unique(sorted, r1, idx1, r2, idx2);
}

/// A tag event sits at its span's start when it opens it, at its end when it closes it.
pub open spec fn event_in_place(e: RenderEvent) -> bool {
    e.position == if e.kind == RenderEventKind::Open {
        e.start
    } else {
        e.end
    }
}

proof fn lemma_event_le_antisymmetric(a: RenderEvent, c: RenderEvent)
    requires
        event_in_place(a),
        event_in_place(c),
        event_le(a, c),
        event_le(c, a),
    ensures
        a == c,
{
    assert(crate::segment::priority(a.label) == crate::segment::priority(c.label) ==> a.label == c.label);
}

proof fn lemma_events_of_in_place(kept: Seq<AnnotationSpan>)
    ensures
        forall|k: int| 0 <= k < events_of(kept).len() ==> event_in_place(#[trigger] events_of(kept)[k]),
    decreases kept.len(),
{
    if kept.len() > 0 {
        lemma_events_of_in_place(kept.drop_last());
        let prev = events_of(kept.drop_last());
        assert forall|k: int| 0 <= k < events_of(kept).len() implies event_in_place(#[trigger] events_of(kept)[k]) by {
            if k < prev.len() {
                assert(events_of(kept)[k] == prev[k]);
            }
        }
    }
}

/// Events in tag order are determined by which events they are.
proof fn lemma_sorted_events_unique(s1: Seq<RenderEvent>, s2: Seq<RenderEvent>)
    requires
        forall|i: int, j: int| 0 <= i < j < s1.len() ==> event_le(#[trigger] s1[i], #[trigger] s1[j]),
        forall|i: int, j: int| 0 <= i < j < s2.len() ==> event_le(#[trigger] s2[i], #[trigger] s2[j]),
        forall|k: int| 0 <= k < s1.len() ==> event_in_place(#[trigger] s1[k]),
        s1.to_multiset() == s2.to_multiset(),
    ensures
        s1 == s2,
    decreases s1.len(),
{
    broadcast use vstd::seq_lib::group_to_multiset_ensures;

    vstd::seq_lib::to_multiset_len(s1);
    vstd::seq_lib::to_multiset_len(s2);
    if s1.len() == 0 {
        assert(s1 =~= s2);
    } else {
        let a = s1[0];
        let c = s2[0];
        assert(s2.to_multiset().count(c) > 0);
        assert(s1.contains(c));
        let i = choose|i: int| 0 <= i < s1.len() && s1[i] == c;
        assert(s1.to_multiset().count(a) > 0);
        assert(s2.contains(a));
        let j = choose|j: int| 0 <= j < s2.len() && s2[j] == a;
        if i > 0 {
            assert(event_le(s1[0], s1[i]));
        } else {
            assert(event_le(a, a));
        }
        if j > 0 {
            assert(event_le(s2[0], s2[j]));
        } else {
            assert(event_le(c, c));
        }
        assert(event_in_place(s1[i]));
        lemma_event_le_antisymmetric(a, c);
        let t1 = s1.drop_first();
        let t2 = s2.drop_first();
        assert(t1 == s1.remove(0));
        assert(t2 == s2.remove(0));
        assert(t1.to_multiset() == t2.to_multiset());
        assert forall|x: int, y: int| 0 <= x < y < t1.len() implies event_le(#[trigger] t1[x], #[trigger] t1[y]) by {
            assert(event_le(s1[x + 1], s1[y + 1]));
        }
        assert forall|x: int, y: int| 0 <= x < y < t2.len() implies event_le(#[trigger] t2[x], #[trigger] t2[y]) by {
            assert(event_le(s2[x + 1], s2[y + 1]));
        }
        assert forall|k: int| 0 <= k < t1.len() implies event_in_place(#[trigger] t1[k]) by {
            assert(event_in_place(s1[k + 1]));
        }
        lemma_sorted_events_unique(t1, t2);
        assert(s1 =~= s2) by {
            assert forall|k: int| 0 <= k < s1.len() implies s1[k] == s2[k] by {
                if k > 0 {
                    assert(s1[k] == t1[k - 1]);
                    assert(s2[k] == t2[k - 1]);
                }
            }
        }
    }
}

/// Rendering is a function of the text and the spans: two event sequences
/// that both render the same spans over the same text are the same, so the
/// tagged text is too.
pub proof fn lemma_rendering_is_determined(
    b: Seq<u8>,
    spans: Seq<AnnotationSpan>,
    ev1: Seq<RenderEvent>,
    ev2: Seq<RenderEvent>,
)
    requires
        renders(b, spans, ev1),
        renders(b, spans, ev2),
    ensures
        ev1 == ev2,
{
    broadcast use vstd::seq_lib::group_to_multiset_ensures;

    let kept1 = choose|kept: Seq<AnnotationSpan>|
        #[trigger] normalizes(b, spans, kept, 1) && ev1.to_multiset() == events_of(kept).to_multiset();
    let kept2 = choose|kept: Seq<AnnotationSpan>|
        #[trigger] normalizes(b, spans, kept, 1) && ev2.to_multiset() == events_of(kept).to_multiset();
    lemma_normalizing_is_determined(b, spans, kept1, kept2, 1);
    lemma_events_of_in_place(kept1);
    assert forall|k: int| 0 <= k < ev1.len() implies event_in_place(#[trigger] ev1[k]) by {
        let e = ev1[k];
        assert(ev1.to_multiset().count(e) > 0);
        assert(events_of(kept1).contains(e));
        let m = choose|m: int| 0 <= m < events_of(kept1).len() && events_of(kept1)[m] == e;
        assert(event_in_place(events_of(kept1)[m]));
    }
    lemma_sorted_events_unique(ev1, ev2);
}

/// The feature positions of a list of sentence boundaries.
spec fn feature_positions(c: Seq<SentenceBoundaryCandidate>) -> Seq<int> {
    Seq::new(c.len(), |k: int| c[k].feature_pos as int)
}

/// The sentence boundaries of a text are listed in one way only.
proof fn lemma_sentence_boundaries_unique(
    b: Seq<u8>,
    c1: Seq<SentenceBoundaryCandidate>,
    c2: Seq<SentenceBoundaryCandidate>,
)
    requires
        lists_sentence_boundaries(b, c1),
        lists_sentence_boundaries(b, c2),
    ensures
        c1 == c2,
{
    let f1 = feature_positions(c1);
    let f2 = feature_positions(c2);
    assert(increasing(f1)) by {
        assert forall|a: int, d: int| 0 <= a < d < f1.len() implies #[trigger] f1[a] < #[trigger] f1[d] by {
            assert(c1[a].feature_pos < c1[d].feature_pos);
        }
    }
    assert(increasing(f2)) by {
        assert forall|a: int, d: int| 0 <= a < d < f2.len() implies #[trigger] f2[a] < #[trigger] f2[d] by {
            assert(c2[a].feature_pos < c2[d].feature_pos);
        }
    }
    assert forall|x: int| f1.contains(x) <==> f2.contains(x) by {
        if f1.contains(x) {
            let k = choose|k: int| 0 <= k < f1.len() && f1[k] == x;
            assert(crate::segment::is_sentence_boundary(b, c1[k].feature_pos as int));
            let m = choose|m: int| 0 <= m < c2.len() && #[trigger] c2[m].feature_pos == x;
            assert(f2[m] == x);
        }
        if f2.contains(x) {
            let k = choose|k: int| 0 <= k < f2.len() && f2[k] == x;
            assert(crate::segment::is_sentence_boundary(b, c2[k].feature_pos as int));
            let m = choose|m: int| 0 <= m < c1.len() && #[trigger] c1[m].feature_pos == x;
            assert(f1[m] == x);
        }
    }
    lemma_increasing_unique(f1, f2);
    assert(c1.len() == f1.len() && c2.len() == f2.len());
    assert(c1 =~= c2) by {
        assert forall|k: int| 0 <= k < c1.len() implies c1[k] == c2[k] by {
            assert(f1[k] == f2[k]);
            assert(c1[k].break_end == crate::segment::break_end_at(b, c1[k].feature_pos as int));
            assert(c2[k].break_end == crate::segment::break_end_at(b, c2[k].feature_pos as int));
        }
    }
}

/// The sentences of a text outside given spans are found in one way only.
pub proof fn lemma_sentences_are_determined(
    b: Seq<u8>,
    suppress: Seq<AnnotationSpan>,
    r1: Seq<(usize, usize)>,
    r2: Seq<(usize, usize)>,
)
    requires
        sentence_ranges(b, suppress, r1),
        sentence_ranges(b, suppress, r2),
    ensures
        r1 == r2,
{
    let c1 = choose|c: Seq<SentenceBoundaryCandidate>|
        #[trigger] lists_sentence_boundaries(b, c) && r1 == crate::segment::sentence_walk(
            b,
            c,
            suppress,
            0,
            crate::segment::allowed_from(b, 0, suppress),
        );
    let c2 = choose|c: Seq<SentenceBoundaryCandidate>|
        #[trigger] lists_sentence_boundaries(b, c) && r2 == crate::segment::sentence_walk(
            b,
            c,
            suppress,
            0,
            crate::segment::allowed_from(b, 0, suppress),
        );
    lemma_sentence_boundaries_unique(b, c1, c2);
}

/// Segmenting is a function of the configuration and the text: the default
/// segmenter's spans for a text are one list only.
pub proof fn lemma_segments_are_determined(
    cfg: SegmenterConfig,
    b: Seq<u8>,
    r1: Seq<AnnotationSpan>,
    r2: Seq<AnnotationSpan>,
)
    requires
        segments(cfg, b, r1),
        segments(cfg, b, r2),
    ensures
        r1 == r2,
{
    let (st1, sent1) = choose|st: Seq<AnnotationSpan>, sent: Seq<(usize, usize)>|
        #![trigger crate::segment::resolves_to(crate::segment::structural_candidates(cfg, b), st), crate::segment::gathered_spans(cfg, b, st, sent)]
        crate::segment::resolves_to(crate::segment::structural_candidates(cfg, b), st) && (cfg.include_sentences ==> sentence_ranges(
            b,
            if cfg.suppress_sentences_in_structural_spans {
                crate::segment::suppressing(st, st.len() as int)
            } else {
                Seq::empty()
            },
            sent,
        )) && normalizes(b, crate::segment::gathered_spans(cfg, b, st, sent), r1, cfg.min_span_bytes as int);
    let (st2, sent2) = choose|st: Seq<AnnotationSpan>, sent: Seq<(usize, usize)>|
        #![trigger crate::segment::resolves_to(crate::segment::structural_candidates(cfg, b), st), crate::segment::gathered_spans(cfg, b, st, sent)]
        crate::segment::resolves_to(crate::segment::structural_candidates(cfg, b), st) && (cfg.include_sentences ==> sentence_ranges(
            b,
            if cfg.suppress_sentences_in_structural_spans {
                crate::segment::suppressing(st, st.len() as int)
            } else {
                Seq::empty()
            },
            sent,
        )) && normalizes(b, crate::segment::gathered_spans(cfg, b, st, sent), r2, cfg.min_span_bytes as int);
    assert(st1 == st2);
    if cfg.include_sentences {
        let sup = if cfg.suppress_sentences_in_structural_spans {
            crate::segment::suppressing(st1, st1.len() as int)
        } else {
            Seq::empty()
        };
        lemma_sentences_are_determined(b, sup, sent1, sent2);
    }
    assert(crate::segment::gathered_spans(cfg, b, st1, sent1) == crate::segment::gathered_spans(cfg, b, st2, sent2));
    lemma_normalizing_is_determined(
        b,
        crate::segment::gathered_spans(cfg, b, st1, sent1),
        r1,
        r2,
        cfg.min_span_bytes as int,
    );
}

/// The tag that opens `x`.
pub open spec fn open_tag(x: AnnotationSpan) -> RenderEvent {
    RenderEvent { position: x.start, label: x.label, start: x.start, end: x.end, kind: RenderEventKind::Open }
}

/// The tag that closes `x`.
pub open spec fn close_tag(x: AnnotationSpan) -> RenderEvent {
    RenderEvent { position: x.end, label: x.label, start: x.start, end: x.end, kind: RenderEventKind::Close }
}

/// Two spans that share an edge agree with the label ranks: of two spans
/// with the same start, the longer one ranks no lower; of two with the same
/// end, the one that starts first ranks no lower.
pub open spec fn ranks_agree(x: AnnotationSpan, y: AnnotationSpan) -> bool {
    &&& (x.start == y.start && x.end > y.end ==> crate::segment::priority(x.label) <= crate::segment::priority(y.label))
    &&& (x.start == y.start && y.end > x.end ==> crate::segment::priority(y.label) <= crate::segment::priority(x.label))
    &&& (x.end == y.end && x.start < y.start ==> crate::segment::priority(x.label) <= crate::segment::priority(y.label))
    &&& (x.end == y.end && y.start < x.start ==> crate::segment::priority(y.label) <= crate::segment::priority(x.label))
}

/// Tags nest: for two non-empty spans that do not cross and whose shared
/// edges agree with the label ranks, the tag order puts one pair of tags
/// wholly before the other or wholly inside it.
pub proof fn lemma_tags_nest(x: AnnotationSpan, y: AnnotationSpan)
    requires
        x.start < x.end,
        y.start < y.end,
        !crosses(x, y),
        !crosses(y, x),
        ranks_agree(x, y),
    ensures
        event_le(close_tag(x), open_tag(y)) || event_le(close_tag(y), open_tag(x)) || (event_le(
            open_tag(x),
            open_tag(y),
        ) && event_le(close_tag(y), close_tag(x))) || (event_le(open_tag(y), open_tag(x)) && event_le(
            close_tag(x),
            close_tag(y),
        )),
{
}

} // verus!
