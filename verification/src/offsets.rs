use vstd::prelude::*;
use vstd::string::StringSliceAdditionalSpecFns;
use vstd::utf8::*;

use crate::segment::{label_name, render_spans, rendered_from, renders, AnnotationSpan, Label, RenderEvent};
use crate::text::scalars_before;
use crate::textops::is_boundary;

verus! {

/// The label whose tag name is `name`, if any.
pub fn parse_label(name: &str) -> (r: Option<Label>)
    ensures
        r matches Some(l) ==> name@ == label_name(l),
        r is None <==> forall|l: Label| name@ != #[trigger] label_name(l),
{
    let owned = name.to_owned();
    let candidates = [
        Label::Paragraph,
        Label::Metadata,
        Label::Section,
        Label::ListItem,
        Label::Dialogue,
        Label::Sentence,
    ];
    let mut k: usize = 0;
    while k < 6
        invariant
            k <= 6,
            owned@ == name@,
            candidates@ == seq![
                Label::Paragraph,
                Label::Metadata,
                Label::Section,
                Label::ListItem,
                Label::Dialogue,
                Label::Sentence,
            ],
            forall|j: int| 0 <= j < k ==> name@ != #[trigger] label_name(candidates@[j]),
        decreases 6 - k,
    {
        let l = candidates[k];
        let tag = l.as_str().to_owned();
        if owned == tag {
            return Some(l);
        }
        k = k + 1;
    }
    proof {
        assert forall|l: Label| name@ != #[trigger] label_name(l) by {
            let j: int = match l {
                Label::Paragraph => 0,
                Label::Metadata => 1,
                Label::Section => 2,
                Label::ListItem => 3,
                Label::Dialogue => 4,
                Label::Sentence => 5,
            };
            assert(candidates@[j] == l);
        }
    }
    None
}

/// Character counts of every prefix of `bytes`: entry `i` is `scalars_before(bytes, i)`.
fn prefix_char_counts(bytes: &[u8]) -> (prefix: Vec<usize>)
    ensures
        prefix@.len() == bytes@.len() + 1,
        forall|i: int| 0 <= i <= bytes@.len() ==> #[trigger] prefix@[i] == scalars_before(bytes@, i),
{
    let n = bytes.len();
    let mut prefix: Vec<usize> = Vec::new();
    prefix.push(0);
    let mut c: usize = 0;
    let mut i: usize = 0;
    while i < n
        invariant
            i <= n == bytes@.len(),
            prefix@.len() == i + 1,
            c == scalars_before(bytes@, i as int),
            c <= i,
            forall|j: int| 0 <= j <= i ==> #[trigger] prefix@[j] == scalars_before(bytes@, j),
        decreases n - i,
    {
        if !(bytes[i] >= 0x80 && bytes[i] <= 0xBF) {
            c = c + 1;
        }
        prefix.push(c);
        i = i + 1;
    }
    prefix
}

/// The character index of each byte offset of `text`.
///
/// Every offset must lie on a character boundary (the end of the text counts);
/// otherwise the smallest offset that does not is returned as the error.
pub fn byte_offsets_to_char_indices(text: &str, offsets: &[usize]) -> (r: Result<Vec<usize>, usize>)
    ensures
        ({
            let b = text.spec_bytes();
            &&& r is Ok <==> forall|k: int| 0 <= k < offsets@.len() ==> is_boundary(b, #[trigger] offsets@[k] as int)
            &&& r matches Ok(v) ==> v@.len() == offsets@.len() && forall|k: int|
                0 <= k < offsets@.len() ==> #[trigger] v@[k] == scalars_before(b, offsets@[k] as int)
            &&& r matches Err(x) ==> {
                &&& !is_boundary(b, x as int)
                &&& exists|k: int| 0 <= k < offsets@.len() && #[trigger] offsets@[k] == x
                &&& forall|k: int|
                    0 <= k < offsets@.len() && #[trigger] offsets@[k] < x ==> is_boundary(b, offsets@[k] as int)
            }
        }),
{
    let bytes = text.as_bytes();
    let ghost b = bytes@;
    let n = bytes.len();
    let prefix = prefix_char_counts(bytes);
    let mut out: Vec<usize> = Vec::new();
    let mut bad: Option<usize> = None;
    let mut k: usize = 0;
    while k < offsets.len()
        invariant
            b == text.spec_bytes(),
            bytes@ == b,
            n == b.len(),
            prefix@.len() == n + 1,
            forall|i: int| 0 <= i <= n ==> #[trigger] prefix@[i] == scalars_before(b, i),
            k <= offsets@.len(),
            bad is None <==> forall|j: int| 0 <= j < k ==> is_boundary(b, #[trigger] offsets@[j] as int),
            bad is None ==> out@.len() == k && forall|j: int|
                0 <= j < k ==> #[trigger] out@[j] == scalars_before(b, offsets@[j] as int),
            bad matches Some(x) ==> {
                &&& !is_boundary(b, x as int)
                &&& exists|j: int| 0 <= j < k && #[trigger] offsets@[j] == x
                &&& forall|j: int| 0 <= j < k && #[trigger] offsets@[j] < x ==> is_boundary(b, offsets@[j] as int)
            },
        decreases offsets@.len() - k,
    {
        let o = offsets[k];
        let on_boundary = o <= n && (o == 0 || o == n || !(bytes[o] >= 0x80 && bytes[o] <= 0xBF));
        assert(on_boundary == is_boundary(b, offsets@[k as int] as int));
        if on_boundary {
            if bad.is_none() {
                out.push(prefix[o]);
            }
        } else {
            let keep = match bad {
                Some(x) => x <= o,
                None => false,
            };
            if !keep {
                bad = Some(o);
            }
        }
        k = k + 1;
    }
    match bad {
        Some(x) => Err(x),
        None => Ok(out),
    }
}

/// The byte offsets of the boundaries before each character of `bytes`, and of its end.
fn boundary_offsets(bytes: &[u8]) -> (pos: Vec<usize>)
    ensures
        scalars_before(bytes@, bytes@.len() as int) >= 0,
        pos@.len() == scalars_before(bytes@, bytes@.len() as int) + 1,
        forall|c: int|
            0 <= c < pos@.len() ==> {
                &&& #[trigger] pos@[c] <= bytes@.len()
                &&& is_boundary(bytes@, pos@[c] as int)
                &&& scalars_before(bytes@, pos@[c] as int) == c
            },
{
    let n = bytes.len();
    let mut pos: Vec<usize> = Vec::new();
    let mut i: usize = 0;
    while i < n
        invariant
            i <= n == bytes@.len(),
            pos@.len() == scalars_before(bytes@, i as int),
            pos@.len() <= i,
            forall|c: int|
                0 <= c < pos@.len() ==> {
                    &&& #[trigger] pos@[c] < i
                    &&& is_boundary(bytes@, pos@[c] as int)
                    &&& scalars_before(bytes@, pos@[c] as int) == c
                },
        decreases n - i,
    {
        if !(bytes[i] >= 0x80 && bytes[i] <= 0xBF) {
            pos.push(i);
        }
        i = i + 1;
    }
    pos.push(n);
    pos
}

/// The byte offset of each character index of `text` (the number of
/// characters itself stands for the end of the text).
///
/// An index past the number of characters fails; the smallest such index is
/// returned as the error.
pub fn char_indices_to_byte_offsets(text: &str, indices: &[usize]) -> (r: Result<Vec<usize>, usize>)
    ensures
        ({
            let b = text.spec_bytes();
            let total = scalars_before(b, b.len() as int);
            &&& r is Ok <==> forall|k: int| 0 <= k < indices@.len() ==> #[trigger] indices@[k] <= total
            &&& r matches Ok(v) ==> v@.len() == indices@.len() && forall|k: int|
                0 <= k < indices@.len() ==> {
                    &&& #[trigger] v@[k] <= b.len()
                    &&& is_boundary(b, v@[k] as int)
                    &&& scalars_before(b, v@[k] as int) == indices@[k]
                }
            &&& r matches Err(x) ==> {
                &&& x > total
                &&& exists|k: int| 0 <= k < indices@.len() && #[trigger] indices@[k] == x
                &&& forall|k: int| 0 <= k < indices@.len() && #[trigger] indices@[k] < x ==> indices@[k] <= total
            }
        }),
{
    let bytes = text.as_bytes();
    let ghost b = bytes@;
    let pos = boundary_offsets(bytes);
    let count = pos.len() - 1;
    let mut out: Vec<usize> = Vec::new();
    let mut bad: Option<usize> = None;
    let mut k: usize = 0;
    while k < indices.len()
        invariant
            b == text.spec_bytes(),
            count == scalars_before(b, b.len() as int),
            pos@.len() == count + 1,
            forall|c: int|
                0 <= c < pos@.len() ==> {
                    &&& #[trigger] pos@[c] <= b.len()
                    &&& is_boundary(b, pos@[c] as int)
                    &&& scalars_before(b, pos@[c] as int) == c
                },
            k <= indices@.len(),
            bad is None <==> forall|j: int| 0 <= j < k ==> #[trigger] indices@[j] <= count,
            bad is None ==> out@.len() == k && forall|j: int|
                0 <= j < k ==> {
                    &&& #[trigger] out@[j] <= b.len()
                    &&& is_boundary(b, out@[j] as int)
                    &&& scalars_before(b, out@[j] as int) == indices@[j]
                },
            bad matches Some(x) ==> {
                &&& x > count
                &&& exists|j: int| 0 <= j < k && #[trigger] indices@[j] == x
                &&& forall|j: int| 0 <= j < k && #[trigger] indices@[j] < x ==> indices@[j] <= count
            },
        decreases indices@.len() - k,
    {
        let c = indices[k];
        if c <= count {
            if bad.is_none() {
                out.push(pos[c]);
            }
        } else {
            let keep = match bad {
                Some(x) => x <= c,
                None => false,
            };
            if !keep {
                bad = Some(c);
            }
        }
        k = k + 1;
    }
    match bad {
        Some(x) => Err(x),
        None => Ok(out),
    }
}

/// A span given by character offsets as well as byte offsets.
#[derive(Clone, Copy, Debug, PartialEq, Eq, Structural)]
pub struct CharOffsetSpan {
    pub label: Label,
    pub start: usize,
    pub end: usize,
    pub start_byte: usize,
    pub end_byte: usize,
    pub score: u32,
}

/// The starts of `spans`, followed by their ends.
fn span_endpoints(spans: &[AnnotationSpan]) -> (v: Vec<usize>)
    requires
        spans@.len() <= usize::MAX / 2,
    ensures
        v@.len() == 2 * spans@.len(),
        forall|k: int|
            #![trigger spans@[k]]
            0 <= k < spans@.len() ==> v@[k] == spans@[k].start && v@[spans@.len() + k] == spans@[k].end,
{
    let n = spans.len();
    let mut v: Vec<usize> = Vec::new();
    let mut k: usize = 0;
    while k < n
        invariant
            n == spans@.len(),
            k <= n,
            v@.len() == k,
            forall|j: int| #![trigger spans@[j]] 0 <= j < k ==> v@[j] == spans@[j].start,
        decreases n - k,
    {
        v.push(spans[k].start);
        k = k + 1;
    }
    let mut k: usize = 0;
    while k < n
        invariant
            n == spans@.len(),
            n <= usize::MAX / 2,
            k <= n,
            v@.len() == n + k,
            forall|j: int| #![trigger spans@[j]] 0 <= j < n ==> v@[j] == spans@[j].start,
            forall|j: int| #![trigger spans@[j]] 0 <= j < k ==> v@[n + j] == spans@[j].end,
        decreases n - k,
    {
        v.push(spans[k].end);
        k = k + 1;
    }
    v
}

/// Gives each span its character offsets beside its byte offsets.
///
/// Every start and end must lie on a character boundary (the end of the text
/// counts); otherwise the smallest offset that does not is returned as the error.
pub fn spans_with_char_offsets(text: &str, spans: &[AnnotationSpan]) -> (r: Result<Vec<CharOffsetSpan>, usize>)
    requires
        spans@.len() <= usize::MAX / 2,
    ensures
        ({
            let b = text.spec_bytes();
            &&& r is Ok <==> forall|k: int|
                #![trigger spans@[k]]
                0 <= k < spans@.len() ==> is_boundary(b, spans@[k].start as int) && is_boundary(
                    b,
                    spans@[k].end as int,
                )
            &&& r matches Ok(v) ==> v@.len() == spans@.len() && forall|k: int|
                #![trigger v@[k]]
                0 <= k < spans@.len() ==> {
                    &&& v@[k].label == spans@[k].label
                    &&& v@[k].start == scalars_before(b, spans@[k].start as int)
                    &&& v@[k].end == scalars_before(b, spans@[k].end as int)
                    &&& v@[k].start_byte == spans@[k].start
                    &&& v@[k].end_byte == spans@[k].end
                    &&& v@[k].score == spans@[k].score
                }
            &&& r matches Err(x) ==> {
                &&& !is_boundary(b, x as int)
                &&& exists|k: int|
                    #![trigger spans@[k]]
                    0 <= k < spans@.len() && (spans@[k].start == x || spans@[k].end == x)
                &&& forall|k: int|
                    #![trigger spans@[k]]
                    0 <= k < spans@.len() ==> (spans@[k].start < x ==> is_boundary(b, spans@[k].start as int))
                        && (spans@[k].end < x ==> is_boundary(b, spans@[k].end as int))
            }
        }),
{
    let ghost b = text.spec_bytes();
    let n = spans.len();
    let ends = span_endpoints(spans);
    let converted = byte_offsets_to_char_indices(text, ends.as_slice());
    match converted {
        Err(x) => {
            proof {
                let j = choose|j: int| 0 <= j < ends@.len() && #[trigger] ends@[j] == x;
                if j < n {
                    assert(spans@[j].start == x);
                } else {
                    assert(spans@[j - n].end == x);
                }
                assert forall|k: int|
                    #![trigger spans@[k]]
                    0 <= k < spans@.len() implies (spans@[k].start < x ==> is_boundary(b, spans@[k].start as int))
                        && (spans@[k].end < x ==> is_boundary(b, spans@[k].end as int)) by {
                    assert(ends@[k] == spans@[k].start);
                    assert(ends@[n + k] == spans@[k].end);
                }
                assert(!(forall|j: int| 0 <= j < ends@.len() ==> is_boundary(b, #[trigger] ends@[j] as int)));
                if forall|k: int|
                    #![trigger spans@[k]]
                    0 <= k < spans@.len() ==> is_boundary(b, spans@[k].start as int) && is_boundary(
                        b,
                        spans@[k].end as int,
                    ) {
                    assert forall|j: int| 0 <= j < ends@.len() implies is_boundary(b, #[trigger] ends@[j] as int) by {
                        if j < n {
                            assert(ends@[j] == spans@[j].start);
                        } else {
                            assert(ends@[n + (j - n)] == spans@[j - n].end);
                        }
                    }
                }
            }
            Err(x)
        },
        Ok(chars) => {
            let mut out: Vec<CharOffsetSpan> = Vec::new();
            let mut k: usize = 0;
            while k < n
                invariant
                    n == spans@.len(),
                    n <= usize::MAX / 2,
                    chars@.len() == 2 * n,
                    ends@.len() == 2 * n,
                    forall|j: int|
                        #![trigger spans@[j]]
                        0 <= j < n ==> ends@[j] == spans@[j].start && ends@[n + j] == spans@[j].end,
                    forall|j: int| 0 <= j < ends@.len() ==> #[trigger] chars@[j] == scalars_before(b, ends@[j] as int),
                    forall|j: int| 0 <= j < ends@.len() ==> is_boundary(b, #[trigger] ends@[j] as int),
                    k <= n,
                    out@.len() == k,
                    forall|j: int|
                        #![trigger out@[j]]
                        0 <= j < k ==> {
                            &&& out@[j].label == spans@[j].label
                            &&& out@[j].start == scalars_before(b, spans@[j].start as int)
                            &&& out@[j].end == scalars_before(b, spans@[j].end as int)
                            &&& out@[j].start_byte == spans@[j].start
                            &&& out@[j].end_byte == spans@[j].end
                            &&& out@[j].score == spans@[j].score
                        },
                decreases n - k,
            {
                let span = spans[k];
                assert(ends@[k as int] == spans@[k as int].start);
                assert(chars@[k as int] == scalars_before(b, ends@[k as int] as int));
                assert(chars@[n + k] == scalars_before(b, ends@[n + k] as int));
                out.push(
                    CharOffsetSpan {
                        label: span.label,
                        start: chars[k],
                        end: chars[n + k],
                        start_byte: span.start,
                        end_byte: span.end,
                        score: span.score,
                    },
                );
                k = k + 1;
            }
            proof {
                assert forall|k: int|
                    #![trigger spans@[k]]
                    0 <= k < spans@.len() implies is_boundary(b, spans@[k].start as int) && is_boundary(
                        b,
                        spans@[k].end as int,
                    ) by {
                    assert(ends@[k] == spans@[k].start);
                    assert(ends@[n + k] == spans@[k].end);
                }
            }
            Ok(out)
        },
    }
}

/// Renders inline tags for spans whose `start` and `end` count characters
/// rather than bytes: each offset is turned into the byte offset of that
/// character boundary, then the spans are rendered as by `render_spans`.
///
/// An offset past the number of characters fails; the smallest such offset is
/// returned as the error.
pub fn render_char_spans(text: &str, spans: &[AnnotationSpan]) -> (r: Result<String, usize>)
    requires
        spans@.len() <= usize::MAX / 2,
    ensures
        ({
            let b = text.spec_bytes();
            let total = scalars_before(b, b.len() as int);
            &&& r is Ok <==> forall|k: int|
                #![trigger spans@[k]]
                0 <= k < spans@.len() ==> spans@[k].start <= total && spans@[k].end <= total
            &&& r matches Ok(tagged) ==> exists|bytes_spans: Seq<AnnotationSpan>, ev: Seq<RenderEvent>|
                {
                    &&& bytes_spans.len() == spans@.len()
                    &&& forall|k: int|
                        #![trigger bytes_spans[k]]
                        0 <= k < spans@.len() ==> {
                            &&& bytes_spans[k].label == spans@[k].label
                            &&& bytes_spans[k].score == spans@[k].score
                            &&& is_boundary(b, bytes_spans[k].start as int)
                            &&& is_boundary(b, bytes_spans[k].end as int)
                            &&& scalars_before(b, bytes_spans[k].start as int) == spans@[k].start
                            &&& scalars_before(b, bytes_spans[k].end as int) == spans@[k].end
                        }
                    &&& #[trigger] renders(b, bytes_spans, ev)
                    &&& tagged@ == decode_utf8(rendered_from(b, 0, ev))
                }
            &&& r matches Err(x) ==> {
                &&& x > total
                &&& exists|k: int|
                    #![trigger spans@[k]]
                    0 <= k < spans@.len() && (spans@[k].start == x || spans@[k].end == x)
                &&& forall|k: int|
                    #![trigger spans@[k]]
                    0 <= k < spans@.len() ==> (spans@[k].start < x ==> spans@[k].start <= total) && (
                    spans@[k].end < x ==> spans@[k].end <= total)
            }
        }),
{
    let ghost b = text.spec_bytes();
    let ghost total = scalars_before(b, b.len() as int);
    let n = spans.len();
    let ends = span_endpoints(spans);
    let converted = char_indices_to_byte_offsets(text, ends.as_slice());
    match converted {
        Err(x) => {
            proof {
                let j = choose|j: int| 0 <= j < ends@.len() && #[trigger] ends@[j] == x;
                if j < n {
                    assert(spans@[j].start == x);
                } else {
                    assert(spans@[j - n].end == x);
                }
                assert forall|k: int|
                    #![trigger spans@[k]]
                    0 <= k < spans@.len() implies (spans@[k].start < x ==> spans@[k].start <= total) && (
                    spans@[k].end < x ==> spans@[k].end <= total) by {
                    assert(ends@[k] == spans@[k].start);
                    assert(ends@[n + k] == spans@[k].end);
                }
                assert(!(forall|j: int| 0 <= j < ends@.len() ==> #[trigger] ends@[j] <= total));
                if forall|k: int|
                    #![trigger spans@[k]]
                    0 <= k < spans@.len() ==> spans@[k].start <= total && spans@[k].end <= total {
                    assert forall|j: int| 0 <= j < ends@.len() implies #[trigger] ends@[j] <= total by {
                        if j < n {
                            assert(ends@[j] == spans@[j].start);
                        } else {
                            assert(ends@[n + (j - n)] == spans@[j - n].end);
                        }
                    }
                }
            }
            Err(x)
        },
        Ok(offsets) => {
            let mut moved: Vec<AnnotationSpan> = Vec::new();
            let mut k: usize = 0;
            while k < n
                invariant
                    n == spans@.len(),
                    n <= usize::MAX / 2,
                    offsets@.len() == 2 * n,
                    ends@.len() == 2 * n,
                    forall|j: int|
                        #![trigger spans@[j]]
                        0 <= j < n ==> ends@[j] == spans@[j].start && ends@[n + j] == spans@[j].end,
                    forall|j: int|
                        0 <= j < ends@.len() ==> {
                            &&& #[trigger] offsets@[j] <= b.len()
                            &&& is_boundary(b, offsets@[j] as int)
                            &&& scalars_before(b, offsets@[j] as int) == ends@[j]
                        },
                    k <= n,
                    moved@.len() == k,
                    forall|j: int|
                        #![trigger moved@[j]]
                        0 <= j < k ==> {
                            &&& moved@[j].label == spans@[j].label
                            &&& moved@[j].score == spans@[j].score
                            &&& is_boundary(b, moved@[j].start as int)
                            &&& is_boundary(b, moved@[j].end as int)
                            &&& scalars_before(b, moved@[j].start as int) == spans@[j].start
                            &&& scalars_before(b, moved@[j].end as int) == spans@[j].end
                        },
                decreases n - k,
            {
                let span = spans[k];
                assert(ends@[k as int] == spans@[k as int].start);
                assert(offsets@[k as int] <= b.len());
                assert(offsets@[n + k] <= b.len());
                moved.push(AnnotationSpan::new(span.label, offsets[k], offsets[n + k], span.score));
                k = k + 1;
            }
            proof {
                assert forall|k: int|
                    #![trigger spans@[k]]
                    0 <= k < spans@.len() implies spans@[k].start <= total && spans@[k].end <= total by {
                    assert(ends@[k] == spans@[k].start);
                    assert(ends@[n + k] == spans@[k].end);
                }
            }
            let tagged = render_spans(text, moved.as_slice());
            proof {
                let ev = choose|ev: Seq<RenderEvent>|
                    #[trigger] renders(b, moved@, ev) && tagged@ == decode_utf8(rendered_from(b, 0, ev));
                assert(renders(b, moved@, ev));
            }
            Ok(tagged)
        },
    }
}

proof fn lemma_scalars_before_monotone(b: Seq<u8>, i: int, j: int)
    requires
        i <= j,
    ensures
        scalars_before(b, i) <= scalars_before(b, j),
    decreases j - i,
{
    if i < j {
        lemma_scalars_before_monotone(b, i, j - 1);
    }
}

/// Byte offsets and character indices convert into each other without loss:
/// in valid UTF-8 no two boundaries have the same number of characters before
/// them, and that number is at most the number of characters of the text.
pub proof fn lemma_char_index_round_trip(b: Seq<u8>, o: int, p: int)
    requires
        valid_utf8(b),
        0 <= o,
        0 <= p,
        is_boundary(b, o),
        is_boundary(b, p),
        scalars_before(b, p) == scalars_before(b, o),
    ensures
        p == o,
        scalars_before(b, o) <= scalars_before(b, b.len() as int),
{
    lemma_scalars_before_monotone(b, o, b.len() as int);
    if b.len() > 0 {
        assert(!is_continuation_byte(b[0]));
    }
    if o < p {
        assert(!is_continuation_byte(b[o]));
        lemma_scalars_before_monotone(b, o + 1, p);
    } else if p < o {
        assert(!is_continuation_byte(b[p]));
        lemma_scalars_before_monotone(b, p + 1, o);
    }
}

} // verus!
