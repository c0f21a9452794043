use vstd::prelude::*;

use crate::data::{BytePos, ByteSpan, CandidateSlice};
use crate::error::DecodeError;
use crate::text::TextBytes;

verus! {

/// The spans that breaking after each kept position gives: each kept
/// position `p` closes the open span at `p + 1` (when that moves past its
/// start), and the text end closes the last one.
pub open spec fn break_spans(
    positions: Seq<BytePos>,
    keep: Seq<bool>,
    n: int,
    start: int,
    text_end: int,
) -> Seq<ByteSpan>
    decreases positions.len() - n,
{
    if n < 0 || n >= positions.len() {
        if start < text_end {
            seq![ByteSpan { start: BytePos(start as u32), end: BytePos(text_end as u32) }]
        } else {
            Seq::empty()
        }
    } else {
        let end = if positions[n].0 < u32::MAX {
            positions[n].0 + 1
        } else {
            u32::MAX as int
        };
        if keep[n] && end > start {
            seq![ByteSpan { start: BytePos(start as u32), end: BytePos(end as u32) }] + break_spans(
                positions,
                keep,
                n + 1,
                end,
                text_end,
            )
        } else {
            break_spans(positions, keep, n + 1, start, text_end)
        }
    }
}

/// Threshold decoding once each position's score has been compared with the
/// threshold: `keep[k]` says whether position `k` scored at or above it.
pub fn decode_kept_breaks(
    text: TextBytes<'_>,
    positions: CandidateSlice<'_>,
    keep: &[bool],
    out: &mut Vec<ByteSpan>,
) -> (r: Result<(), DecodeError>)
    requires
        text@.len() <= u32::MAX,
    ensures
        r.is_err() == (positions.data@.len() != keep@.len()),
        r.is_ok() ==> final(out)@ == break_spans(positions.data@, keep@, 0, 0, text@.len() as int),
        r.is_err() ==> final(out)@ == old(out)@,
        r.is_ok() && (forall|k: int|
            0 <= k < positions.data@.len() ==> #[trigger] positions.data@[k].0 < text@.len()) ==> {
            let s = final(out)@;
            &&& s.len() > 0 ==> s[0].start.0 == 0 && s.last().end.0 == text@.len()
            &&& s.len() == 0 ==> text@.len() == 0
            &&& forall|k: int| 0 <= k < s.len() ==> (#[trigger] s[k]).start.0 < s[k].end.0
            &&& forall|k: int| 0 <= k < s.len() - 1 ==> #[trigger] s[k].end == s[k + 1].start
        },
{
    if positions.len() != keep.len() {
        return Err(DecodeError::new("positions and scores must have matching lengths"));
    }
    proof {
        if forall|k: int| 0 <= k < positions.data@.len() ==> #[trigger] positions.data@[k].0 < text@.len() {
            lemma_break_spans_tile(positions.data@, keep@, 0, 0, text@.len() as int);
        }
    }
    out.clear();
    let ghost whole = break_spans(positions.data@, keep@, 0, 0, text@.len() as int);
    let text_end = text.len();
    let mut start: u32 = 0;
    let mut k: usize = 0;
    while k < positions.data.len()
        invariant
            k <= positions.data@.len(),
            keep@.len() == positions.data@.len(),
            text_end == text@.len() <= u32::MAX,
            out@ + break_spans(positions.data@, keep@, k as int, start as int, text_end as int) == whole,
        decreases positions.data@.len() - k,
    {
        let p = positions.data[k].0;
        let end: u32 = if p < u32::MAX {
            p + 1
        } else {
            u32::MAX
        };
        let ghost before = out@;
        if keep[k] && end > start {
            out.push(ByteSpan { start: BytePos(start), end: BytePos(end) });
            proof {
                assert(out@ + break_spans(positions.data@, keep@, k + 1, end as int, text_end as int)
                    =~= before + break_spans(positions.data@, keep@, k as int, start as int, text_end as int));
            }
            start = end;
        }
        k = k + 1;
    }
    if (start as usize) < text_end {
        let ghost before = out@;
        out.push(ByteSpan { start: BytePos(start), end: BytePos::from_usize(text_end) });
        assert(out@ =~= before + break_spans(positions.data@, keep@, k as int, start as int, text_end as int));
    } else {
        assert(out@ =~= out@ + break_spans(positions.data@, keep@, k as int, start as int, text_end as int));
    }
    Ok(())
}

/// Break spans over positions inside the text tile it: each span starts where
/// the one before ends, the first at zero and the last at the text end.
pub proof fn lemma_break_spans_tile(
    positions: Seq<BytePos>,
    keep: Seq<bool>,
    n: int,
    start: int,
    text_end: int,
)
    requires
        0 <= n <= positions.len(),
        0 <= start <= text_end <= u32::MAX,
        forall|k: int| n <= k < positions.len() ==> #[trigger] positions[k].0 < text_end,
    ensures
        ({
            let s = break_spans(positions, keep, n, start, text_end);
            &&& s.len() > 0 ==> s[0].start.0 == start && s.last().end.0 == text_end
            &&& s.len() == 0 ==> start == text_end
            &&& forall|k: int| 0 <= k < s.len() ==> (#[trigger] s[k]).start.0 < s[k].end.0
            &&& forall|k: int| 0 <= k < s.len() - 1 ==> #[trigger] s[k].end == s[k + 1].start
        }),
    decreases positions.len() - n,
{
    if n < positions.len() {
        let end = positions[n].0 + 1;
        if keep[n] && end > start {
            lemma_break_spans_tile(positions, keep, n + 1, end, text_end);
            let rest = break_spans(positions, keep, n + 1, end, text_end);
            let s = break_spans(positions, keep, n, start, text_end);
            assert(s == seq![ByteSpan { start: BytePos(start as u32), end: BytePos(end as u32) }] + rest);
            assert forall|k: int| 0 <= k < s.len() implies (#[trigger] s[k]).start.0 < s[k].end.0 by {
                if k > 0 {
                    assert(s[k] == rest[k - 1]);
                }
            }
            assert forall|k: int| 0 <= k < s.len() - 1 implies #[trigger] s[k].end == s[k + 1].start by {
                if k > 0 {
                    assert(s[k] == rest[k - 1]);
                    assert(s[k + 1] == rest[k]);
                } else {
                    assert(s[1] == rest[0]);
                }
            }
            if rest.len() > 0 {
                assert(s.last() == rest.last());
            }
        } else {
            lemma_break_spans_tile(positions, keep, n + 1, start, text_end);
        }
    }
}

/// Argmax decoder for per-position labels.
#[derive(Clone, Debug)]
pub struct ArgmaxLabelDecoder<L> {
    labels: Vec<L>,
}

impl<L> ArgmaxLabelDecoder<L> {
    pub closed spec fn label_list(&self) -> Seq<L> {
        self.labels@
    }

    pub fn new(labels: Vec<L>) -> (decoder: Self)
        ensures
            decoder.label_list() == labels@,
    {
        ArgmaxLabelDecoder { labels }
    }

    pub fn labels(&self) -> (labels: &[L])
        ensures
            labels@ == self.label_list(),
    {
        self.labels.as_slice()
    }
}

/// One run of rows with the same winning label.
#[derive(Clone, Copy, Debug, PartialEq, Eq, Structural)]
pub struct LabelRun {
    pub span: ByteSpan,
    pub label_index: usize,
    pub first_row: usize,
    pub end_row: usize,
}

/// Groups argmax labels into contiguous byte spans between adjacent positions.
#[derive(Clone, Debug)]
pub struct ContiguousSpanDecoder<L> {
    labels: Vec<L>,
}

/// The runs of equal labels of `winners`, from row `first` with the open run
/// starting at `run_start`.
pub open spec fn label_runs(positions: Seq<BytePos>, winners: Seq<usize>, first: int, row: int, text_end: int) -> Seq<LabelRun>
    decreases winners.len() - row,
{
    if row < 0 || first < 0 || first >= winners.len() || row >= winners.len() {
        if 0 <= first < winners.len() {
            seq![LabelRun {
                span: ByteSpan { start: positions[first], end: BytePos(text_end as u32) },
                label_index: winners[first],
                first_row: first as usize,
                end_row: winners.len() as usize,
            }]
        } else {
            Seq::empty()
        }
    } else if winners[row] != winners[first] {
        seq![LabelRun {
            span: ByteSpan { start: positions[first], end: positions[row] },
            label_index: winners[first],
            first_row: first as usize,
            end_row: row as usize,
        }] + label_runs(positions, winners, row, row + 1, text_end)
    } else {
        label_runs(positions, winners, first, row + 1, text_end)
    }
}

impl<L> ContiguousSpanDecoder<L> {
    pub closed spec fn label_list(&self) -> Seq<L> {
        self.labels@
    }

    pub fn new(labels: Vec<L>) -> (decoder: Self)
        ensures
            decoder.label_list() == labels@,
    {
        ContiguousSpanDecoder { labels }
    }

    pub fn labels(&self) -> (labels: &[L])
        ensures
            labels@ == self.label_list(),
    {
        self.labels.as_slice()
    }

    /// The maximal runs of rows whose winning label (`winners[k]`, the argmax
    /// of row `k`) is the same: each spans from its first row's position to
    /// the next run's first position, the last to the text end.
    pub fn label_runs(&self, text: TextBytes<'_>, positions: CandidateSlice<'_>, winners: &[usize]) -> (runs: Vec<LabelRun>)
        requires
            text@.len() <= u32::MAX,
            positions.data@.len() == winners@.len(),
        ensures
            runs@ == label_runs(positions.data@, winners@, 0, 1, text@.len() as int),
    {
        let n = winners.len();
        let mut runs: Vec<LabelRun> = Vec::new();
        if n == 0 {
            return runs;
        }
        let text_end = BytePos::from_usize(text.len());
        let ghost whole = label_runs(positions.data@, winners@, 0, 1, text@.len() as int);
        let mut first: usize = 0;
        let mut row: usize = 1;
        while row < n
            invariant
                n == winners@.len() == positions.data@.len(),
                first < row <= n,
                text_end.0 == text@.len(),
                runs@ + label_runs(positions.data@, winners@, first as int, row as int, text@.len() as int) == whole,
            decreases n - row,
        {
            if winners[row] != winners[first] {
                let ghost before = runs@;
                runs.push(LabelRun {
                    span: ByteSpan { start: positions.data[first], end: positions.data[row] },
                    label_index: winners[first],
                    first_row: first,
                    end_row: row,
                });
                proof {
                    assert(runs@ + label_runs(positions.data@, winners@, row as int, row + 1, text@.len() as int)
                        =~= before + label_runs(positions.data@, winners@, first as int, row as int, text@.len() as int));
                }
                first = row;
            }
            row = row + 1;
        }
        let ghost before = runs@;
        runs.push(LabelRun {
            span: ByteSpan { start: positions.data[first], end: text_end },
            label_index: winners[first],
            first_row: first,
            end_row: n,
        });
        assert(runs@ =~= before + label_runs(positions.data@, winners@, first as int, row as int, text@.len() as int));
        runs
    }
}

/// The runs of `runs` split rows `first..` of `winners` into maximal blocks:
/// they follow each other without gap from row `first` to the last row, every
/// row of a run has the run's label, and neighbouring runs have different
/// labels; each span runs from its first row's position to the next run's
/// first position, and the last one to `text_end`.
pub open spec fn runs_split_rows(
    runs: Seq<LabelRun>,
    positions: Seq<BytePos>,
    winners: Seq<usize>,
    first: int,
    text_end: int,
) -> bool {
    &&& runs.len() >= 1
    &&& runs[0].first_row == first
    &&& runs.last().end_row == winners.len()
    &&& runs.last().span.end == BytePos(text_end as u32)
    &&& forall|i: int|
        0 <= i < runs.len() ==> (#[trigger] runs[i]).first_row < runs[i].end_row && runs[i].span.start
            == positions[runs[i].first_row as int]
    &&& forall|i: int|
        0 <= i < runs.len() - 1 ==> (#[trigger] runs[i]).end_row == runs[i + 1].first_row
            && runs[i].label_index != runs[i + 1].label_index && runs[i].span.end
            == positions[runs[i].end_row as int]
    &&& forall|i: int, r: int|
        0 <= i < runs.len() && (#[trigger] runs[i]).first_row <= r < runs[i].end_row ==> #[trigger] winners[r]
            == runs[i].label_index
}

proof fn lemma_label_runs_split(positions: Seq<BytePos>, winners: Seq<usize>, first: int, row: int, text_end: int)
    requires
        0 <= first < row <= winners.len() <= usize::MAX,
        positions.len() == winners.len(),
        forall|r: int| first <= r < row ==> #[trigger] winners[r] == winners[first],
    ensures
        runs_split_rows(label_runs(positions, winners, first, row, text_end), positions, winners, first, text_end),
        label_runs(positions, winners, first, row, text_end)[0].label_index == winners[first],
    decreases winners.len() - row,
{
    let runs = label_runs(positions, winners, first, row, text_end);
    if row >= winners.len() {
    } else if winners[row] != winners[first] {
        let rest = label_runs(positions, winners, row, row + 1, text_end);
        lemma_label_runs_split(positions, winners, row, row + 1, text_end);
        assert(runs.len() == rest.len() + 1);
        assert forall|i: int| 1 <= i < runs.len() implies #[trigger] runs[i] == rest[i - 1] by {}
        assert(runs.last() == rest.last());
        assert forall|i: int|
            0 <= i < runs.len() - 1 implies (#[trigger] runs[i]).end_row == runs[i + 1].first_row
                && runs[i].label_index != runs[i + 1].label_index && runs[i].span.end
                == positions[runs[i].end_row as int] by {
            if i > 0 {
                assert(runs[i] == rest[i - 1] && runs[i + 1] == rest[i]);
            } else {
                assert(runs[1] == rest[0]);
            }
        }
        assert forall|i: int, r: int|
            0 <= i < runs.len() && (#[trigger] runs[i]).first_row <= r < runs[i].end_row implies #[trigger] winners[r]
                == runs[i].label_index by {
            if i > 0 {
                assert(runs[i] == rest[i - 1]);
            }
        }
        assert forall|i: int|
            0 <= i < runs.len() implies (#[trigger] runs[i]).first_row < runs[i].end_row && runs[i].span.start
                == positions[runs[i].first_row as int] by {
            if i > 0 {
                assert(runs[i] == rest[i - 1]);
            }
        }
    } else {
        lemma_label_runs_split(positions, winners, first, row + 1, text_end);
    }
}

impl<L> ContiguousSpanDecoder<L> {
    /// The runs that `label_runs` gives split the rows into maximal blocks of
    /// one label: from the first row to the last without gap, every row of a
    /// run carries the run's label, and a new run starts exactly where the
    /// label changes. Each span starts at its first row's position and ends at
    /// the next run's start, the last one at the text end; no rows, no runs.
    pub proof fn lemma_label_runs_are_maximal(positions: Seq<BytePos>, winners: Seq<usize>, text_end: int)
        requires
            positions.len() == winners.len(),
            winners.len() <= usize::MAX,
        ensures
            winners.len() == 0 ==> label_runs(positions, winners, 0, 1, text_end).len() == 0,
            winners.len() > 0 ==> runs_split_rows(label_runs(positions, winners, 0, 1, text_end), positions, winners, 0, text_end),
    {
        if winners.len() > 0 {
            lemma_label_runs_split(positions, winners, 0, 1, text_end);
        }
    }
}

} // verus!
