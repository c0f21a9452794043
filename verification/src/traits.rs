use vstd::prelude::*;

use crate::data::{
    strictly_increasing, BytePos, CandidateBuffer, CandidateSlice, FeatureBlock,
    FeatureMatrixView, FeatureMatrixViewMut, FeatureSchema, FeatureScratch, ScanRange,
};
use crate::error::{DecodeError, FeatureError, PredictError};
use crate::text::TextBytes;

verus! {

/// Every position of `out` lies in `[range.start, min(range.end, text_len))`.
pub open spec fn within_scan(out: Seq<BytePos>, text_len: int, range: ScanRange) -> bool {
    forall|k: int|
        0 <= k < out.len() ==> range.start.0 <= #[trigger] out[k].0 && out[k].0 < range.end.0
            && out[k].0 < text_len
}

/// Candidate scanner over canonical byte input.
pub trait CandidateScanner {
    /// The text lengths and ranges this scanner can scan.
    spec fn accepts(&self, text_len: int, range: ScanRange) -> bool;

    /// True when `out` is what this scanner emits for `text` and `range`.
    spec fn scan_result(&self, text: Seq<u8>, range: ScanRange, out: Seq<BytePos>) -> bool;

    fn scan_into(&self, text: TextBytes<'_>, range: ScanRange, out: &mut CandidateBuffer)
        requires
            self.accepts(text@.len() as int, range),
        ensures
            self.scan_result(text@, range, final(out)@),
            strictly_increasing(final(out)@),
            within_scan(final(out)@, text@.len() as int, range),
    ;
}

/// One reusable column block appender.
pub trait FeatureAppender<T> {
    fn block(&self) -> FeatureBlock;

    fn append_into(
        &self,
        text: TextBytes<'_>,
        positions: CandidateSlice<'_>,
        out: FeatureMatrixViewMut<'_, T>,
        scratch: &mut FeatureScratch,
    ) -> Result<(), FeatureError>;
}

/// Composite feature kernel over one schema.
pub trait FeatureKernel<T> {
    /// True when `features`, a `rows` by `cols` row-major matrix, is what this
    /// kernel can write on a successful extraction at `positions` of `text`. A
    /// kernel that does not define it leaves every outcome open.
    open spec fn extracts(
        &self,
        text: Seq<u8>,
        positions: Seq<BytePos>,
        rows: int,
        cols: int,
        features: Seq<T>,
    ) -> bool {
        true
    }

    fn schema(&self) -> &FeatureSchema;

    fn extract_into(
        &self,
        text: TextBytes<'_>,
        positions: CandidateSlice<'_>,
        out: FeatureMatrixViewMut<'_, T>,
        scratch: &mut FeatureScratch,
    ) -> (r: Result<(), FeatureError>)
        ensures
            r is Ok ==> self.extracts(
                text@,
                positions.data@,
                out.rows as int,
                out.cols as int,
                final(out.data)@,
            ),
    ;
}

/// Batch model over row-major feature views.
pub trait BatchPredictor<F, S> {
    /// True when `scores` is what this model can write on a successful
    /// prediction from `features`, a `rows` by `cols` row-major matrix. A model
    /// that does not define it leaves every outcome open.
    open spec fn predicts(&self, rows: int, cols: int, features: Seq<F>, scores: Seq<S>) -> bool {
        true
    }

    /// Writes scores into `out`. Besides the relation above, a slice handed
    /// over by mutable reference keeps its length, which no code can change.
    fn predict_into(&self, features: FeatureMatrixView<'_, F>, out: &mut [S]) -> (r: Result<
        (),
        PredictError,
    >)
        ensures
            final(out)@.len() == old(out)@.len(),
            r is Ok ==> self.predicts(
                features.rows as int,
                features.cols as int,
                features.data@,
                final(out)@,
            ),
    ;
}

/// Batch scorer over row-major feature views producing per-position score rows.
pub trait BatchScorer<F, S> {
    /// True when `scores` is what this scorer can write on a successful
    /// scoring of `features`, a `rows` by `cols` row-major matrix. A scorer
    /// that does not define it leaves every outcome open.
    open spec fn scores(&self, rows: int, cols: int, features: Seq<F>, scores: Seq<S>) -> bool {
        true
    }

    fn score_dim(&self) -> usize;

    fn score_into(
        &self,
        features: FeatureMatrixView<'_, F>,
        out: FeatureMatrixViewMut<'_, S>,
    ) -> (r: Result<(), PredictError>)
        ensures
            r is Ok ==> self.scores(
                features.rows as int,
                features.cols as int,
                features.data@,
                final(out.data)@,
            ),
    ;
}

/// Decoder from candidate scores to task-level outputs.
pub trait Decoder<S, O> {
    /// True when `after` is a content of the output vector that this decoder
    /// can leave, from `before`, on a successful decode of `scores` at
    /// `positions` of `text`. A decoder that does not define it leaves every
    /// outcome open.
    open spec fn decodes(
        &self,
        text: Seq<u8>,
        positions: Seq<BytePos>,
        scores: Seq<S>,
        before: Seq<O>,
        after: Seq<O>,
    ) -> bool {
        true
    }

    fn decode_into(
        &self,
        text: TextBytes<'_>,
        positions: CandidateSlice<'_>,
        scores: &[S],
        out: &mut Vec<O>,
    ) -> (r: Result<(), DecodeError>)
        ensures
            r is Ok ==> self.decodes(text@, positions.data@, scores@, old(out)@, final(out)@),
    ;
}

/// Decoder from score matrices to task-level outputs.
pub trait ScoreDecoder<S, O> {
    /// True when `after` is a content of the output vector that this decoder
    /// can leave, from `before`, on a successful decode of `scores`, a `rows`
    /// by `cols` row-major matrix, at `positions` of `text`. A decoder that
    /// does not define it leaves every outcome open.
    open spec fn decodes_scores(
        &self,
        text: Seq<u8>,
        positions: Seq<BytePos>,
        rows: int,
        cols: int,
        scores: Seq<S>,
        before: Seq<O>,
        after: Seq<O>,
    ) -> bool {
        true
    }

    fn decode_scores_into(
        &self,
        text: TextBytes<'_>,
        positions: CandidateSlice<'_>,
        scores: FeatureMatrixView<'_, S>,
        out: &mut Vec<O>,
    ) -> (r: Result<(), DecodeError>)
        ensures
            r is Ok ==> self.decodes_scores(
                text@,
                positions.data@,
                scores.rows as int,
                scores.cols as int,
                scores.data@,
                old(out)@,
                final(out)@,
            ),
    ;
}

} // verus!
