use vstd::prelude::*;

use crate::data::{
    strictly_increasing, BytePos, ByteSpan, CandidateBuffer, FeatureMatrix, PipelineWorkspace, ScanRange,
    ScoringWorkspace,
};
use crate::error::PipelineError;
use crate::text::TextBytes;
use crate::traits::{
    within_scan, BatchPredictor, BatchScorer, CandidateScanner, Decoder, FeatureKernel,
    ScoreDecoder,
};

verus! {

/// True when `after` is what `decoder` can leave in an output that held
/// `before`, decoding the scores `sc` that `model` can give the `rows` by
/// `cols` features `f` that `kernel` can extract at `candidates` of `text`.
pub open spec fn pipeline_yields<F, Sc, K: FeatureKernel<F>, M: BatchPredictor<F, Sc>, D: Decoder<Sc, ByteSpan>>(
    kernel: K,
    model: M,
    decoder: D,
    text: Seq<u8>,
    candidates: Seq<BytePos>,
    rows: int,
    cols: int,
    f: Seq<F>,
    sc: Seq<Sc>,
    before: Seq<ByteSpan>,
    after: Seq<ByteSpan>,
) -> bool {
    &&& kernel.extracts(text, candidates, rows, cols, f)
    &&& model.predicts(rows, cols, f, sc)
    &&& decoder.decodes(text, candidates, sc, before, after)
}

/// True when `spans` is what a run of the pipeline can give on `text` from a
/// fresh workspace: `decoder` decodes, into an empty output, scores that
/// `model` can give the features that `kernel` can extract, one row per
/// candidate, at the candidates that `scanner` emits over the whole text.
pub open spec fn pipeline_run_yields<F, Sc, S: CandidateScanner, K: FeatureKernel<F>, M: BatchPredictor<F, Sc>, D: Decoder<Sc, ByteSpan>>(
    scanner: S,
    kernel: K,
    model: M,
    decoder: D,
    text: Seq<u8>,
    spans: Seq<ByteSpan>,
) -> bool {
    exists|c: Seq<BytePos>, rows: int, cols: int, f: Seq<F>, sc: Seq<Sc>|
        #![trigger pipeline_yields(kernel, model, decoder, text, c, rows, cols, f, sc, Seq::empty(), spans)]
        {
            &&& scanner.scan_result(text, full_range(text.len() as int), c)
            &&& rows == c.len()
            &&& pipeline_yields(kernel, model, decoder, text, c, rows, cols, f, sc, Seq::empty(), spans)
        }
}

/// True when `after` is what `decoder` can leave in an output that held
/// `before`, decoding the `srows` by `scols` score matrix `sc` that `model`
/// can give the `frows` by `fcols` features `f` that `kernel` can extract at
/// `positions` of `text`.
pub open spec fn scoring_yields<F, Sc, O, K: FeatureKernel<F>, M: BatchScorer<F, Sc>, D: ScoreDecoder<Sc, O>>(
    kernel: K,
    model: M,
    decoder: D,
    text: Seq<u8>,
    positions: Seq<BytePos>,
    frows: int,
    fcols: int,
    f: Seq<F>,
    srows: int,
    scols: int,
    sc: Seq<Sc>,
    before: Seq<O>,
    after: Seq<O>,
) -> bool {
    &&& kernel.extracts(text, positions, frows, fcols, f)
    &&& model.scores(frows, fcols, f, sc)
    &&& decoder.decodes_scores(text, positions, srows, scols, sc, before, after)
}

/// True when `out` is what a run of the scoring pipeline can give on `text`
/// from a fresh workspace: `decoder` decodes, into an empty output, the score
/// matrix that `model` can give the features that `kernel` can extract, one
/// row per position, at the positions that `scanner` emits over the whole text.
pub open spec fn scoring_run_yields<F, Sc, O, S: CandidateScanner, K: FeatureKernel<F>, M: BatchScorer<F, Sc>, D: ScoreDecoder<Sc, O>>(
    scanner: S,
    kernel: K,
    model: M,
    decoder: D,
    text: Seq<u8>,
    out: Seq<O>,
) -> bool {
    exists|p: Seq<BytePos>, fcols: int, f: Seq<F>, scols: int, sc: Seq<Sc>|
        #![trigger scoring_yields(kernel, model, decoder, text, p, p.len() as int, fcols, f, p.len() as int, scols, sc, Seq::empty(), out)]
        {
            &&& scanner.scan_result(text, full_range(text.len() as int), p)
            &&& scoring_yields(kernel, model, decoder, text, p, p.len() as int, fcols, f, p.len() as int, scols, sc, Seq::empty(), out)
        }
}

/// True when `kernel` can extract some feature matrix, one row per candidate,
/// at the candidates that `scanner` emits over the whole of `text`.
pub open spec fn features_extracted<F, S: CandidateScanner, K: FeatureKernel<F>>(
    scanner: S,
    kernel: K,
    text: Seq<u8>,
) -> bool {
    exists|c: Seq<BytePos>, rows: int, cols: int, f: Seq<F>|
        #![trigger kernel.extracts(text, c, rows, cols, f)]
        {
            &&& scanner.scan_result(text, full_range(text.len() as int), c)
            &&& rows == c.len()
            &&& kernel.extracts(text, c, rows, cols, f)
        }
}

/// True when, beyond `features_extracted`, `model` can predict some scores
/// from that feature matrix.
pub open spec fn scores_predicted<F, Sc, S: CandidateScanner, K: FeatureKernel<F>, M: BatchPredictor<F, Sc>>(
    scanner: S,
    kernel: K,
    model: M,
    text: Seq<u8>,
) -> bool {
    exists|c: Seq<BytePos>, rows: int, cols: int, f: Seq<F>, sc: Seq<Sc>|
        #![trigger kernel.extracts(text, c, rows, cols, f), model.predicts(rows, cols, f, sc)]
        {
            &&& scanner.scan_result(text, full_range(text.len() as int), c)
            &&& rows == c.len()
            &&& kernel.extracts(text, c, rows, cols, f)
            &&& model.predicts(rows, cols, f, sc)
        }
}

/// True when, beyond `features_extracted`, `model` can score that feature
/// matrix into some score matrix.
pub open spec fn matrix_scored<F, Sc, S: CandidateScanner, K: FeatureKernel<F>, M: BatchScorer<F, Sc>>(
    scanner: S,
    kernel: K,
    model: M,
    text: Seq<u8>,
) -> bool {
    exists|c: Seq<BytePos>, rows: int, cols: int, f: Seq<F>, sc: Seq<Sc>|
        #![trigger kernel.extracts(text, c, rows, cols, f), model.scores(rows, cols, f, sc)]
        {
            &&& scanner.scan_result(text, full_range(text.len() as int), c)
            &&& rows == c.len()
            &&& kernel.extracts(text, c, rows, cols, f)
            &&& model.scores(rows, cols, f, sc)
        }
}

/// The range that covers all of a text of `len` bytes.
pub open spec fn full_range(len: int) -> ScanRange {
    ScanRange { start: crate::data::BytePos(0), end: crate::data::BytePos(len as u32) }
}

/// Primitive-first pipeline that wires scanner, features, model, and decoder together.
#[derive(Clone, Debug)]
pub struct Pipeline<S, K, M, D> {
    scanner: S,
    kernel: K,
    model: M,
    decoder: D,
}

impl<S, K, M, D> Pipeline<S, K, M, D> {
    pub closed spec fn spec_scanner(&self) -> S {
        self.scanner
    }

    pub closed spec fn spec_kernel(&self) -> K {
        self.kernel
    }

    pub closed spec fn spec_model(&self) -> M {
        self.model
    }

    pub closed spec fn spec_decoder(&self) -> D {
        self.decoder
    }

    pub fn new(scanner: S, kernel: K, model: M, decoder: D) -> (pipeline: Self)
        ensures
            pipeline.spec_scanner() == scanner,
            pipeline.spec_kernel() == kernel,
            pipeline.spec_model() == model,
            pipeline.spec_decoder() == decoder,
    {
        Pipeline { scanner, kernel, model, decoder }
    }

    pub fn kernel(&self) -> (kernel: &K)
        ensures
            *kernel == self.spec_kernel(),
    {
        &self.kernel
    }

    pub fn scanner(&self) -> (scanner: &S)
        ensures
            *scanner == self.spec_scanner(),
    {
        &self.scanner
    }

    pub fn model(&self) -> (model: &M)
        ensures
            *model == self.spec_model(),
    {
        &self.model
    }

    pub fn decoder(&self) -> (decoder: &D)
        ensures
            *decoder == self.spec_decoder(),
    {
        &self.decoder
    }
}

impl<S: CandidateScanner, K, M, D> Pipeline<S, K, M, D> {
    /// Scans the whole text for candidates.
    pub fn scan_candidates(&self, text: TextBytes<'_>, out: &mut CandidateBuffer)
        requires
            text@.len() <= u32::MAX,
            self.spec_scanner().accepts(text@.len() as int, full_range(text@.len() as int)),
        ensures
            self.spec_scanner().scan_result(text@, full_range(text@.len() as int), final(out)@),
            strictly_increasing(final(out)@),
            within_scan(final(out)@, text@.len() as int, full_range(text@.len() as int)),
    {
        let range = ScanRange::full(text);
        assert(range == full_range(text@.len() as int));
        self.scanner.scan_into(text, range, out);
    }
}

impl<S, K, M, D> Pipeline<S, K, M, D> {
    /// Extracts one feature row per candidate into `features`.
    pub fn extract_features<F: Copy + Default, Sc>(
        &self,
        text: TextBytes<'_>,
        candidates: &CandidateBuffer,
        features: &mut FeatureMatrix<F>,
        workspace: &mut PipelineWorkspace<F, Sc>,
    ) -> (r: Result<(), PipelineError>)
        where
            K: FeatureKernel<F>,
        ensures
            final(features).rows == candidates@.len(),
            r is Ok ==> self.spec_kernel().extracts(
                text@,
                candidates@,
                final(features).rows as int,
                final(features).cols as int,
                final(features).data@,
            ),
            r matches Err(e) ==> e is Feature,
    {
        let rows = candidates.len();
        let cols = self.kernel.schema().total_dim();
        features.resize_zeroed(rows, cols);
        match self.kernel.extract_into(
            text,
            candidates.as_slice(),
            features.as_view_mut(),
            &mut workspace.feature_scratch,
        ) {
            Ok(()) => Ok(()),
            Err(e) => Err(PipelineError::Feature(e)),
        }
    }

    /// Scores every feature row into the workspace's score buffer.
    pub fn predict_scores<F, Sc: Clone + Default>(
        &self,
        features: &FeatureMatrix<F>,
        workspace: &mut PipelineWorkspace<F, Sc>,
    ) -> (r: Result<(), PipelineError>)
        where
            M: BatchPredictor<F, Sc>,
        ensures
            final(workspace).scores.data@.len() == features.rows,
            final(workspace).candidates == old(workspace).candidates,
            final(workspace).features == old(workspace).features,
            final(workspace).feature_scratch == old(workspace).feature_scratch,
            r is Ok ==> self.spec_model().predicts(
                features.rows as int,
                features.cols as int,
                features.data@,
                final(workspace).scores.data@,
            ),
            r matches Err(e) ==> e is Predict,
    {
        workspace.scores.resize_fill(features.rows, Sc::default());
        match self.model.predict_into(features.as_view(), &mut workspace.scores.data) {
            Ok(()) => Ok(()),
            Err(e) => Err(PipelineError::Predict(e)),
        }
    }

    /// Decodes the candidates' scores into spans, appended to `out`.
    pub fn decode<Sc>(
        &self,
        text: TextBytes<'_>,
        candidates: &CandidateBuffer,
        scores: &[Sc],
        out: &mut Vec<ByteSpan>,
    ) -> (r: Result<(), PipelineError>)
        where
            D: Decoder<Sc, ByteSpan>,
        ensures
            r is Ok ==> self.spec_decoder().decodes(text@, candidates@, scores@, old(out)@, final(out)@),
            r matches Err(e) ==> e is Decode,
    {
        match self.decoder.decode_into(text, candidates.as_slice(), scores, out) {
            Ok(()) => Ok(()),
            Err(e) => Err(PipelineError::Decode(e)),
        }
    }
}

impl<S, K, M, D> Pipeline<S, K, M, D> {
    /// Scans, extracts features, scores and decodes one text, reusing `workspace`.
    pub fn run_into<F: Copy + Default, Sc: Clone + Default>(
        &self,
        text: TextBytes<'_>,
        workspace: &mut PipelineWorkspace<F, Sc>,
        out: &mut Vec<ByteSpan>,
    ) -> (r: Result<(), PipelineError>)
        where
            S: CandidateScanner,
            K: FeatureKernel<F>,
            M: BatchPredictor<F, Sc>,
            D: Decoder<Sc, ByteSpan>,
        requires
            text@.len() <= u32::MAX,
            self.spec_scanner().accepts(text@.len() as int, full_range(text@.len() as int)),
        ensures
            self.spec_scanner().scan_result(
                text@,
                full_range(text@.len() as int),
                final(workspace).candidates@,
            ),
            r is Ok ==> final(workspace).features.rows == final(workspace).candidates@.len(),
            r is Ok ==> pipeline_yields(
                self.spec_kernel(),
                self.spec_model(),
                self.spec_decoder(),
                text@,
                final(workspace).candidates@,
                final(workspace).features.rows as int,
                final(workspace).features.cols as int,
                final(workspace).features.data@,
                final(workspace).scores.data@,
                old(out)@,
                final(out)@,
            ),
            (r matches Err(PipelineError::Predict(_)) || r matches Err(PipelineError::Decode(_)))
                ==> final(workspace).features.rows == final(workspace).candidates@.len()
                && self.spec_kernel().extracts(
                text@,
                final(workspace).candidates@,
                final(workspace).features.rows as int,
                final(workspace).features.cols as int,
                final(workspace).features.data@,
            ),
            r matches Err(PipelineError::Decode(_)) ==> self.spec_model().predicts(
                final(workspace).features.rows as int,
                final(workspace).features.cols as int,
                final(workspace).features.data@,
                final(workspace).scores.data@,
            ),
    {
        self.scan_candidates(text, &mut workspace.candidates);
        let rows = workspace.candidates.len();
        let cols = self.kernel.schema().total_dim();
        workspace.features.resize_zeroed(rows, cols);
        match self.kernel.extract_into(
            text,
            workspace.candidates.as_slice(),
            workspace.features.as_view_mut(),
            &mut workspace.feature_scratch,
        ) {
            Ok(()) => {},
            Err(e) => {
                return Err(PipelineError::Feature(e));
            },
        }
        workspace.scores.resize_fill(workspace.features.rows, Sc::default());
        match self.model.predict_into(workspace.features.as_view(), &mut workspace.scores.data) {
            Ok(()) => {},
            Err(e) => {
                return Err(PipelineError::Predict(e));
            },
        }
        match self.decoder.decode_into(
            text,
            workspace.candidates.as_slice(),
            workspace.scores.data.as_slice(),
            out,
        ) {
            Ok(()) => {},
            Err(e) => {
                return Err(PipelineError::Decode(e));
            },
        }
        Ok(())
    }
}

impl<S, K, M, D> Pipeline<S, K, M, D> {
    /// Runs the pipeline on one text with a fresh workspace.
    pub fn run<F: Copy + Default, Sc: Clone + Default>(&self, text: TextBytes<'_>) -> (r: Result<
        Vec<ByteSpan>,
        PipelineError,
    >)
        where
            S: CandidateScanner,
            K: FeatureKernel<F>,
            M: BatchPredictor<F, Sc>,
            D: Decoder<Sc, ByteSpan>,
        requires
            text@.len() <= u32::MAX,
            self.spec_scanner().accepts(text@.len() as int, full_range(text@.len() as int)),
        ensures
            r matches Ok(spans) ==> pipeline_run_yields::<F, Sc, S, K, M, D>(
                self.spec_scanner(),
                self.spec_kernel(),
                self.spec_model(),
                self.spec_decoder(),
                text@,
                spans@,
            ),
            r matches Err(PipelineError::Predict(_)) ==> features_extracted::<F, S, K>(
                self.spec_scanner(),
                self.spec_kernel(),
                text@,
            ),
            r matches Err(PipelineError::Decode(_)) ==> scores_predicted::<F, Sc, S, K, M>(
                self.spec_scanner(),
                self.spec_kernel(),
                self.spec_model(),
                text@,
            ),
    {
        let mut workspace: PipelineWorkspace<F, Sc> = PipelineWorkspace {
            candidates: CandidateBuffer::new(),
            features: FeatureMatrix { rows: 0, cols: 0, data: Vec::new() },
            scores: crate::data::ScoreBuffer { data: Vec::new() },
            feature_scratch: crate::data::FeatureScratch { bytes: Vec::new() },
        };
        let mut spans: Vec<ByteSpan> = Vec::new();
        assert(spans@ == Seq::<ByteSpan>::empty());
        match self.run_into(text, &mut workspace, &mut spans) {
            Ok(()) => {
                let ghost c = workspace.candidates@;
                let ghost rows = workspace.features.rows as int;
                let ghost cols = workspace.features.cols as int;
                let ghost f = workspace.features.data@;
                let ghost sc = workspace.scores.data@;
                assert(self.spec_scanner().scan_result(text@, full_range(text@.len() as int), c));
                assert(pipeline_yields(
                    self.spec_kernel(),
                    self.spec_model(),
                    self.spec_decoder(),
                    text@,
                    c,
                    rows,
                    cols,
                    f,
                    sc,
                    Seq::empty(),
                    spans@,
                ));
                assert(rows == c.len());
                Ok(spans)
            },
            Err(e) => {
                proof {
                    let c = workspace.candidates@;
                    let rows = workspace.features.rows as int;
                    let cols = workspace.features.cols as int;
                    let f = workspace.features.data@;
                    let sc = workspace.scores.data@;
                    if e is Predict || e is Decode {
                        assert(self.spec_kernel().extracts(text@, c, rows, cols, f));
                    }
                    if e is Decode {
                        assert(self.spec_model().predicts(rows, cols, f, sc));
                    }
                }
                Err(e)
            },
        }
    }
}

/// Pipeline that produces score matrices and hands them to a score decoder.
#[derive(Clone, Debug)]
pub struct ScoringPipeline<S, K, M, D> {
    scanner: S,
    kernel: K,
    model: M,
    decoder: D,
}

impl<S, K, M, D> ScoringPipeline<S, K, M, D> {
    pub closed spec fn spec_scanner(&self) -> S {
        self.scanner
    }

    pub closed spec fn spec_kernel(&self) -> K {
        self.kernel
    }

    pub closed spec fn spec_model(&self) -> M {
        self.model
    }

    pub closed spec fn spec_decoder(&self) -> D {
        self.decoder
    }

    pub fn new(scanner: S, kernel: K, model: M, decoder: D) -> (pipeline: Self)
        ensures
            pipeline.spec_scanner() == scanner,
            pipeline.spec_kernel() == kernel,
            pipeline.spec_model() == model,
            pipeline.spec_decoder() == decoder,
    {
        ScoringPipeline { scanner, kernel, model, decoder }
    }

    pub fn kernel(&self) -> (kernel: &K)
        ensures
            *kernel == self.spec_kernel(),
    {
        &self.kernel
    }

    pub fn decoder(&self) -> (decoder: &D)
        ensures
            *decoder == self.spec_decoder(),
    {
        &self.decoder
    }
}

impl<S: CandidateScanner, K, M, D> ScoringPipeline<S, K, M, D> {
    /// Scans the whole text for the positions to score.
    pub fn scan_positions(&self, text: TextBytes<'_>, out: &mut CandidateBuffer)
        requires
            text@.len() <= u32::MAX,
            self.spec_scanner().accepts(text@.len() as int, full_range(text@.len() as int)),
        ensures
            self.spec_scanner().scan_result(text@, full_range(text@.len() as int), final(out)@),
            strictly_increasing(final(out)@),
            within_scan(final(out)@, text@.len() as int, full_range(text@.len() as int)),
    {
        let range = ScanRange::full(text);
        assert(range == full_range(text@.len() as int));
        self.scanner.scan_into(text, range, out);
    }
}

impl<S, K, M, D> ScoringPipeline<S, K, M, D> {
    /// Extracts one feature row per position into the workspace.
    pub fn extract_features<F: Copy + Default, Sc>(
        &self,
        text: TextBytes<'_>,
        positions: &CandidateBuffer,
        workspace: &mut ScoringWorkspace<F, Sc>,
    ) -> (r: Result<(), PipelineError>)
        where
            K: FeatureKernel<F>,
        ensures
            final(workspace).features.rows == positions@.len(),
            final(workspace).positions == old(workspace).positions,
            r is Ok ==> self.spec_kernel().extracts(
                text@,
                positions@,
                final(workspace).features.rows as int,
                final(workspace).features.cols as int,
                final(workspace).features.data@,
            ),
            r matches Err(e) ==> e is Feature,
    {
        let rows = positions.len();
        let cols = self.kernel.schema().total_dim();
        workspace.features.resize_zeroed(rows, cols);
        match self.kernel.extract_into(
            text,
            positions.as_slice(),
            workspace.features.as_view_mut(),
            &mut workspace.feature_scratch,
        ) {
            Ok(()) => Ok(()),
            Err(e) => Err(PipelineError::Feature(e)),
        }
    }

    /// Scores every feature row of the workspace into its score matrix.
    pub fn score_positions<F, Sc: Copy + Default>(&self, workspace: &mut ScoringWorkspace<F, Sc>) -> (r: Result<
        (),
        PipelineError,
    >)
        where
            M: BatchScorer<F, Sc>,
        ensures
            final(workspace).scores.rows == old(workspace).features.rows,
            final(workspace).features == old(workspace).features,
            final(workspace).positions == old(workspace).positions,
            r is Ok ==> self.spec_model().scores(
                old(workspace).features.rows as int,
                old(workspace).features.cols as int,
                old(workspace).features.data@,
                final(workspace).scores.data@,
            ),
            r matches Err(e) ==> e is Predict,
    {
        let rows = workspace.features.rows;
        let cols = self.model.score_dim();
        workspace.scores.resize_zeroed(rows, cols);
        match self.model.score_into(workspace.features.as_view(), workspace.scores.as_view_mut()) {
            Ok(()) => Ok(()),
            Err(e) => Err(PipelineError::Predict(e)),
        }
    }

    /// Scans, extracts features and scores one text.
    pub fn run_scores_into<F: Copy + Default, Sc: Copy + Default>(
        &self,
        text: TextBytes<'_>,
        workspace: &mut ScoringWorkspace<F, Sc>,
    ) -> (r: Result<(), PipelineError>)
        where
            S: CandidateScanner,
            K: FeatureKernel<F>,
            M: BatchScorer<F, Sc>,
        requires
            text@.len() <= u32::MAX,
            self.spec_scanner().accepts(text@.len() as int, full_range(text@.len() as int)),
        ensures
            self.spec_scanner().scan_result(
                text@,
                full_range(text@.len() as int),
                final(workspace).positions@,
            ),
            r is Ok ==> final(workspace).features.rows == final(workspace).positions@.len()
                && final(workspace).scores.rows == final(workspace).positions@.len(),
            r is Ok ==> self.spec_kernel().extracts(
                text@,
                final(workspace).positions@,
                final(workspace).features.rows as int,
                final(workspace).features.cols as int,
                final(workspace).features.data@,
            ),
            r is Ok ==> self.spec_model().scores(
                final(workspace).features.rows as int,
                final(workspace).features.cols as int,
                final(workspace).features.data@,
                final(workspace).scores.data@,
            ),
            r matches Err(e) ==> e is Feature || e is Predict,
    {
        self.scan_positions(text, &mut workspace.positions);
        let mut positions = CandidateBuffer::new();
        std::mem::swap(&mut positions, &mut workspace.positions);
        let extracted = self.extract_features(text, &positions, workspace);
        std::mem::swap(&mut positions, &mut workspace.positions);
        match extracted {
            Ok(()) => {},
            Err(e) => {
                return Err(e);
            },
        }
        self.score_positions(workspace)
    }

    /// Decodes the workspace's score matrix over `positions`, appended to `out`.
    pub fn decode_scores<F, Sc, O>(
        &self,
        text: TextBytes<'_>,
        positions: &CandidateBuffer,
        workspace: &ScoringWorkspace<F, Sc>,
        out: &mut Vec<O>,
    ) -> (r: Result<(), PipelineError>)
        where
            D: ScoreDecoder<Sc, O>,
        ensures
            r is Ok ==> self.spec_decoder().decodes_scores(
                text@,
                positions@,
                workspace.scores.rows as int,
                workspace.scores.cols as int,
                workspace.scores.data@,
                old(out)@,
                final(out)@,
            ),
            r matches Err(e) ==> e is Decode,
    {
        match self.decoder.decode_scores_into(text, positions.as_slice(), workspace.scores.as_view(), out) {
            Ok(()) => Ok(()),
            Err(e) => Err(PipelineError::Decode(e)),
        }
    }
}

impl<S, K, M, D> ScoringPipeline<S, K, M, D> {
    /// Scans, extracts features and scores one text, then decodes the score matrix.
    pub fn run_into<F: Copy + Default, Sc: Copy + Default, O>(
        &self,
        text: TextBytes<'_>,
        workspace: &mut ScoringWorkspace<F, Sc>,
        out: &mut Vec<O>,
    ) -> (r: Result<(), PipelineError>)
        where
            S: CandidateScanner,
            K: FeatureKernel<F>,
            M: BatchScorer<F, Sc>,
            D: ScoreDecoder<Sc, O>,
        requires
            text@.len() <= u32::MAX,
            self.spec_scanner().accepts(text@.len() as int, full_range(text@.len() as int)),
        ensures
            self.spec_scanner().scan_result(
                text@,
                full_range(text@.len() as int),
                final(workspace).positions@,
            ),
            r is Ok ==> final(workspace).features.rows == final(workspace).positions@.len()
                && final(workspace).scores.rows == final(workspace).positions@.len(),
            r is Ok ==> scoring_yields(
                self.spec_kernel(),
                self.spec_model(),
                self.spec_decoder(),
                text@,
                final(workspace).positions@,
                final(workspace).features.rows as int,
                final(workspace).features.cols as int,
                final(workspace).features.data@,
                final(workspace).scores.rows as int,
                final(workspace).scores.cols as int,
                final(workspace).scores.data@,
                old(out)@,
                final(out)@,
            ),
            (r matches Err(PipelineError::Predict(_)) || r matches Err(PipelineError::Decode(_)))
                ==> final(workspace).features.rows == final(workspace).positions@.len()
                && self.spec_kernel().extracts(
                text@,
                final(workspace).positions@,
                final(workspace).features.rows as int,
                final(workspace).features.cols as int,
                final(workspace).features.data@,
            ),
            r matches Err(PipelineError::Decode(_)) ==> final(workspace).scores.rows
                == final(workspace).positions@.len() && self.spec_model().scores(
                final(workspace).features.rows as int,
                final(workspace).features.cols as int,
                final(workspace).features.data@,
                final(workspace).scores.data@,
            ),
    {
        self.scan_positions(text, &mut workspace.positions);
        let rows = workspace.positions.len();
        let cols = self.kernel.schema().total_dim();
        workspace.features.resize_zeroed(rows, cols);
        match self.kernel.extract_into(
            text,
            workspace.positions.as_slice(),
            workspace.features.as_view_mut(),
            &mut workspace.feature_scratch,
        ) {
            Ok(()) => {},
            Err(e) => {
                return Err(PipelineError::Feature(e));
            },
        }
        let score_rows = workspace.features.rows;
        let score_cols = self.model.score_dim();
        workspace.scores.resize_zeroed(score_rows, score_cols);
        match self.model.score_into(workspace.features.as_view(), workspace.scores.as_view_mut()) {
            Ok(()) => {},
            Err(e) => {
                return Err(PipelineError::Predict(e));
            },
        }
        match self.decoder.decode_scores_into(
            text,
            workspace.positions.as_slice(),
            workspace.scores.as_view(),
            out,
        ) {
            Ok(()) => {},
            Err(e) => {
                return Err(PipelineError::Decode(e));
            },
        }
        Ok(())
    }
}

impl<S, K, M, D> ScoringPipeline<S, K, M, D> {
    /// Runs the scoring pipeline on one text with a fresh workspace.
    pub fn run<F: Copy + Default, Sc: Copy + Default, O>(&self, text: TextBytes<'_>) -> (r: Result<
        Vec<O>,
        PipelineError,
    >)
        where
            S: CandidateScanner,
            K: FeatureKernel<F>,
            M: BatchScorer<F, Sc>,
            D: ScoreDecoder<Sc, O>,
        requires
            text@.len() <= u32::MAX,
            self.spec_scanner().accepts(text@.len() as int, full_range(text@.len() as int)),
        ensures
            r matches Ok(out) ==> scoring_run_yields::<F, Sc, O, S, K, M, D>(
                self.spec_scanner(),
                self.spec_kernel(),
                self.spec_model(),
                self.spec_decoder(),
                text@,
                out@,
            ),
            r matches Err(PipelineError::Predict(_)) ==> features_extracted::<F, S, K>(
                self.spec_scanner(),
                self.spec_kernel(),
                text@,
            ),
            r matches Err(PipelineError::Decode(_)) ==> matrix_scored::<F, Sc, S, K, M>(
                self.spec_scanner(),
                self.spec_kernel(),
                self.spec_model(),
                text@,
            ),
    {
        let mut workspace: ScoringWorkspace<F, Sc> = ScoringWorkspace {
            positions: CandidateBuffer::new(),
            features: FeatureMatrix { rows: 0, cols: 0, data: Vec::new() },
            scores: FeatureMatrix { rows: 0, cols: 0, data: Vec::new() },
            feature_scratch: crate::data::FeatureScratch { bytes: Vec::new() },
        };
        let mut output: Vec<O> = Vec::new();
        assert(output@ == Seq::<O>::empty());
        match self.run_into(text, &mut workspace, &mut output) {
            Ok(()) => {
                let ghost p = workspace.positions@;
                assert(self.spec_scanner().scan_result(text@, full_range(text@.len() as int), p));
                assert(scoring_yields(
                    self.spec_kernel(),
                    self.spec_model(),
                    self.spec_decoder(),
                    text@,
                    p,
                    p.len() as int,
                    workspace.features.cols as int,
                    workspace.features.data@,
                    p.len() as int,
                    workspace.scores.cols as int,
                    workspace.scores.data@,
                    Seq::empty(),
                    output@,
                ));
                Ok(output)
            },
            Err(e) => {
                proof {
                    let p = workspace.positions@;
                    let rows = workspace.features.rows as int;
                    let cols = workspace.features.cols as int;
                    let f = workspace.features.data@;
                    let sc = workspace.scores.data@;
                    if e is Predict || e is Decode {
                        assert(self.spec_kernel().extracts(text@, p, rows, cols, f));
                    }
                    if e is Decode {
                        assert(self.spec_model().scores(rows, cols, f, sc));
                    }
                }
                Err(e)
            },
        }
    }
}

} // verus!
