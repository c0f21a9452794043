use charstreamer::byteset::ByteSet256;
use charstreamer::data::{
    ByteSpan, CandidateBuffer, CandidateSlice, FeatureBlock, FeatureMatrix, FeatureMatrixView, FeatureMatrixViewMut,
    FeatureSchema, FeatureScratch, PipelineWorkspace, ScoreBuffer, ScoringWorkspace,
};
use charstreamer::decoder::decode_kept_breaks;
use charstreamer::error::{DecodeError, FeatureError, PipelineError, PredictError};
use charstreamer::pipeline::{Pipeline, ScoringPipeline};
use charstreamer::scanner::ByteSetScanner;
use charstreamer::text::TextBytes;
use charstreamer::traits::{BatchPredictor, BatchScorer, Decoder, FeatureKernel, ScoreDecoder};

/// One feature per candidate: the byte after it (or zero at the end).
struct NextByteKernel {
    schema: FeatureSchema,
}

impl NextByteKernel {
    fn new() -> Self {
        NextByteKernel { schema: FeatureSchema::new(vec![FeatureBlock::new("next_byte", 1)]) }
    }
}

impl FeatureKernel<u8> for NextByteKernel {
    fn schema(&self) -> &FeatureSchema {
        &self.schema
    }

    fn extract_into(
        &self,
        text: TextBytes<'_>,
        positions: CandidateSlice<'_>,
        out: FeatureMatrixViewMut<'_, u8>,
        _scratch: &mut FeatureScratch,
    ) -> Result<(), FeatureError> {
        if out.rows != positions.len() || out.cols != 1 {
            return Err(FeatureError::new("shape"));
        }
        let bytes = text.bytes();
        for (row, position) in positions.data.iter().enumerate() {
            let next = position.as_usize() + 1;
            out.data[row * out.row_stride + out.col_offset] = if next < bytes.len() { bytes[next] } else { 0 };
        }
        Ok(())
    }
}

/// A break when the next byte is a space or the text ends.
struct SpaceModel;

impl BatchPredictor<u8, u8> for SpaceModel {
    fn predict_into(&self, features: FeatureMatrixView<'_, u8>, out: &mut [u8]) -> Result<(), PredictError> {
        for row in 0..features.rows {
            let value = features.data[row * features.row_stride + features.col_offset];
            out[row] = u8::from(value == b' ' || value == 0);
        }
        Ok(())
    }
}

impl BatchScorer<u8, u8> for SpaceModel {
    fn score_dim(&self) -> usize {
        1
    }

    fn score_into(&self, features: FeatureMatrixView<'_, u8>, out: FeatureMatrixViewMut<'_, u8>) -> Result<(), PredictError> {
        for row in 0..features.rows {
            let value = features.data[row * features.row_stride + features.col_offset];
            out.data[row * out.row_stride + out.col_offset] = u8::from(value == b' ' || value == 0);
        }
        Ok(())
    }
}

struct KeepOnes;

impl Decoder<u8, ByteSpan> for KeepOnes {
    fn decode_into(
        &self,
        text: TextBytes<'_>,
        positions: CandidateSlice<'_>,
        scores: &[u8],
        out: &mut Vec<ByteSpan>,
    ) -> Result<(), DecodeError> {
        let keep: Vec<bool> = scores.iter().map(|score| *score == 1).collect();
        decode_kept_breaks(text, positions, &keep, out)
    }
}

impl ScoreDecoder<u8, ByteSpan> for KeepOnes {
    fn decode_scores_into(
        &self,
        text: TextBytes<'_>,
        positions: CandidateSlice<'_>,
        scores: FeatureMatrixView<'_, u8>,
        out: &mut Vec<ByteSpan>,
    ) -> Result<(), DecodeError> {
        let keep: Vec<bool> = (0..scores.rows).map(|row| scores.data[row * scores.row_stride + scores.col_offset] == 1).collect();
        decode_kept_breaks(text, positions, &keep, out)
    }
}

fn spans_of(spans: &[ByteSpan]) -> Vec<(usize, usize)> {
    spans.iter().map(|span| (span.start.as_usize(), span.end.as_usize())).collect()
}

fn workspace() -> PipelineWorkspace<u8, u8> {
    PipelineWorkspace {
        candidates: CandidateBuffer::new(),
        features: FeatureMatrix { rows: 0, cols: 0, data: Vec::new() },
        scores: ScoreBuffer { data: Vec::new() },
        feature_scratch: FeatureScratch { bytes: Vec::new() },
    }
}

#[test]
fn pipeline_runs_scan_features_scores_and_decoding() {
    let pipeline = Pipeline::new(ByteSetScanner::new(ByteSet256::from_bytes(b".")), NextByteKernel::new(), SpaceModel, KeepOnes);
    let text = TextBytes::from_utf8("v1.2 is out. Done.");
    let spans = pipeline.run::<u8, u8>(text).unwrap();
    assert_eq!(spans_of(&spans), vec![(0, 12), (12, 18)]);
}

#[test]
fn pipeline_stages_match_the_whole_run() {
    let pipeline = Pipeline::new(ByteSetScanner::new(ByteSet256::from_bytes(b".")), NextByteKernel::new(), SpaceModel, KeepOnes);
    let text = TextBytes::from_utf8("A.b. C.");
    let mut work = workspace();
    pipeline.scan_candidates(text, &mut work.candidates);
    let candidates = work.candidates.clone();
    let mut features = FeatureMatrix { rows: 0, cols: 0, data: Vec::new() };
    pipeline.extract_features(text, &candidates, &mut features, &mut work).unwrap();
    assert_eq!(features.rows, 3);
    assert_eq!(features.data, vec![b'b', b' ', 0]);
    pipeline.predict_scores(&features, &mut work).unwrap();
    assert_eq!(work.scores.data, vec![0, 1, 1]);
    let mut spans = Vec::new();
    pipeline.decode(text, &candidates, &work.scores.data, &mut spans).unwrap();
    assert_eq!(spans_of(&spans), vec![(0, 4), (4, 7)]);
    let mut whole = Vec::new();
    let mut fresh = workspace();
    pipeline.run_into(text, &mut fresh, &mut whole).unwrap();
    assert_eq!(whole, spans);
}

#[test]
fn scoring_pipeline_scores_every_position() {
    let pipeline =
        ScoringPipeline::new(ByteSetScanner::new(ByteSet256::from_bytes(b".")), NextByteKernel::new(), SpaceModel, KeepOnes);
    let text = TextBytes::from_utf8("A.b. C.");
    let mut work: ScoringWorkspace<u8, u8> = ScoringWorkspace {
        positions: CandidateBuffer::new(),
        features: FeatureMatrix { rows: 0, cols: 0, data: Vec::new() },
        scores: FeatureMatrix { rows: 0, cols: 0, data: Vec::new() },
        feature_scratch: FeatureScratch { bytes: Vec::new() },
    };
    pipeline.run_scores_into(text, &mut work).unwrap();
    assert_eq!(work.features.rows, 3);
    assert_eq!(work.scores.rows, 3);
    assert_eq!(work.scores.data, vec![0, 1, 1]);
    let positions = work.positions.clone();
    let mut spans = Vec::new();
    pipeline.decode_scores(text, &positions, &work, &mut spans).unwrap();
    assert_eq!(spans_of(&spans), vec![(0, 4), (4, 7)]);
}

#[test]
fn feature_errors_surface_as_feature_stage_errors() {
    struct Failing(FeatureSchema);
    impl FeatureKernel<u8> for Failing {
        fn schema(&self) -> &FeatureSchema {
            &self.0
        }
        fn extract_into(
            &self,
            _text: TextBytes<'_>,
            _positions: CandidateSlice<'_>,
            _out: FeatureMatrixViewMut<'_, u8>,
            _scratch: &mut FeatureScratch,
        ) -> Result<(), FeatureError> {
            Err(FeatureError::new("no features"))
        }
    }
    let pipeline = Pipeline::new(
        ByteSetScanner::new(ByteSet256::from_bytes(b".")),
        Failing(FeatureSchema::new(vec![FeatureBlock::new("x", 1)])),
        SpaceModel,
        KeepOnes,
    );
    let result = pipeline.run::<u8, u8>(TextBytes::from_utf8("a. b."));
    assert!(matches!(result, Err(PipelineError::Feature(_))));
}

#[test]
fn scoring_pipeline_run_decodes_with_a_fresh_workspace() {
    let pipeline =
        ScoringPipeline::new(ByteSetScanner::new(ByteSet256::from_bytes(b".")), NextByteKernel::new(), SpaceModel, KeepOnes);
    let spans: Vec<ByteSpan> = pipeline.run::<u8, u8, ByteSpan>(TextBytes::from_utf8("A.b. C.")).unwrap();
    assert_eq!(spans_of(&spans), vec![(0, 4), (4, 7)]);
}

#[test]
fn predict_scores_sizes_the_score_buffer_to_the_feature_rows() {
    struct Refusing;
    impl BatchPredictor<u8, u8> for Refusing {
        fn predict_into(&self, _features: FeatureMatrixView<'_, u8>, _out: &mut [u8]) -> Result<(), PredictError> {
            Err(PredictError::new("no model"))
        }
    }
    let features = FeatureMatrix { rows: 3, cols: 1, data: vec![b'a', b' ', 0] };
    let mut work = workspace();
    work.scores.data = vec![9; 7];
    let ok = Pipeline::new(ByteSetScanner::new(ByteSet256::from_bytes(b".")), NextByteKernel::new(), SpaceModel, KeepOnes);
    ok.predict_scores(&features, &mut work).unwrap();
    assert_eq!(work.scores.data, vec![0, 1, 1]);
    work.scores.data = vec![9; 7];
    let refusing = Pipeline::new(ByteSetScanner::new(ByteSet256::from_bytes(b".")), NextByteKernel::new(), Refusing, KeepOnes);
    let result = refusing.predict_scores(&features, &mut work);
    assert!(matches!(result, Err(PipelineError::Predict(_))));
    assert_eq!(work.scores.data, vec![0, 0, 0]);
}

#[test]
fn fill_writes_only_the_cells_of_the_view() {
    let mut data: Vec<u8> = vec![0, 1, 2, 3, 4, 5, 6, 7];
    let mut view = FeatureMatrixViewMut { rows: 2, cols: 2, row_stride: 4, col_offset: 1, data: &mut data };
    view.fill(9);
    assert_eq!(data, vec![0, 9, 9, 3, 4, 9, 9, 7]);
}
