//! Byte-first text stream primitives: positions, spans, candidate buffers,
//! feature layouts, scanners and segmentation rules over UTF-8 text.

pub mod artifacts;
pub mod byteset;
pub mod counts;
pub mod corpus;
pub mod data;
pub mod decoder;
pub mod error;
pub mod experiments;
pub mod features;
pub mod legacy;
pub mod linefeat;
pub mod metrics;
pub mod offsets;
pub mod pipeline;
pub mod lines;
pub mod scalars;
pub mod scanner;
pub mod scored;
pub mod segment;
pub mod segment_laws;
pub mod shape;
pub mod text;
pub mod textops;
pub mod traits;

pub use byteset::{AsciiClassTable, ByteSet256};
pub use data::{
    BytePos, ByteSpan, ByteWindowSpec, CandidateBuffer, CandidateSlice, ChunkRange, DatasetView,
    FeatureBlock, FeatureMatrix, FeatureMatrixView, FeatureMatrixViewMut, FeatureRowMut,
    FeatureSchema, FeatureScratch, OwnedRange, PipelineWorkspace, PositionBuffer, PositionSlice,
    ScalarPos, ScalarWindowSpec, ScanRange, ScoreBuffer, ScoreMatrix, ScoreMatrixView,
    ScoreMatrixViewMut, ScoringWorkspace, StrideWindowSpec,
};
pub use error::{DecodeError, FeatureError, FitError, PipelineError, PredictError};
pub use text::{AsciiByteView, ByteToCharMap, TextBytes, Utf8ScalarView};
pub use traits::{
    BatchPredictor, BatchScorer, CandidateScanner, Decoder, FeatureAppender, FeatureKernel,
    ScoreDecoder,
};
