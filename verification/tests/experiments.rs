use charstreamer::artifacts::{
    check_sentence_manifest, sentence_model_file_index, ManifestProblem, check_logistic_artifact, ArtifactFeatureBlock, BurnSentenceFeatureConfig, LogisticArtifactProblem,
    ModelArtifactError,
};
use charstreamer::data::{ByteSpan, FeatureBlock, FeatureSchema};
use charstreamer::data::{CandidateBuffer, ScanRange};
use charstreamer::experiments::{
    compile_scanner, CompiledScanner, char_positions_to_byte_offsets, compare_charboundary_legacy_features, compare_feature_rows,
    legacy_parity_rows, single_char_set, CorpusFormat, EvaluationCorpusSpec, FeatureComponentSpec,
    ParityCheckSpec, ParityError, PythonSklearnRandomForestFitOptions, ScannerSpec,
};
use charstreamer::legacy::{CharBoundaryLegacyAppender, LegacyFeatureTables};
use charstreamer::metrics::{boundary_match_counts, confusion_counts};
use charstreamer::text::TextBytes;
use charstreamer::traits::CandidateScanner;

fn tables() -> LegacyFeatureTables {
    LegacyFeatureTables {
        abbreviations: vec!["Mr.".to_string()],
        list_markers: vec!["(1)".to_string()],
        list_conjunctions: vec![" and ".to_string()],
        list_intros: vec!["following:".to_string()],
        terminal_sentence_chars: vec!['.', '!', '?'],
        terminal_paragraph_chars: vec!['\n'],
        primary_terminators: vec!['.', '!', '?'],
        secondary_terminators: vec![';', ':'],
        opening_quotes: vec!['"'],
        closing_quotes: vec!['"'],
        punctuation_chars: vec!['.', ',', ';', ':'],
        whitespace_chars: vec![' ', '\n'],
    }
}

#[test]
fn resolving_relative_paths_updates_nested_specs() {
    let mut scanner = ScannerSpec::CharBoundarySentenceCandidates {
        constants_py_path: "../charboundary/constants.py".to_string(),
    };
    scanner.resolve_relative_to("/tmp/specs");
    match scanner {
        ScannerSpec::CharBoundarySentenceCandidates { constants_py_path } => {
            assert_eq!(constants_py_path, "/tmp/specs/../charboundary/constants.py");
        }
        _ => panic!("expected charboundary scanner"),
    }

    let mut feature = FeatureComponentSpec::CharBoundaryLegacy {
        left_window: 5,
        right_window: 3,
        constants_py_path: "../charboundary/constants.py".to_string(),
    };
    feature.resolve_relative_to("/tmp/specs");
    match feature {
        FeatureComponentSpec::CharBoundaryLegacy { left_window, right_window, constants_py_path } => {
            assert_eq!((left_window, right_window), (5, 3));
            assert_eq!(constants_py_path, "/tmp/specs/../charboundary/constants.py");
        }
        _ => panic!("expected legacy feature spec"),
    }

    let mut evaluation = EvaluationCorpusSpec {
        name: "eval".to_string(),
        path: "data/eval.jsonl".to_string(),
        format: CorpusFormat::MultiLegal,
        limit: Some(5),
        throughput_iterations: 1,
    };
    evaluation.resolve_relative_to("/tmp/specs");
    assert_eq!(evaluation.path, "/tmp/specs/data/eval.jsonl");
    assert_eq!(evaluation.limit, Some(5));
}

#[test]
fn absolute_paths_stay_and_other_specs_are_untouched() {
    let mut parity = ParityCheckSpec {
        text: "A.".to_string(),
        char_positions: vec![1],
        left_window: 1,
        right_window: 1,
        constants_py_path: "/abs/constants.py".to_string(),
    };
    parity.resolve_relative_to("/tmp/specs");
    assert_eq!(parity.constants_py_path, "/abs/constants.py");
    let mut stride = ScannerSpec::Stride { stride: 3 };
    stride.resolve_relative_to("/tmp/specs");
    assert!(matches!(stride, ScannerSpec::Stride { stride: 3 }));
}

#[test]
fn random_forest_defaults() {
    let options = PythonSklearnRandomForestFitOptions::default();
    assert_eq!(options.n_estimators, 100);
    assert_eq!(options.max_depth, None);
    assert_eq!(options.min_samples_split, 2);
    assert_eq!(options.min_samples_leaf, 1);
    assert_eq!(options.class_weight.as_deref(), Some("balanced"));
    assert_eq!(options.n_jobs, -1);
    assert_eq!(options.random_state, Some(7));
}

#[test]
fn char_positions_map_to_scalar_offsets() {
    let offsets = char_positions_to_byte_offsets("aé€b", &[0, 1, 2, 3]).expect("inside the text");
    assert_eq!(offsets, vec![0, 1, 3, 6]);
    match char_positions_to_byte_offsets("ab", &[0, 2, 5]) {
        Err(ParityError::PositionOutsideText(p)) => assert_eq!(p, 2),
        _ => panic!("position 2 is outside a two-character text"),
    }
}

#[test]
fn single_characters_are_kept_once() {
    let set = single_char_set(vec!["a".to_string(), "bc".to_string(), "".to_string(), "a".to_string(), "é".to_string()]);
    assert_eq!(set, vec!['a', 'é']);
}

#[test]
fn feature_rows_are_compared_row_by_row() {
    let rust = vec![vec![1, 2], vec![3, 4], vec![5, 6]];
    let python = vec![vec![1, 2], vec![3, 0], vec![5, 6], vec![7, 7]];
    let report = compare_feature_rows(&rust, &python);
    assert_eq!(report.compared_rows, 4);
    assert!(!report.exact_match);
    assert_eq!(report.mismatched_rows, vec![1]);
    assert_eq!(report.mismatch_details.len(), 1);
    assert_eq!(report.mismatch_details[0].rust_row, vec![3, 4]);
    assert_eq!(report.mismatch_details[0].python_row, vec![3, 0]);

    let same = compare_feature_rows(&rust, &rust.clone());
    assert!(same.exact_match);
}

#[test]
fn at_most_eight_mismatches_are_detailed() {
    let rust: Vec<Vec<i32>> = (0..10).map(|k| vec![k]).collect();
    let python: Vec<Vec<i32>> = (0..10).map(|k| vec![k + 100]).collect();
    let report = compare_feature_rows(&rust, &python);
    assert_eq!(report.mismatched_rows.len(), 10);
    assert_eq!(report.mismatch_details.len(), 8);
    assert_eq!(report.mismatch_details[7].row_index, 7);
}

#[test]
fn parity_rows_come_from_the_legacy_features() {
    let appender = CharBoundaryLegacyAppender::new(1, 1, tables());
    let rows = legacy_parity_rows(&appender, "Mr. X", &vec![2]).expect("inside the text");
    assert_eq!(rows.len(), 1);
    assert_eq!(rows[0].len(), 11);
    assert_eq!(rows[0][3], 1);
    let spec = ParityCheckSpec {
        text: "Mr. X".to_string(),
        char_positions: vec![2],
        left_window: 1,
        right_window: 1,
        constants_py_path: "constants.py".to_string(),
    };
    let report = compare_charboundary_legacy_features(&spec, &appender, &rows).expect("inside the text");
    assert!(report.exact_match);
    assert_eq!(report.compared_rows, 1);
}

#[test]
fn confusion_counts_split_the_four_outcomes() {
    let counts = confusion_counts(&[true, true, false, false, true], &[1, 0, 1, 0, 2]);
    assert_eq!(counts.true_positives, 1);
    assert_eq!(counts.false_positives, 2);
    assert_eq!(counts.false_negatives, 1);
    assert_eq!(counts.true_negatives, 1);
}

#[test]
fn boundary_counts_compare_offset_sets() {
    let gold = [ByteSpan::new(0, 5), ByteSpan::new(5, 9)];
    let predicted = [ByteSpan::new(0, 3), ByteSpan::new(3, 9)];
    // gold {0, 5, 9}, predicted {0, 3, 9}
    assert_eq!(boundary_match_counts(&gold, &predicted), (2, 1, 1));
    assert_eq!(boundary_match_counts(&gold, &gold), (3, 0, 0));
}

#[test]
fn artifact_blocks_copy_the_schema() {
    let schema = FeatureSchema::new(vec![
        FeatureBlock::new("a", 2),
        FeatureBlock::new("b", 3).with_offset(2),
    ]);
    let blocks = ArtifactFeatureBlock::from_schema(&schema);
    assert_eq!(blocks.len(), 2);
    assert_eq!(blocks[1].name, "b");
    assert_eq!(blocks[1].width, 3);
}

#[test]
fn logistic_artifacts_are_checked_in_order() {
    let v = "charstreamer.logistic.v1";
    assert_eq!(check_logistic_artifact(v, v, 3, 3), Ok(()));
    assert_eq!(check_logistic_artifact("charstreamer.logistic.v0", v, 3, 3), Err(LogisticArtifactProblem::WrongFormat));
    assert_eq!(check_logistic_artifact(v, v, 0, 0), Err(LogisticArtifactProblem::NoFeatures));
    assert_eq!(check_logistic_artifact(v, v, 3, 2), Err(LogisticArtifactProblem::WidthMismatch));
}

#[test]
fn sentence_feature_config_defaults() {
    let config = BurnSentenceFeatureConfig::default();
    assert_eq!((config.encoded_left, config.encoded_right, config.count_radius), (7, 7, 24));
    assert_eq!((config.feature_dim, config.hidden_dim), (0, 64));
    let error = ModelArtifactError::new("missing manifest");
    assert_eq!(error.message(), "missing manifest");
}

fn scan_all(scanner: &CompiledScanner, text: &str) -> Vec<usize> {
    let text = TextBytes::from_utf8(text);
    let mut out = CandidateBuffer::new();
    scanner.scan_into(text, ScanRange::full(text), &mut out);
    out.positions().iter().map(|position| position.as_usize()).collect()
}

#[test]
fn scanner_specs_compile_to_their_scanners() {
    let stride = compile_scanner(&ScannerSpec::Stride { stride: 4 }, None).unwrap();
    assert_eq!(scan_all(&stride, "abcdefghij"), vec![0, 4, 8]);
    let bytes = compile_scanner(&ScannerSpec::ByteSet { bytes: b".?".to_vec() }, None).unwrap();
    assert_eq!(scan_all(&bytes, "Yes. No? Ok"), vec![3, 7]);
    let chars = compile_scanner(&ScannerSpec::Utf8CharSet { chars: vec!['»', '.'] }, None).unwrap();
    assert_eq!(scan_all(&chars, "«a» b."), vec![3, 7]);
    let lines = compile_scanner(&ScannerSpec::LineStart, None).unwrap();
    assert_eq!(scan_all(&lines, "a\nb\nc"), vec![0, 2, 4]);
}

#[test]
fn legacy_candidate_scanner_needs_the_tables() {
    let spec = ScannerSpec::CharBoundarySentenceCandidates { constants_py_path: "constants.py".to_string() };
    assert!(compile_scanner(&spec, None).is_none());
    let legacy = tables();
    let scanner = compile_scanner(&spec, Some(&legacy)).unwrap();
    let text = "One. Two! Three";
    let expected: Vec<usize> = text
        .char_indices()
        .filter(|(_, c)| legacy.terminal_sentence_chars.contains(c) || legacy.terminal_paragraph_chars.contains(c))
        .map(|(i, _)| i)
        .collect();
    assert_eq!(scan_all(&scanner, text), expected);
}

#[test]
fn sentence_manifest_checks_run_in_order() {
    let format = "charstreamer.model-bundle.v1";
    let name = "charstreamer-default";
    let engine = "burn_shallow_mlp_sentence_v1";
    assert_eq!(check_sentence_manifest(format, name, engine, 64, 1), Ok(()));
    assert_eq!(check_sentence_manifest("v0", "x", "y", 0, 0), Err(ManifestProblem::UnsupportedFormat));
    assert_eq!(check_sentence_manifest(format, "other", engine, 64, 1), Err(ManifestProblem::UnsupportedName));
    assert_eq!(check_sentence_manifest(format, name, "lstm", 64, 1), Err(ManifestProblem::UnsupportedEngine));
    assert_eq!(check_sentence_manifest(format, name, engine, 0, 0), Err(ManifestProblem::NoHiddenDim));
    assert_eq!(check_sentence_manifest(format, name, engine, 64, 0), Err(ManifestProblem::NoFiles));
}

#[test]
fn sentence_model_file_prefers_the_role_then_the_extension() {
    let paths = vec!["config.json".to_string(), "model.mpk".to_string(), "sentence.bin".to_string()];
    let roles = vec![None, None, Some("sentence_boundary".to_string())];
    assert_eq!(sentence_model_file_index(&paths, &roles), Some(2));
    let no_roles = vec![None, Some("other".to_string()), None];
    assert_eq!(sentence_model_file_index(&paths, &no_roles), Some(1));
    let plain = vec!["config.json".to_string(), "modelmpk".to_string()];
    assert_eq!(sentence_model_file_index(&plain, &[None, None]), None);
    assert_eq!(sentence_model_file_index(&[], &[]), None);
}

#[test]
fn rejects_invalid_logistic_artifacts() {
    let problem = check_logistic_artifact("charstreamer.logistic.v0", "charstreamer.logistic.v1", 2, 2);
    assert_eq!(problem, Err(LogisticArtifactProblem::WrongFormat));
}

#[test]
fn computes_binary_metrics() {
    let scores = [0.9_f32, 0.2, 0.7, 0.1];
    let predicted: Vec<bool> = scores.iter().map(|score| *score >= 0.5).collect();
    let counts = confusion_counts(&predicted, &[1, 0, 0, 1]);
    assert_eq!(counts.true_positives, 1);
    assert_eq!(counts.false_positives, 1);
    assert_eq!(counts.false_negatives, 1);
    assert_eq!(counts.true_negatives, 1);
}
