use vstd::prelude::*;
use vstd::string::{StrSliceExecFns, StringSliceAdditionalSpecFns};

use crate::byteset::{dedup_first, ByteSet256};
use crate::data::{BytePos, CandidateBuffer, CandidateSlice, ScanRange};
use crate::error::FeatureError;
use crate::features::{ByteClass, UnicodeCategory, UnicodeCategoryGroup};
use crate::legacy::{scalar_index_is, scalar_view_of, CharBoundaryLegacyAppender, LegacyFeatureTables};
use crate::scanner::{ByteSetScanner, LineStartScanner, StrideScanner, Utf8CharSetScanner};
use crate::traits::CandidateScanner;
use crate::text::{TextBytes, Utf8ScalarView};

verus! {

/// Whether `p` is a relative path, as `std::path::Path::is_relative` reports
/// it under the path rules of the platform the library is built for.
pub uninterp spec fn relative_path(p: Seq<char>) -> bool;

/// `base` joined with `p`, as `std::path::Path::join` builds it under the
/// path rules of the platform the library is built for.
pub uninterp spec fn joined_path(base: Seq<char>, p: Seq<char>) -> Seq<char>;

/// Calls `std::path::Path::is_relative` on `p`; which paths are relative is
/// left to the name `relative_path`.
#[verifier::external_body]
fn path_is_relative(p: &str) -> (r: bool)
    ensures
        r == relative_path(p@),
{
    std::path::Path::new(p).is_relative()
}

/// Calls `std::path::Path::join` on `base` and `p` and returns the result as
/// a string (the join of two UTF-8 paths is UTF-8); what it holds is left to
/// the name `joined_path`.
#[verifier::external_body]
fn path_join(base: &str, p: &str) -> (r: String)
    ensures
        r@ == joined_path(base@, p@),
{
    std::path::Path::new(base).join(p).to_string_lossy().into_owned()
}

/// `p` resolved against `base`: joined to it when relative, unchanged otherwise.
pub open spec fn resolved_path(p: Seq<char>, base: Seq<char>) -> Seq<char> {
    if relative_path(p) {
        joined_path(base, p)
    } else {
        p
    }
}

/// Resolving once more a path that one resolution against `base` has made
/// absolute leaves it as it is.
pub proof fn lemma_resolved_absolute_path_is_settled(p: Seq<char>, base: Seq<char>)
    requires
        !relative_path(resolved_path(p, base)),
    ensures
        resolved_path(resolved_path(p, base), base) == resolved_path(p, base),
{
}

fn resolve_path(p: &String, base: &str) -> (r: String)
    ensures
        r@ == resolved_path(p@, base@),
{
    if path_is_relative(p.as_str()) {
        path_join(base, p.as_str())
    } else {
        p.as_str().to_owned()
    }
}

/// How candidate positions are found.
#[derive(Clone, Debug)]
pub enum ScannerSpec {
    ByteSet { bytes: Vec<u8> },
    Utf8CharSet { chars: Vec<char> },
    CharBoundarySentenceCandidates { constants_py_path: String },
    LineStart,
    Stride { stride: usize },
}

impl ScannerSpec {
    /// Resolves the constants path against `base` when it is relative.
    pub fn resolve_relative_to(&mut self, base: &str)
        ensures
            match *old(self) {
                ScannerSpec::CharBoundarySentenceCandidates { constants_py_path } => *final(self) matches ScannerSpec::CharBoundarySentenceCandidates { constants_py_path: q } && q@
                    == resolved_path(constants_py_path@, base@),
                _ => *final(self) == *old(self),
            },
    {
        let resolved = match &*self {
            ScannerSpec::CharBoundarySentenceCandidates { constants_py_path } => Some(
                resolve_path(constants_py_path, base),
            ),
            _ => None,
        };
        if let Some(r) = resolved {
            *self = ScannerSpec::CharBoundarySentenceCandidates { constants_py_path: r };
        }
    }
}

/// A scanner built from a `ScannerSpec`.
#[derive(Clone, Debug)]
pub enum CompiledScanner {
    ByteSet(ByteSetScanner),
    Utf8CharSet(Utf8CharSetScanner),
    LineStart(LineStartScanner),
    Stride(StrideScanner),
}

impl CandidateScanner for CompiledScanner {
    open spec fn accepts(&self, text_len: int, range: ScanRange) -> bool {
        match self {
            CompiledScanner::ByteSet(s) => s.accepts(text_len, range),
            CompiledScanner::Utf8CharSet(s) => s.accepts(text_len, range),
            CompiledScanner::LineStart(s) => s.accepts(text_len, range),
            CompiledScanner::Stride(s) => s.accepts(text_len, range),
        }
    }

    open spec fn scan_result(&self, text: Seq<u8>, range: ScanRange, out: Seq<BytePos>) -> bool {
        match self {
            CompiledScanner::ByteSet(s) => s.scan_result(text, range, out),
            CompiledScanner::Utf8CharSet(s) => s.scan_result(text, range, out),
            CompiledScanner::LineStart(s) => s.scan_result(text, range, out),
            CompiledScanner::Stride(s) => s.scan_result(text, range, out),
        }
    }

    fn scan_into(&self, text: TextBytes<'_>, range: ScanRange, out: &mut CandidateBuffer) {
        match self {
            CompiledScanner::ByteSet(s) => s.scan_into(text, range, out),
            CompiledScanner::Utf8CharSet(s) => s.scan_into(text, range, out),
            CompiledScanner::LineStart(s) => s.scan_into(text, range, out),
            CompiledScanner::Stride(s) => s.scan_into(text, range, out),
        }
    }
}

/// The characters that start sentence candidates under the legacy tables:
/// the sentence terminals, then the paragraph terminals.
pub open spec fn legacy_candidate_chars(tables: LegacyFeatureTables) -> Seq<char> {
    tables.terminal_sentence_chars@ + tables.terminal_paragraph_chars@
}

fn push_all(out: &mut Vec<char>, chars: &Vec<char>)
    ensures
        final(out)@ == old(out)@ + chars@,
{
    let mut k: usize = 0;
    let ghost start = out@;
    while k < chars.len()
        invariant
            k <= chars@.len(),
            out@ == start + chars@.subrange(0, k as int),
        decreases chars@.len() - k,
    {
        out.push(chars[k]);
        k = k + 1;
        assert(out@ =~= start + chars@.subrange(0, k as int));
    }
    assert(chars@.subrange(0, chars@.len() as int) =~= chars@);
}

/// Builds the scanner that `spec` describes. Sentence candidates after the
/// legacy terminals need the legacy tables; without them there is no scanner.
pub fn compile_scanner(spec: &ScannerSpec, tables: Option<&LegacyFeatureTables>) -> (r: Option<CompiledScanner>)
    requires
        spec matches ScannerSpec::Stride { stride } ==> stride > 0,
    ensures
        r is None <==> (*spec is CharBoundarySentenceCandidates && tables is None),
        r matches Some(sc) ==> match *spec {
            ScannerSpec::ByteSet { bytes } => sc matches CompiledScanner::ByteSet(s) && s@ == dedup_first(bytes@),
            ScannerSpec::Utf8CharSet { chars } => sc matches CompiledScanner::Utf8CharSet(s) && forall|c: char|
                #[trigger] s@.contains(c) == chars@.contains(c),
            ScannerSpec::CharBoundarySentenceCandidates { .. } => sc matches CompiledScanner::Utf8CharSet(s) && forall|
                c: char,
            | #[trigger] s@.contains(c) == legacy_candidate_chars(*tables.unwrap()).contains(c),
            ScannerSpec::LineStart => sc is LineStart,
            ScannerSpec::Stride { stride } => sc matches CompiledScanner::Stride(s) && s.spec_stride() == stride,
        },
{
    match spec {
        ScannerSpec::ByteSet { bytes } => Some(
            CompiledScanner::ByteSet(ByteSetScanner::new(ByteSet256::from_bytes(bytes.as_slice()))),
        ),
        ScannerSpec::Utf8CharSet { chars } => {
            let mut copy: Vec<char> = Vec::new();
            push_all(&mut copy, chars);
            assert(copy@ =~= chars@);
            Some(CompiledScanner::Utf8CharSet(Utf8CharSetScanner::new(copy)))
        },
        ScannerSpec::CharBoundarySentenceCandidates { .. } => match tables {
            None => None,
            Some(t) => {
                let mut chars: Vec<char> = Vec::new();
                push_all(&mut chars, &t.terminal_sentence_chars);
                push_all(&mut chars, &t.terminal_paragraph_chars);
                assert(chars@ =~= legacy_candidate_chars(*t));
                Some(CompiledScanner::Utf8CharSet(Utf8CharSetScanner::new(chars)))
            },
        },
        ScannerSpec::LineStart => Some(CompiledScanner::LineStart(LineStartScanner::new())),
        ScannerSpec::Stride { stride } => Some(CompiledScanner::Stride(StrideScanner::new(*stride))),
    }
}

/// One block of the feature kernel of an experiment.
#[derive(Clone, Debug)]
pub enum FeatureComponentSpec {
    ByteWindow { left: usize, right: usize },
    EncodedByteWindow { left: usize, right: usize },
    AsciiNeighborClasses,
    BoundaryHeuristics,
    LegalBoundaryHeuristics,
    SelectedByteCounts { left: usize, right: usize, bytes: Vec<u8> },
    ByteClassCounts { left: usize, right: usize, classes: Vec<ByteClass> },
    DirectionalByteClassCounts { left: usize, right: usize, classes: Vec<ByteClass> },
    DirectionalUnicodeCategoryCounts { left: usize, right: usize, categories: Vec<UnicodeCategory> },
    DirectionalUnicodeCategoryGroupCounts {
        left: usize,
        right: usize,
        groups: Vec<UnicodeCategoryGroup>,
    },
    LineByteCounts { bytes: Vec<u8> },
    CharBoundaryLegacy { left_window: usize, right_window: usize, constants_py_path: String },
}

impl FeatureComponentSpec {
    /// Resolves the constants path against `base` when it is relative.
    pub fn resolve_relative_to(&mut self, base: &str)
        ensures
            match *old(self) {
                FeatureComponentSpec::CharBoundaryLegacy {
                    left_window,
                    right_window,
                    constants_py_path,
                } => *final(self) matches FeatureComponentSpec::CharBoundaryLegacy {
                    left_window: l,
                    right_window: r,
                    constants_py_path: q,
                } && l == left_window && r == right_window && q@ == resolved_path(
                    constants_py_path@,
                    base@,
                ),
                _ => *final(self) == *old(self),
            },
    {
        let resolved = match &*self {
            FeatureComponentSpec::CharBoundaryLegacy { left_window, right_window, constants_py_path } => Some(
                (*left_window, *right_window, resolve_path(constants_py_path, base)),
            ),
            _ => None,
        };
        if let Some((left_window, right_window, constants_py_path)) = resolved {
            *self = FeatureComponentSpec::CharBoundaryLegacy { left_window, right_window, constants_py_path };
        }
    }
}

/// Options handed to the scikit-learn random forest.
#[derive(Clone, Debug, PartialEq, Eq)]
pub struct PythonSklearnRandomForestFitOptions {
    pub n_estimators: usize,
    pub max_depth: Option<usize>,
    pub min_samples_split: usize,
    pub min_samples_leaf: usize,
    pub max_features: Option<String>,
    pub class_weight: Option<String>,
    pub n_jobs: isize,
    pub random_state: Option<u64>,
}

impl Default for PythonSklearnRandomForestFitOptions {
    fn default() -> (options: Self)
        ensures
            options.n_estimators == 100,
            options.max_depth is None,
            options.min_samples_split == 2,
            options.min_samples_leaf == 1,
            options.max_features is None,
            options.class_weight matches Some(w) && w@ == "balanced"@,
            options.n_jobs == -1,
            options.random_state == Some(7u64),
    {
        PythonSklearnRandomForestFitOptions {
            n_estimators: 100,
            max_depth: None,
            min_samples_split: 2,
            min_samples_leaf: 1,
            max_features: None,
            class_weight: Some("balanced".to_owned()),
            n_jobs: -1,
            random_state: Some(7),
        }
    }
}

/// What a random-forest fit reports.
#[derive(Clone, Debug)]
pub struct PythonSklearnRandomForestFitReport {
    pub rows: usize,
    pub cols: usize,
    pub model_path: String,
    pub sklearn_version: String,
}

/// Layout of an annotated corpus file.
#[derive(Clone, Copy, Debug, PartialEq, Eq, Structural)]
pub enum CorpusFormat {
    Alea,
    MultiLegal,
}

/// A corpus an experiment is evaluated on.
#[derive(Clone, Debug)]
pub struct EvaluationCorpusSpec {
    pub name: String,
    pub path: String,
    pub format: CorpusFormat,
    pub limit: Option<usize>,
    pub throughput_iterations: usize,
}

impl EvaluationCorpusSpec {
    /// Resolves the corpus path against `base` when it is relative.
    pub fn resolve_relative_to(&mut self, base: &str)
        ensures
            final(self).path@ == resolved_path(old(self).path@, base@),
            final(self).name == old(self).name,
            final(self).format == old(self).format,
            final(self).limit == old(self).limit,
            final(self).throughput_iterations == old(self).throughput_iterations,
    {
        self.path = resolve_path(&self.path, base);
    }
}

/// A check of the character-level features against the reference tables.
#[derive(Clone, Debug)]
pub struct ParityCheckSpec {
    pub text: String,
    pub char_positions: Vec<usize>,
    pub left_window: usize,
    pub right_window: usize,
    pub constants_py_path: String,
}

impl ParityCheckSpec {
    /// Resolves the constants path against `base` when it is relative.
    pub fn resolve_relative_to(&mut self, base: &str)
        ensures
            final(self).constants_py_path@ == resolved_path(old(self).constants_py_path@, base@),
            final(self).text == old(self).text,
            final(self).char_positions == old(self).char_positions,
            final(self).left_window == old(self).left_window,
            final(self).right_window == old(self).right_window,
    {
        self.constants_py_path = resolve_path(&self.constants_py_path, base);
    }
}

/// One row on which the two feature sets differ.
#[derive(Clone, Debug)]
pub struct ParityRowMismatch {
    pub row_index: usize,
    pub rust_row: Vec<i32>,
    pub python_row: Vec<i32>,
}

/// The outcome of a parity check.
#[derive(Clone, Debug)]
pub struct ParityCheckReport {
    pub compared_rows: usize,
    pub exact_match: bool,
    pub mismatched_rows: Vec<usize>,
    pub mismatch_details: Vec<ParityRowMismatch>,
}

/// Why a parity check could not compare.
#[derive(Clone, Debug)]
pub enum ParityError {
    /// A character position at or past the number of characters.
    PositionOutsideText(usize),
    Feature(FeatureError),
}

/// The offsets of characters `positions[..]`: each the byte offset of the
/// scalar at that index of the text. Fails at the first position that is not
/// below the number of characters.
pub fn char_positions_to_byte_offsets(text: &str, positions: &[usize]) -> (r: Result<Vec<usize>, ParityError>)
    requires
        text.spec_bytes().len() <= u32::MAX,
    ensures
        exists|starts: Seq<BytePos>, vals: Seq<u32>|
            #[trigger] scalar_view_of(text.spec_bytes(), starts, vals) && {
                &&& r.is_ok() == (forall|k: int| 0 <= k < positions@.len() ==> #[trigger] positions@[k] < starts.len())
                &&& r matches Ok(offsets) ==> offsets@.len() == positions@.len() && forall|k: int|
                    0 <= k < positions@.len() ==> #[trigger] offsets@[k] == starts[positions@[k] as int].0
                &&& r matches Err(ParityError::PositionOutsideText(p)) ==> exists|k: int|
                    0 <= k < positions@.len() && #[trigger] positions@[k] == p && p >= starts.len() && forall|j: int|
                        0 <= j < k ==> #[trigger] positions@[j] < starts.len()
                &&& !(r matches Err(ParityError::Feature(_)))
            },
{
    let view = Utf8ScalarView::decode(text);
    let ghost starts = view.scalar_starts@;
    let ghost vals = view.scalar_values@;
    assert(scalar_view_of(text.spec_bytes(), starts, vals));
    let n = view.scalar_starts.len();
    let mut offsets: Vec<usize> = Vec::new();
    let mut k: usize = 0;
    while k < positions.len()
        invariant
            k <= positions@.len(),
            n == starts.len(),
            starts == view.scalar_starts@,
            scalar_view_of(text.spec_bytes(), starts, vals),
            offsets@.len() == k,
            forall|j: int| 0 <= j < k ==> #[trigger] positions@[j] < n,
            forall|j: int| 0 <= j < k ==> #[trigger] offsets@[j] == starts[positions@[j] as int].0,
        decreases positions@.len() - k,
    {
        let p = positions[k];
        if p >= n {
            assert(positions@[k as int] == p);
            assert(!(positions@[k as int] < starts.len()));
            return Err(ParityError::PositionOutsideText(p));
        }
        offsets.push(view.scalar_starts[p].as_usize());
        k = k + 1;
    }
    Ok(offsets)
}

/// The characters of the strings that hold exactly one character, each once.
pub fn single_char_set(values: Vec<String>) -> (set: Vec<char>)
    ensures
        forall|c: char| set@.contains(c) <==> exists|k: int|
            0 <= k < values@.len() && #[trigger] values@[k]@ == seq![c],
        forall|a: int, b: int| 0 <= a < b < set@.len() ==> set@[a] != set@[b],
{
    let mut set: Vec<char> = Vec::new();
    let mut k: usize = 0;
    while k < values.len()
        invariant
            k <= values@.len(),
            forall|c: char| set@.contains(c) <==> exists|j: int|
                0 <= j < k && #[trigger] values@[j]@ == seq![c],
            forall|a: int, b: int| 0 <= a < b < set@.len() ==> set@[a] != set@[b],
        decreases values@.len() - k,
    {
        let v = values[k].as_str();
        let ghost before = set@;
        if v.unicode_len() == 1 {
            let c = v.get_char(0);
            assert(v@ =~= seq![c]);
            let mut found = false;
            let mut i: usize = 0;
            while i < set.len() && !found
                invariant
                    i <= set@.len(),
                    found == set@.subrange(0, i as int).contains(c),
                decreases set@.len() - i + if found { 0int } else { 1int },
            {
                if set[i] == c {
                    found = true;
                    assert(set@.subrange(0, i + 1)[i as int] == c);
                } else {
                    assert(set@.subrange(0, i + 1) =~= set@.subrange(0, i as int).push(set@[i as int]));
                }
                i = i + 1;
            }
            if !found {
                assert(set@.subrange(0, set@.len() as int) =~= set@);
                set.push(c);
            }
            proof {
                assert forall|d: char| set@.contains(d) <==> exists|j: int|
                    0 <= j < k + 1 && #[trigger] values@[j]@ == seq![d] by {
                    if set@.contains(d) {
                        if !before.contains(d) {
                            assert(d == c);
                            assert(values@[k as int]@ == seq![d]);
                        }
                    }
                    if exists|j: int| 0 <= j < k + 1 && #[trigger] values@[j]@ == seq![d] {
                        let j = choose|j: int| 0 <= j < k + 1 && #[trigger] values@[j]@ == seq![d];
                        if j == k {
                            assert(seq![d][0] == d);
                            assert(seq![c][0] == c);
                            if found {
                                assert(set@ == before);
                            } else {
                                assert(set@[before.len() as int] == c);
                            }
                        } else {
                            assert(before.contains(d));
                            let i = choose|i: int| 0 <= i < before.len() && before[i] == d;
                            assert(set@[i] == d);
                        }
                    }
                }
            }
        } else {
            proof {
                assert forall|d: char| set@.contains(d) <==> exists|j: int|
                    0 <= j < k + 1 && #[trigger] values@[j]@ == seq![d] by {
                    if exists|j: int| 0 <= j < k + 1 && #[trigger] values@[j]@ == seq![d] {
                        let j = choose|j: int| 0 <= j < k + 1 && #[trigger] values@[j]@ == seq![d];
                        if j == k {
                            assert(values@[k as int]@.len() == 1);
                        }
                    }
                }
            }
        }
        k = k + 1;
    }
    set
}


/// `report` compares the rows of `rust_rows` and `python_rows` up to the
/// shorter list: it counts the reference rows, lists the indices of the
/// differing rows in order, and holds the first eight of them in full.
pub open spec fn report_matches(report: ParityCheckReport, rust_rows: Seq<Vec<i32>>, python_rows: Seq<Vec<i32>>) -> bool {
    let n = if rust_rows.len() < python_rows.len() {
        rust_rows.len() as int
    } else {
        python_rows.len() as int
    };
    let m = report.mismatched_rows@;
    &&& report.compared_rows == python_rows.len()
    &&& m == mismatches(row_views(rust_rows), row_views(python_rows), n)
    &&& report.exact_match == (m.len() == 0)
    &&& report.mismatch_details@.len() == (if m.len() < 8 {
        m.len() as int
    } else {
        8
    })
    &&& forall|k: int|
        0 <= k < report.mismatch_details@.len() ==> {
            let d = #[trigger] report.mismatch_details@[k];
            &&& d.row_index == m[k]
            &&& d.rust_row@ == rust_rows[m[k] as int]@
            &&& d.python_row@ == python_rows[m[k] as int]@
        }
}

/// `x` saturated to the range of `i32`.
pub open spec fn clamp_i32(x: i64) -> i32 {
    if x < i32::MIN {
        i32::MIN
    } else if x > i32::MAX {
        i32::MAX
    } else {
        x as i32
    }
}

/// Each value of a row saturated to `i32`.
pub open spec fn clamp_row(row: Seq<i64>) -> Seq<i32> {
    row.map_values(|x: i64| clamp_i32(x))
}

/// `rows` are the character-level feature rows, saturated to `i32`, of the
/// characters at `char_positions` of the UTF-8 bytes `b`.
pub open spec fn parity_rows_match(
    appender: CharBoundaryLegacyAppender,
    b: Seq<u8>,
    char_positions: Seq<usize>,
    rows: Seq<Seq<i32>>,
) -> bool {
    exists|starts: Seq<BytePos>, vals: Seq<u32>|
        #[trigger] scalar_view_of(b, starts, vals) && rows.len() == char_positions.len() && forall|k: int|
            0 <= k < rows.len() ==> char_positions[k] < starts.len() && #[trigger] rows[k] == clamp_row(
                appender.row_spec(vals, starts, char_positions[k] as int),
            )
}
/// The contents of each row.
pub open spec fn row_views(v: Seq<Vec<i32>>) -> Seq<Seq<i32>> {
    v.map_values(|x: Vec<i32>| x@)
}

/// The indices below `n` at which the rows of `a` and `b` differ, in order.
pub open spec fn mismatches(a: Seq<Seq<i32>>, b: Seq<Seq<i32>>, n: int) -> Seq<usize>
    decreases n,
{
    if n <= 0 {
        Seq::empty()
    } else {
        mismatches(a, b, n - 1) + if a[n - 1] != b[n - 1] {
            seq![(n - 1) as usize]
        } else {
            Seq::empty()
        }
    }
}

fn rows_equal(a: &Vec<i32>, b: &Vec<i32>) -> (r: bool)
    ensures
        r == (a@ == b@),
{
    if a.len() != b.len() {
        return false;
    }
    let mut i: usize = 0;
    while i < a.len()
        invariant
            i <= a@.len() == b@.len(),
            forall|j: int| 0 <= j < i ==> a@[j] == b@[j],
        decreases a@.len() - i,
    {
        if a[i] != b[i] {
            return false;
        }
        i = i + 1;
    }
    assert(a@ =~= b@);
    true
}

fn copy_row(a: &Vec<i32>) -> (r: Vec<i32>)
    ensures
        r@ == a@,
{
    let mut r: Vec<i32> = Vec::new();
    let mut i: usize = 0;
    while i < a.len()
        invariant
            i <= a@.len(),
            r@ == a@.subrange(0, i as int),
        decreases a@.len() - i,
    {
        r.push(a[i]);
        assert(r@ =~= a@.subrange(0, i + 1));
        i = i + 1;
    }
    assert(r@ =~= a@);
    r
}

/// Compares two lists of feature rows row by row: lists the indices of the
/// rows that differ, and the first eight of them in full.
pub fn compare_feature_rows(rust_rows: &Vec<Vec<i32>>, python_rows: &Vec<Vec<i32>>) -> (report:
    ParityCheckReport)
    ensures
        report_matches(report, rust_rows@, python_rows@),
{
    let n = if rust_rows.len() < python_rows.len() {
        rust_rows.len()
    } else {
        python_rows.len()
    };
    let ghost a = row_views(rust_rows@);
    let ghost b = row_views(python_rows@);
    let mut mismatched_rows: Vec<usize> = Vec::new();
    let mut mismatch_details: Vec<ParityRowMismatch> = Vec::new();
    let mut i: usize = 0;
    while i < n
        invariant
            i <= n <= rust_rows@.len(),
            n <= python_rows@.len(),
            a == row_views(rust_rows@),
            b == row_views(python_rows@),
            mismatched_rows@ == mismatches(a, b, i as int),
            mismatch_details@.len() == (if mismatched_rows@.len() < 8 {
                mismatched_rows@.len() as int
            } else {
                8
            }),
            forall|k: int|
                0 <= k < mismatch_details@.len() ==> {
                    let d = #[trigger] mismatch_details@[k];
                    &&& d.row_index == mismatched_rows@[k]
                    &&& d.rust_row@ == rust_rows@[mismatched_rows@[k] as int]@
                    &&& d.python_row@ == python_rows@[mismatched_rows@[k] as int]@
                },
        decreases n - i,
    {
        let ghost before = mismatched_rows@;
        let ghost details_before = mismatch_details@;
        if !rows_equal(&rust_rows[i], &python_rows[i]) {
            mismatched_rows.push(i);
            if mismatch_details.len() < 8 {
                mismatch_details.push(
                    ParityRowMismatch {
                        row_index: i,
                        rust_row: copy_row(&rust_rows[i]),
                        python_row: copy_row(&python_rows[i]),
                    },
                );
            }
            proof {
                assert(a[i as int] == rust_rows@[i as int]@);
                assert(b[i as int] == python_rows@[i as int]@);
                assert(mismatched_rows@ =~= mismatches(a, b, i + 1));
                assert forall|k: int| 0 <= k < mismatch_details@.len() implies {
                    let d = #[trigger] mismatch_details@[k];
                    &&& d.row_index == mismatched_rows@[k]
                    &&& d.rust_row@ == rust_rows@[mismatched_rows@[k] as int]@
                    &&& d.python_row@ == python_rows@[mismatched_rows@[k] as int]@
                } by {
                    if k < details_before.len() {
                        assert(mismatch_details@[k] == details_before[k]);
                        assert(mismatched_rows@[k] == before[k]);
                    }
                }
            }
        } else {
            proof {
                assert(a[i as int] == rust_rows@[i as int]@);
                assert(b[i as int] == python_rows@[i as int]@);
                assert(mismatched_rows@ =~= mismatches(a, b, i + 1));
            }
        }
        i = i + 1;
    }
    let exact_match = mismatched_rows.len() == 0;
    ParityCheckReport { compared_rows: python_rows.len(), exact_match, mismatched_rows, mismatch_details }
}

fn clamp_to_i32(x: i64) -> (r: i32)
    ensures
        r == clamp_i32(x),
{
    if x < i32::MIN as i64 {
        i32::MIN
    } else if x > i32::MAX as i64 {
        i32::MAX
    } else {
        x as i32
    }
}

/// The character-level feature rows, saturated to `i32`, of the characters
/// at `char_positions` of `text`. Fails at the first position that is not
/// below the number of characters.
pub fn legacy_parity_rows(appender: &CharBoundaryLegacyAppender, text: &str, char_positions: &Vec<usize>) -> (r: Result<
    Vec<Vec<i32>>,
    ParityError,
>)
    requires
        text.spec_bytes().len() <= u32::MAX,
        appender.spec_width() <= usize::MAX,
    ensures
        r matches Ok(rows) ==> parity_rows_match(*appender, text.spec_bytes(), char_positions@, row_views(rows@)),
        r matches Err(ParityError::PositionOutsideText(p)) ==> exists|starts: Seq<BytePos>, vals: Seq<u32>|
            #[trigger] scalar_view_of(text.spec_bytes(), starts, vals) && exists|k: int|
                0 <= k < char_positions@.len() && #[trigger] char_positions@[k] == p && p >= starts.len()
                    && forall|j: int| 0 <= j < k ==> #[trigger] char_positions@[j] < starts.len(),
        !(r matches Err(ParityError::Feature(_))),
{
    let view = Utf8ScalarView::decode(text);
    let ghost starts = view.scalar_starts@;
    let ghost vals = view.scalar_values@;
    let ghost b = text.spec_bytes();
    assert(scalar_view_of(b, starts, vals));
    let n = view.scalar_starts.len();
    let mut rows: Vec<Vec<i32>> = Vec::new();
    let mut k: usize = 0;
    while k < char_positions.len()
        invariant
            k <= char_positions@.len(),
            n == starts.len() == vals.len(),
            starts == view.scalar_starts@,
            vals == view.scalar_values@,
            b == text.spec_bytes(),
            scalar_view_of(b, starts, vals),
            appender.spec_width() <= usize::MAX,
            rows@.len() == k,
            forall|j: int| 0 <= j < k ==> #[trigger] char_positions@[j] < n,
            forall|j: int|
                0 <= j < k ==> #[trigger] rows@[j]@ == clamp_row(
                    appender.row_spec(vals, starts, char_positions@[j] as int),
                ),
        decreases char_positions@.len() - k,
    {
        let p = char_positions[k];
        if p >= n {
            assert(char_positions@[k as int] == p);
            return Err(ParityError::PositionOutsideText(p));
        }
        let offset = view.scalar_starts[p].as_usize();
        let row = match appender.row_at(&view, offset) {
            Ok(row) => row,
            Err(e) => {
                assert(scalar_index_is(starts, offset as int, p as int));
                return Err(ParityError::Feature(e));
            },
        };
        proof {
            let ci = choose|ci: int|
                #[trigger] scalar_index_is(starts, offset as int, ci) && row@ == appender.row_spec(vals, starts, ci);
            if ci != p {
                if ci < p {
                    assert(starts[ci].0 < starts[p as int].0);
                } else {
                    assert(starts[p as int].0 < starts[ci].0);
                }
            }
        }
        let mut clamped: Vec<i32> = Vec::new();
        let mut i: usize = 0;
        while i < row.len()
            invariant
                i <= row@.len(),
                clamped@ == clamp_row(row@).subrange(0, i as int),
            decreases row@.len() - i,
        {
            clamped.push(clamp_to_i32(row[i]));
            assert(clamped@ =~= clamp_row(row@).subrange(0, i + 1));
            i = i + 1;
        }
        assert(clamped@ =~= clamp_row(row@));
        rows.push(clamped);
        k = k + 1;
    }
    proof {
        assert(row_views(rows@).len() == char_positions@.len());
        assert forall|j: int| 0 <= j < row_views(rows@).len() implies char_positions@[j] < starts.len()
            && #[trigger] row_views(rows@)[j] == clamp_row(
            appender.row_spec(vals, starts, char_positions@[j] as int),
        ) by {
            assert(row_views(rows@)[j] == rows@[j]@);
        }
    }
    Ok(rows)
}

/// Compares the character-level feature rows of the characters the parity
/// spec lists with reference rows computed elsewhere.
pub fn compare_charboundary_legacy_features(
    spec: &ParityCheckSpec,
    appender: &CharBoundaryLegacyAppender,
    python_rows: &Vec<Vec<i32>>,
) -> (r: Result<ParityCheckReport, ParityError>)
    requires
        vstd::utf8::encode_utf8(spec.text@).len() <= u32::MAX,
        appender.spec_width() <= usize::MAX,
        appender.left() == spec.left_window,
        appender.right() == spec.right_window,
    ensures
        r matches Ok(report) ==> exists|rows: Seq<Vec<i32>>|
            #[trigger] parity_rows_match(*appender, vstd::utf8::encode_utf8(spec.text@), spec.char_positions@, row_views(rows))
                && report_matches(report, rows, python_rows@),
        r matches Err(ParityError::PositionOutsideText(p)) ==> exists|starts: Seq<BytePos>, vals: Seq<u32>|
            #[trigger] scalar_view_of(vstd::utf8::encode_utf8(spec.text@), starts, vals) && exists|k: int|
                0 <= k < spec.char_positions@.len() && #[trigger] spec.char_positions@[k] == p && p
                    >= starts.len() && forall|j: int|
                    0 <= j < k ==> #[trigger] spec.char_positions@[j] < starts.len(),
        !(r matches Err(ParityError::Feature(_))),
{
    let rows = match legacy_parity_rows(appender, spec.text.as_str(), &spec.char_positions) {
        Ok(rows) => rows,
        Err(e) => {
            return Err(e);
        },
    };
    let report = compare_feature_rows(&rows, python_rows);
    assert(parity_rows_match(*appender, vstd::utf8::encode_utf8(spec.text@), spec.char_positions@, row_views(rows@)));
    Ok(report)
}

} // verus!
