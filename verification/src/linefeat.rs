use vstd::prelude::*;
use vstd::string::StringSliceAdditionalSpecFns;
use vstd::utf8::*;

use crate::data::FeatureBlock;
use crate::lines::{
    has_metadata_colon, lemma_first_nonspace_le, lemma_last_nonspace_none, heading_like, list_like, metadata_colon, starts_heading_like,
    starts_list_like, trim_bounds, trim_end_at, trim_start_at,
};
use crate::scalars::{decode_scalar_at, is_scalar_start, lemma_step_valid, scalar_at};
use crate::shape::{
    current_line, current_line_spec, newlines_after_spec, newlines_before_spec, next_line_after,
    next_line_spec, preceding_whitespace_run_newline_count, whitespace_run_newline_count,
};
use crate::textops::{
    alphabetic, clamp_len, count_scalars, floor_boundary, floor_char_boundary, is_boundary,
    is_line_break, lemma_case_first_nonspace, lemma_case_floor_boundary, lemma_case_last_nonspace,
    lemma_case_line_end, lemma_case_line_start, lemma_case_scalar, lemma_first_nonspace, lemma_floor_boundary,
    last_nonspace, lemma_last_nonspace, lemma_line_end, lemma_line_start, lemma_tail_valid, line_end_after,
    line_end_at, line_start_at, line_start_before, lower_ascii, lowercase, same_up_to_ascii_case, scalar_is_alphabetic, scalar_is_lowercase,
    scalar_is_uppercase, scalar_is_whitespace, uppercase, white_space,
};

verus! {

broadcast use vstd::utf8::encode_utf8_valid_utf8;

/// Character kinds counted by the line metrics.
#[derive(Clone, Copy, Debug, PartialEq, Eq, Structural)]
pub enum ScalarKind {
    Alphabetic,
    Uppercase,
    Lowercase,
    AsciiDigit,
    Whitespace,
    AsciiPunctuation,
    Quote,
    DoubleQuote,
    LowercaseOnly,
}

/// ASCII punctuation code points.
pub open spec fn ascii_punct_scalar(c: u32) -> bool {
    (0x21 <= c <= 0x2F) || (0x3A <= c <= 0x40) || (0x5B <= c <= 0x60) || (0x7B <= c <= 0x7E)
}

/// Whether code point `c` is of kind `k`.
pub open spec fn kind_holds(k: ScalarKind, c: u32) -> bool {
    match k {
        ScalarKind::Alphabetic => alphabetic(c),
        ScalarKind::Uppercase => uppercase(c),
        ScalarKind::Lowercase => lowercase(c),
        ScalarKind::AsciiDigit => 0x30 <= c <= 0x39,
        ScalarKind::Whitespace => white_space(c),
        ScalarKind::AsciiPunctuation => ascii_punct_scalar(c),
        ScalarKind::Quote => c == 0x22 || c == 0x27 || c == 0x201C || c == 0x201D || c == 0x2018
            || c == 0x2019,
        ScalarKind::DoubleQuote => c == 0x22 || c == 0x201C || c == 0x201D,
        ScalarKind::LowercaseOnly => alphabetic(c) && !uppercase(c) && lowercase(c),
    }
}

fn kind_check(k: ScalarKind, c: u32) -> (r: bool)
    ensures
        r == kind_holds(k, c),
{
    match k {
        ScalarKind::Alphabetic => scalar_is_alphabetic(c),
        ScalarKind::Uppercase => scalar_is_uppercase(c),
        ScalarKind::Lowercase => scalar_is_lowercase(c),
        ScalarKind::AsciiDigit => c >= 0x30 && c <= 0x39,
        ScalarKind::Whitespace => scalar_is_whitespace(c),
        ScalarKind::AsciiPunctuation => (c >= 0x21 && c <= 0x2F) || (c >= 0x3A && c <= 0x40) || (c
            >= 0x5B && c <= 0x60) || (c >= 0x7B && c <= 0x7E),
        ScalarKind::Quote => c == 0x22 || c == 0x27 || c == 0x201C || c == 0x201D || c == 0x2018
            || c == 0x2019,
        ScalarKind::DoubleQuote => c == 0x22 || c == 0x201C || c == 0x201D,
        ScalarKind::LowercaseOnly => scalar_is_alphabetic(c) && !scalar_is_uppercase(c)
            && scalar_is_lowercase(c),
    }
}

/// Scalars of kind `k` that start in `[lo, hi)`.
pub fn count_kind(bytes: &[u8], lo: usize, hi: usize, k: ScalarKind) -> (n: usize)
    requires
        valid_utf8(bytes@),
        lo <= hi <= bytes@.len(),
    ensures
        n == count_scalars(bytes@, lo as int, hi as int, |c: u32| kind_holds(k, c)),
{
    let ghost p = |c: u32| kind_holds(k, c);
    let mut i = lo;
    let mut n: usize = 0;
    while i < hi
        invariant
            valid_utf8(bytes@),
            lo <= i <= hi <= bytes@.len(),
            p == (|c: u32| kind_holds(k, c)),
            n == count_scalars(bytes@, lo as int, i as int, p),
            n <= i - lo,
        decreases hi - i,
    {
        if bytes[i] < 0x80 || bytes[i] >= 0xC0 {
            proof {
                lemma_tail_valid(bytes@, i as int);
            }
            let (c, _w) = decode_scalar_at(bytes, i);
            assert(p(c) == kind_holds(k, c));
            if kind_check(k, c) {
                n = n + 1;
            }
        }
        i = i + 1;
    }
    n
}

/// Character statistics of one line.
#[derive(Clone, Copy, Debug, PartialEq, Eq, Structural)]
pub struct LineShapeCounts {
    pub line_len: usize,
    pub trimmed_len: usize,
    pub leading_ws_bytes: usize,
    pub chars: usize,
    pub alphabetic: usize,
    pub uppercase: usize,
    pub lowercase: usize,
    pub digits: usize,
    pub whitespace: usize,
    pub punctuation: usize,
    pub symbols: usize,
    pub quote_chars: usize,
    pub ends_with_colon: bool,
    pub ends_with_clause_mark: bool,
    pub no_lowercase_letters: bool,
}

pub open spec fn kind_count(b: Seq<u8>, lo: int, hi: int, k: ScalarKind) -> nat {
    count_scalars(b, lo, hi, |c: u32| kind_holds(k, c))
}

/// The statistics of the line `[s, e)` of `b`.
pub open spec fn line_shape_counts_spec(b: Seq<u8>, s: int, e: int) -> LineShapeCounts {
    let ts = trim_start_at(b, s, e);
    let te = trim_end_at(b, s, e);
    LineShapeCounts {
        line_len: (e - s) as usize,
        trimmed_len: (te - ts) as usize,
        leading_ws_bytes: (ts - s) as usize,
        chars: count_scalars(b, s, e, |c: u32| true) as usize,
        alphabetic: kind_count(b, s, e, ScalarKind::Alphabetic) as usize,
        uppercase: kind_count(b, s, e, ScalarKind::Uppercase) as usize,
        lowercase: kind_count(b, s, e, ScalarKind::Lowercase) as usize,
        digits: kind_count(b, s, e, ScalarKind::AsciiDigit) as usize,
        whitespace: kind_count(b, s, e, ScalarKind::Whitespace) as usize,
        punctuation: kind_count(b, s, e, ScalarKind::AsciiPunctuation) as usize,
        symbols: kind_count(b, s, e, ScalarKind::AsciiPunctuation) as usize,
        quote_chars: kind_count(b, s, e, ScalarKind::Quote) as usize,
        ends_with_colon: te > ts && b[te - 1] == 0x3A,
        ends_with_clause_mark: te > ts && (b[te - 1] == 0x2E || b[te - 1] == 0x3B || b[te - 1]
            == 0x2C),
        no_lowercase_letters: kind_count(b, ts, te, ScalarKind::LowercaseOnly) == 0,
    }
}

fn count_all_scalars(bytes: &[u8], lo: usize, hi: usize) -> (n: usize)
    requires
        lo <= hi <= bytes@.len(),
    ensures
        n == count_scalars(bytes@, lo as int, hi as int, |c: u32| true),
{
    let ghost p = |c: u32| true;
    let mut i = lo;
    let mut n: usize = 0;
    while i < hi
        invariant
            lo <= i <= hi <= bytes@.len(),
            p == (|c: u32| true),
            n == count_scalars(bytes@, lo as int, i as int, p),
            n <= i - lo,
        decreases hi - i,
    {
        assert(p(scalar_at(bytes@, i as int)));
        if bytes[i] < 0x80 || bytes[i] >= 0xC0 {
            n = n + 1;
        }
        i = i + 1;
    }
    n
}

/// The statistics of the line `[s, e)`.
pub fn line_shape_counts(bytes: &[u8], s: usize, e: usize) -> (counts: LineShapeCounts)
    requires
        valid_utf8(bytes@),
        s <= e <= bytes@.len(),
        is_boundary(bytes@, e as int),
    ensures
        counts == line_shape_counts_spec(bytes@, s as int, e as int),
{
    let (ts, te) = trim_bounds(bytes, s, e);
    LineShapeCounts {
        line_len: e - s,
        trimmed_len: te - ts,
        leading_ws_bytes: ts - s,
        chars: count_all_scalars(bytes, s, e),
        alphabetic: count_kind(bytes, s, e, ScalarKind::Alphabetic),
        uppercase: count_kind(bytes, s, e, ScalarKind::Uppercase),
        lowercase: count_kind(bytes, s, e, ScalarKind::Lowercase),
        digits: count_kind(bytes, s, e, ScalarKind::AsciiDigit),
        whitespace: count_kind(bytes, s, e, ScalarKind::Whitespace),
        punctuation: count_kind(bytes, s, e, ScalarKind::AsciiPunctuation),
        symbols: count_kind(bytes, s, e, ScalarKind::AsciiPunctuation),
        quote_chars: count_kind(bytes, s, e, ScalarKind::Quote),
        ends_with_colon: te > ts && bytes[te - 1] == 0x3A,
        ends_with_clause_mark: te > ts && (bytes[te - 1] == 0x2E || bytes[te - 1] == 0x3B
            || bytes[te - 1] == 0x2C),
        no_lowercase_letters: count_kind(bytes, ts, te, ScalarKind::LowercaseOnly) == 0,
    }
}

/// Continuous shape metrics for the current line around each candidate.
#[derive(Clone, Copy, Debug, Default)]
pub struct LineShapeMetricsAppender;

impl LineShapeMetricsAppender {
    pub fn new() -> (appender: Self) {
        LineShapeMetricsAppender
    }

    pub fn block(&self) -> (block: FeatureBlock)
        ensures
            block.name@ == "line_shape_metrics"@,
            block.width == 14,
            block.offset == 0,
    {
        FeatureBlock::new("line_shape_metrics", 14)
    }

    /// The statistics of the line holding `position`.
    pub fn counts_at(&self, text: &str, position: usize) -> (counts: LineShapeCounts)
        ensures
            ({
                let line = current_line_spec(text.spec_bytes(), position as int);
                counts == line_shape_counts_spec(text.spec_bytes(), line.0, line.1)
            }),
    {
        let bytes = text.as_bytes();
        let (s, e) = current_line(bytes, position);
        line_shape_counts(bytes, s, e)
    }
}

/// Trimmed statistics of a neighbouring line.
#[derive(Clone, Copy, Debug, PartialEq, Eq, Structural)]
pub struct CompactLineShape {
    pub trimmed_len: usize,
    pub chars: usize,
    pub alphabetic: usize,
    pub uppercase: usize,
    pub digits: usize,
    pub punctuation: usize,
}

pub open spec fn compact_line_shape_spec(b: Seq<u8>, s: int, e: int) -> CompactLineShape {
    let ts = trim_start_at(b, s, e);
    let te = trim_end_at(b, s, e);
    CompactLineShape {
        trimmed_len: (te - ts) as usize,
        chars: count_scalars(b, ts, te, |c: u32| true) as usize,
        alphabetic: kind_count(b, ts, te, ScalarKind::Alphabetic) as usize,
        uppercase: kind_count(b, ts, te, ScalarKind::Uppercase) as usize,
        digits: kind_count(b, ts, te, ScalarKind::AsciiDigit) as usize,
        punctuation: kind_count(b, ts, te, ScalarKind::AsciiPunctuation) as usize,
    }
}

pub fn compact_line_shape(bytes: &[u8], s: usize, e: usize) -> (shape: CompactLineShape)
    requires
        valid_utf8(bytes@),
        s <= e <= bytes@.len(),
        is_boundary(bytes@, e as int),
    ensures
        shape == compact_line_shape_spec(bytes@, s as int, e as int),
{
    let (ts, te) = trim_bounds(bytes, s, e);
    CompactLineShape {
        trimmed_len: te - ts,
        chars: count_all_scalars(bytes, ts, te),
        alphabetic: count_kind(bytes, ts, te, ScalarKind::Alphabetic),
        uppercase: count_kind(bytes, ts, te, ScalarKind::Uppercase),
        digits: count_kind(bytes, ts, te, ScalarKind::AsciiDigit),
        punctuation: count_kind(bytes, ts, te, ScalarKind::AsciiPunctuation),
    }
}

/// Steps back over the line breaks that end just before `i`.
pub open spec fn strip_breaks_back(b: Seq<u8>, i: int) -> int
    decreases i,
{
    if 0 < i <= b.len() && is_line_break(b[i - 1]) {
        strip_breaks_back(b, i - 1)
    } else {
        i
    }
}

/// The line before the line that starts at `line_start`, if there is one.
pub open spec fn previous_line_spec(b: Seq<u8>, line_start: int) -> Option<(int, int)> {
    if line_start == 0 {
        None
    } else {
        let pe = strip_breaks_back(b, line_start);
        Some((line_start_at(b, floor_boundary(b, clamp_len(b, pe))), pe))
    }
}

pub open spec fn range_or_empty(r: Option<(int, int)>) -> (int, int) {
    match r {
        Some(x) => x,
        None => (0, 0),
    }
}

/// Neighbour-line and position metrics of one candidate line.
#[derive(Clone, Copy, Debug, PartialEq, Eq, Structural)]
pub struct LineContext {
    pub at_text_start: bool,
    pub at_text_end: bool,
    pub offset: usize,
    pub text_len: usize,
    pub blank_before: bool,
    pub blank_after: bool,
    pub previous: CompactLineShape,
    pub next: CompactLineShape,
    pub previous_heading: bool,
    pub next_heading: bool,
    pub previous_list: bool,
    pub next_list: bool,
    pub previous_metadata: bool,
    pub next_metadata: bool,
    pub neighbour_blank: bool,
}

pub open spec fn line_context_spec(b: Seq<u8>, position: int) -> LineContext {
    let offset = clamp_len(b, position);
    let o = floor_boundary(b, offset);
    let ls = line_start_at(b, o);
    let le = line_end_at(b, o);
    let p = range_or_empty(previous_line_spec(b, ls));
    let q = range_or_empty(next_line_spec(b, le));
    LineContext {
        at_text_start: ls == 0,
        at_text_end: le >= b.len(),
        offset: offset as usize,
        text_len: b.len() as usize,
        blank_before: newlines_before_spec(b, ls) >= 2,
        blank_after: newlines_after_spec(b, le) >= 2,
        previous: compact_line_shape_spec(b, p.0, p.1),
        next: compact_line_shape_spec(b, q.0, q.1),
        previous_heading: heading_like(b, p.0, p.1),
        next_heading: heading_like(b, q.0, q.1),
        previous_list: list_like(b, p.0, p.1),
        next_list: list_like(b, q.0, q.1),
        previous_metadata: metadata_colon(b, p.0, p.1),
        next_metadata: metadata_colon(b, q.0, q.1),
        neighbour_blank: trim_end_at(b, p.0, p.1) == trim_start_at(b, p.0, p.1) || trim_end_at(
            b,
            q.0,
            q.1,
        ) == trim_start_at(b, q.0, q.1),
    }
}

/// `[start, end)` of the line before the line that starts at `line_start`.
fn previous_line_before(bytes: &[u8], line_start: usize) -> (r: Option<(usize, usize)>)
    requires
        valid_utf8(bytes@),
        line_start <= bytes@.len(),
        is_boundary(bytes@, line_start as int),
    ensures
        r matches Some((s, e)) ==> previous_line_spec(bytes@, line_start as int) == Some((s as int, e as int))
            && s <= e <= bytes@.len() && is_boundary(bytes@, e as int),
        r is None ==> previous_line_spec(bytes@, line_start as int) is None,
{
    if line_start == 0 {
        return None;
    }
    let mut pe = line_start;
    while pe > 0 && (bytes[pe - 1] == 0x0A || bytes[pe - 1] == 0x0D)
        invariant
            valid_utf8(bytes@),
            pe <= line_start <= bytes@.len(),
            is_boundary(bytes@, pe as int),
            strip_breaks_back(bytes@, pe as int) == strip_breaks_back(bytes@, line_start as int),
        decreases pe,
    {
        proof {
            crate::shape::lemma_break_boundaries(bytes@, pe - 1);
        }
        pe = pe - 1;
    }
    let fb = floor_char_boundary(bytes, pe);
    let ps = line_start_before(bytes, fb);
    proof {
        crate::textops::lemma_line_start(bytes@, fb as int);
    }
    Some((ps, pe))
}

/// Neighbor-line and coarse document-position metrics for line-level candidates.
#[derive(Clone, Copy, Debug, Default)]
pub struct LineContextMetricsAppender;

impl LineContextMetricsAppender {
    pub fn new() -> (appender: Self) {
        LineContextMetricsAppender
    }

    pub fn block(&self) -> (block: FeatureBlock)
        ensures
            block.name@ == "line_context_metrics"@,
            block.width == 22,
            block.offset == 0,
    {
        FeatureBlock::new("line_context_metrics", 22)
    }

    /// The neighbour-line metrics of the line holding `position`.
    pub fn context_at(&self, text: &str, position: usize) -> (context: LineContext)
        ensures
            context == line_context_spec(text.spec_bytes(), position as int),
    {
        let bytes = text.as_bytes();
        let n = bytes.len();
        let offset = if position < n {
            position
        } else {
            n
        };
        let o = floor_char_boundary(bytes, offset);
        let ls = line_start_before(bytes, o);
        let le = line_end_after(bytes, o);
        proof {
            crate::textops::lemma_line_start(bytes@, o as int);
            crate::textops::lemma_line_end(bytes@, o as int);
            crate::shape::lemma_break_boundaries(bytes@, ls as int);
            crate::shape::lemma_break_boundaries(bytes@, le as int);
        }
        let (ps, pe) = match previous_line_before(bytes, ls) {
            Some(r) => r,
            None => (0, 0),
        };
        let (qs, qe) = match next_line_after(bytes, le) {
            Some(r) => r,
            None => (0, 0),
        };
        let (pts, pte) = trim_bounds(bytes, ps, pe);
        let (qts, qte) = trim_bounds(bytes, qs, qe);
        LineContext {
            at_text_start: ls == 0,
            at_text_end: le >= n,
            offset,
            text_len: n,
            blank_before: preceding_whitespace_run_newline_count(bytes, ls) >= 2,
            blank_after: whitespace_run_newline_count(bytes, le) >= 2,
            previous: compact_line_shape(bytes, ps, pe),
            next: compact_line_shape(bytes, qs, qe),
            previous_heading: starts_heading_like(bytes, ps, pe),
            next_heading: starts_heading_like(bytes, qs, qe),
            previous_list: starts_list_like(bytes, ps, pe),
            next_list: starts_list_like(bytes, qs, qe),
            previous_metadata: has_metadata_colon(bytes, ps, pe),
            next_metadata: has_metadata_colon(bytes, qs, qe),
            neighbour_blank: pte == pts || qte == qts,
        }
    }
}

} // verus!

verus! {

/// The first and last bytes of a trimmed line.
#[derive(Clone, Debug)]
pub struct EdgeBytes {
    pub prefix: Vec<u8>,
    pub suffix: Vec<u8>,
}

/// Encoded byte prefix and suffix of the current trimmed line.
#[derive(Clone, Copy, Debug, Eq, PartialEq, Structural)]
pub struct LineEdgeByteWindowAppender {
    prefix: usize,
    suffix: usize,
}

impl LineEdgeByteWindowAppender {
    pub closed spec fn prefix_len(&self) -> usize {
        self.prefix
    }

    pub closed spec fn suffix_len(&self) -> usize {
        self.suffix
    }

    pub fn new(prefix: usize, suffix: usize) -> (appender: Self)
        ensures
            appender.prefix_len() == prefix,
            appender.suffix_len() == suffix,
    {
        LineEdgeByteWindowAppender { prefix, suffix }
    }

    /// Number of leading bytes taken.
    pub fn prefix_width(&self) -> (w: usize)
        ensures
            w == self.prefix_len(),
    {
        self.prefix
    }

    pub fn block(&self) -> (block: FeatureBlock)
        requires
            self.prefix_len() + self.suffix_len() <= usize::MAX,
        ensures
            block.name@ == "line_edge_byte_window"@,
            block.width == self.prefix_len() + self.suffix_len(),
            block.offset == 0,
    {
        FeatureBlock::new("line_edge_byte_window", self.prefix + self.suffix)
    }

    /// Up to `prefix` leading and `suffix` trailing bytes (last byte first) of
    /// the trimmed line holding `position`.
    pub fn edges_at(&self, text: &str, position: usize) -> (edges: EdgeBytes)
        ensures
            ({
                let b = text.spec_bytes();
                let line = current_line_spec(b, position as int);
                let ts = trim_start_at(b, line.0, line.1);
                let te = trim_end_at(b, line.0, line.1);
                let m = te - ts;
                &&& edges.prefix@.len() == (if self.prefix_len() < m {
                    self.prefix_len() as int
                } else {
                    m
                })
                &&& edges.suffix@.len() == (if self.suffix_len() < m {
                    self.suffix_len() as int
                } else {
                    m
                })
                &&& forall|k: int| 0 <= k < edges.prefix@.len() ==> #[trigger] edges.prefix@[k] == b[ts + k]
                &&& forall|k: int| 0 <= k < edges.suffix@.len() ==> #[trigger] edges.suffix@[k] == b[te - 1 - k]
            }),
    {
        let bytes = text.as_bytes();
        let (s, e) = current_line(bytes, position);
        let (ts, te) = trim_bounds(bytes, s, e);
        let m = te - ts;
        let p = if self.prefix < m {
            self.prefix
        } else {
            m
        };
        let q = if self.suffix < m {
            self.suffix
        } else {
            m
        };
        let mut prefix: Vec<u8> = Vec::new();
        let mut k: usize = 0;
        while k < p
            invariant
                ts + m == te <= bytes@.len(),
                p <= m,
                k <= p,
                prefix@.len() == k,
                forall|j: int| 0 <= j < k ==> #[trigger] prefix@[j] == bytes@[ts + j],
            decreases p - k,
        {
            prefix.push(bytes[ts + k]);
            k = k + 1;
        }
        let mut suffix: Vec<u8> = Vec::new();
        let mut k: usize = 0;
        while k < q
            invariant
                ts + m == te <= bytes@.len(),
                q <= m,
                k <= q,
                suffix@.len() == k,
                forall|j: int| 0 <= j < k ==> #[trigger] suffix@[j] == bytes@[te - 1 - j],
            decreases q - k,
        {
            suffix.push(bytes[te - 1 - k]);
            k = k + 1;
        }
        EdgeBytes { prefix, suffix }
    }
}

/// FNV-1a over `s` from state `h`, lower-casing ASCII letters.
pub open spec fn fnv_fold(h: u64, s: Seq<u8>) -> u64
    decreases s.len(),
{
    if s.len() == 0 {
        h
    } else {
        fnv_fold((h ^ (lower_ascii(s[0]) as u64)).wrapping_mul(0x0000_0100_0000_01B3u64), s.drop_first())
    }
}

/// The case-folded FNV-1a hash of an n-gram, seeded with its length.
pub open spec fn ngram_hash(s: Seq<u8>, n: u8) -> u64 {
    fnv_fold(0xcbf2_9ce4_8422_2325u64 ^ (n as u64), s)
}

/// Hashes `bytes[lo..hi]` as an n-gram of length tag `n`.
pub fn hash_lower_ascii_ngram(bytes: &[u8], lo: usize, hi: usize, n: u8) -> (h: u64)
    requires
        lo <= hi <= bytes@.len(),
    ensures
        h == ngram_hash(bytes@.subrange(lo as int, hi as int), n),
{
    let ghost s = bytes@.subrange(lo as int, hi as int);
    let mut h: u64 = 0xcbf2_9ce4_8422_2325u64 ^ (n as u64);
    let mut i = lo;
    assert(s.subrange(0, s.len() as int) =~= s);
    while i < hi
        invariant
            lo <= i <= hi <= bytes@.len(),
            s == bytes@.subrange(lo as int, hi as int),
            ngram_hash(s, n) == fnv_fold(h, bytes@.subrange(i as int, hi as int)),
        decreases hi - i,
    {
        let x = bytes[i];
        let lowered: u8 = if x >= 0x41 && x <= 0x5A {
            x + 32
        } else {
            x
        };
        assert(bytes@.subrange(i as int, hi as int).drop_first() =~= bytes@.subrange(i + 1, hi as int));
        h = (h ^ (lowered as u64)).wrapping_mul(0x0000_0100_0000_01B3u64);
        i = i + 1;
    }
    h
}

/// The sign an n-gram hash adds: its top bit chooses minus.
pub open spec fn ngram_sign(h: u64) -> int {
    if h & 0x8000_0000_0000_0000u64 == 0 {
        1
    } else {
        -1
    }
}

/// The bucket an n-gram hash falls in.
pub open spec fn ngram_bucket(h: u64, buckets: usize) -> int {
    ((h as usize) % buckets) as int
}

/// What the n-grams of length `n` starting before `upto` add to bucket `k`.
pub open spec fn row_sum(l: Seq<u8>, n: int, upto: int, k: int, buckets: usize) -> int
    decreases upto,
{
    if upto <= 0 {
        0
    } else {
        let h = ngram_hash(l.subrange(upto - 1, upto - 1 + n), n as u8);
        row_sum(l, n, upto - 1, k, buckets) + if ngram_bucket(h, buckets) == k {
            ngram_sign(h)
        } else {
            0
        }
    }
}

/// What all n-grams with lengths in `[lo, n)` add to bucket `k`.
pub open spec fn total_sum(l: Seq<u8>, lo: int, n: int, k: int, buckets: usize) -> int
    decreases n - lo,
{
    if n <= lo {
        0
    } else {
        total_sum(l, lo, n - 1, k, buckets) + row_sum(l, n - 1, l.len() - (n - 1) + 1, k, buckets)
    }
}

/// Number of n-grams with lengths in `[lo, n)` in a line of `m` bytes.
pub open spec fn total_count(m: int, lo: int, n: int) -> int
    decreases n - lo,
{
    if n <= lo {
        0
    } else {
        total_count(m, lo, n - 1) + (m - (n - 1) + 1)
    }
}

/// The line of `b` holding `position`, without its leading and trailing whitespace.
pub open spec fn trimmed_line(b: Seq<u8>, position: int) -> Seq<u8> {
    let line = current_line_spec(b, position);
    b.subrange(trim_start_at(b, line.0, line.1), trim_end_at(b, line.0, line.1))
}

proof fn lemma_case_fnv_fold(h: u64, s1: Seq<u8>, s2: Seq<u8>)
    requires
        same_up_to_ascii_case(s1, s2),
    ensures
        fnv_fold(h, s1) == fnv_fold(h, s2),
    decreases s1.len(),
{
    if s1.len() > 0 {
        assert(lower_ascii(s1[0]) == lower_ascii(s2[0]));
        let h2 = (h ^ (lower_ascii(s1[0]) as u64)).wrapping_mul(0x0000_0100_0000_01B3u64);
        assert(same_up_to_ascii_case(s1.drop_first(), s2.drop_first())) by {
            assert forall|i: int| 0 <= i < s1.drop_first().len() implies #[trigger] lower_ascii(
                s1.drop_first()[i],
            ) == lower_ascii(s2.drop_first()[i]) by {
                assert(lower_ascii(s1[i + 1]) == lower_ascii(s2[i + 1]));
            }
        }
        lemma_case_fnv_fold(h2, s1.drop_first(), s2.drop_first());
    }
}

proof fn lemma_case_subrange(s1: Seq<u8>, s2: Seq<u8>, a: int, c: int)
    requires
        same_up_to_ascii_case(s1, s2),
        0 <= a <= c <= s1.len(),
    ensures
        same_up_to_ascii_case(s1.subrange(a, c), s2.subrange(a, c)),
{
    assert forall|i: int| 0 <= i < c - a implies #[trigger] lower_ascii(s1.subrange(a, c)[i])
        == lower_ascii(s2.subrange(a, c)[i]) by {
        assert(lower_ascii(s1[a + i]) == lower_ascii(s2[a + i]));
    }
}

proof fn lemma_case_row_sum(l1: Seq<u8>, l2: Seq<u8>, n: int, upto: int, k: int, buckets: usize)
    requires
        same_up_to_ascii_case(l1, l2),
        0 <= n,
        upto - 1 + n <= l1.len(),
    ensures
        row_sum(l1, n, upto, k, buckets) == row_sum(l2, n, upto, k, buckets),
    decreases upto,
{
    if upto > 0 {
        lemma_case_subrange(l1, l2, upto - 1, upto - 1 + n);
        lemma_case_fnv_fold(
            0xcbf2_9ce4_8422_2325u64 ^ ((n as u8) as u64),
            l1.subrange(upto - 1, upto - 1 + n),
            l2.subrange(upto - 1, upto - 1 + n),
        );
        lemma_case_row_sum(l1, l2, n, upto - 1, k, buckets);
    }
}

proof fn lemma_case_total_sum(l1: Seq<u8>, l2: Seq<u8>, lo: int, n: int, k: int, buckets: usize)
    requires
        same_up_to_ascii_case(l1, l2),
        0 <= lo,
        n <= l1.len() + 1,
    ensures
        total_sum(l1, lo, n, k, buckets) == total_sum(l2, lo, n, k, buckets),
    decreases n - lo,
{
    if n > lo {
        lemma_case_total_sum(l1, l2, lo, n - 1, k, buckets);
        lemma_case_row_sum(l1, l2, n - 1, l1.len() - (n - 1) + 1, k, buckets);
    }
}

/// Case of ASCII letters does not change the trimmed line, but for its letters.
pub proof fn lemma_case_trimmed_line(b1: Seq<u8>, b2: Seq<u8>, position: int)
    requires
        valid_utf8(b1),
        same_up_to_ascii_case(b1, b2),
    ensures
        same_up_to_ascii_case(trimmed_line(b1, position), trimmed_line(b2, position)),
{
    let c = clamp_len(b1, position);
    if c > 0 {
        lemma_floor_boundary(b1, c);
    }
    lemma_case_floor_boundary(b1, b2, c);
    let o = floor_boundary(b1, c);
    lemma_case_line_start(b1, b2, o);
    lemma_case_line_end(b1, b2, o);
    lemma_line_start(b1, o);
    lemma_line_end(b1, o);
    let s = line_start_at(b1, o);
    let e = line_end_at(b1, o);
    lemma_case_first_nonspace(b1, b2, s, e);
    lemma_case_last_nonspace(b1, b2, s, e);
    lemma_first_nonspace(b1, s, e);
    lemma_last_nonspace(b1, s, e);
    if let Some(x) = last_nonspace(b1, s, e) {
        lemma_case_scalar(b1, b2, x);
        lemma_tail_valid(b1, x);
        lemma_step_valid(b1, x);
        lemma_first_nonspace_le(b1, s, e, x);
    } else {
        lemma_last_nonspace_none(b1, s, e);
    }
    let ts = trim_start_at(b1, s, e);
    let te = trim_end_at(b1, s, e);
    assert(0 <= ts <= te <= b1.len());
    lemma_case_subrange(b1, b2, ts, te);
}

/// Signed bucket sums of the hashed n-grams of one line, with their number.
#[derive(Clone, Debug)]
pub struct NgramCounts {
    pub sums: Vec<i128>,
    pub ngrams: u128,
}

/// Signed feature-hashed byte n-grams from the current trimmed line.
#[derive(Clone, Copy, Debug, Eq, PartialEq, Structural)]
pub struct LineByteNgramHashAppender {
    buckets: usize,
    min_n: usize,
    max_n: usize,
}

impl LineByteNgramHashAppender {
    pub closed spec fn bucket_count(&self) -> usize {
        self.buckets
    }

    pub closed spec fn min_len(&self) -> usize {
        self.min_n
    }

    pub closed spec fn max_len(&self) -> usize {
        self.max_n
    }

    /// A usable configuration: some buckets and `1 <= min_n <= max_n`.
    pub open spec fn valid_config(&self) -> bool {
        self.bucket_count() > 0 && self.min_len() > 0 && self.min_len() <= self.max_len()
    }

    pub fn new(buckets: usize, min_n: usize, max_n: usize) -> (appender: Self)
        ensures
            appender.bucket_count() == buckets,
            appender.min_len() == min_n,
            appender.max_len() == max_n,
    {
        LineByteNgramHashAppender { buckets, min_n, max_n }
    }

    pub fn block(&self) -> (block: FeatureBlock)
        ensures
            block.name@ == "line_byte_ngram_hash"@,
            block.width == self.bucket_count(),
            block.offset == 0,
    {
        FeatureBlock::new("line_byte_ngram_hash", self.buckets)
    }

    pub fn is_valid_config(&self) -> (ok: bool)
        ensures
            ok == self.valid_config(),
    {
        self.buckets > 0 && self.min_n > 0 && self.min_n <= self.max_n
    }

    /// Longest n-gram length hashed on a line of `m` bytes.
    pub open spec fn top_len(&self, m: int) -> int {
        if (self.max_len() as int) < m {
            self.max_len() as int
        } else {
            m
        }
    }

    /// What the n-grams of the trimmed line holding `position` add to bucket `k`.
    pub open spec fn line_sum(&self, b: Seq<u8>, position: int, k: int) -> int {
        let l = trimmed_line(b, position);
        total_sum(l, self.min_len() as int, self.top_len(l.len() as int) + 1, k, self.bucket_count())
    }

    /// Number of n-grams hashed from the trimmed line holding `position`.
    pub open spec fn line_count(&self, b: Seq<u8>, position: int) -> int {
        let l = trimmed_line(b, position);
        total_count(l.len() as int, self.min_len() as int, self.top_len(l.len() as int) + 1)
    }

    /// Hashing ignores the case of ASCII letters: two texts that differ only
    /// there give every line the same bucket sums and the same n-gram count.
    pub proof fn lemma_hashing_ignores_ascii_case(&self, b1: Seq<u8>, b2: Seq<u8>, position: int)
        requires
            valid_utf8(b1),
            same_up_to_ascii_case(b1, b2),
        ensures
            self.line_count(b1, position) == self.line_count(b2, position),
            forall|k: int| #[trigger] self.line_sum(b1, position, k) == self.line_sum(b2, position, k),
    {
        lemma_case_trimmed_line(b1, b2, position);
        let l1 = trimmed_line(b1, position);
        let l2 = trimmed_line(b2, position);
        assert forall|k: int| #[trigger] self.line_sum(b1, position, k) == self.line_sum(b2, position, k) by {
            lemma_case_total_sum(
                l1,
                l2,
                self.min_len() as int,
                self.top_len(l1.len() as int) + 1,
                k,
                self.bucket_count(),
            );
        }
    }

    /// Hashes every n-gram of the trimmed line holding `position` into the buckets.
    pub fn hashed_at(&self, text: &str, position: usize) -> (counts: NgramCounts)
        requires
            self.valid_config(),
            text.spec_bytes().len() <= isize::MAX,
        ensures
            counts.sums@.len() == self.bucket_count(),
            counts.ngrams == self.line_count(text.spec_bytes(), position as int),
            forall|k: int|
                0 <= k < self.bucket_count() ==> #[trigger] counts.sums@[k] == self.line_sum(
                    text.spec_bytes(),
                    position as int,
                    k,
                ),
    {
        let bytes = text.as_bytes();
        let (s, e) = current_line(bytes, position);
        let (ts, te) = trim_bounds(bytes, s, e);
        let ghost l = bytes@.subrange(ts as int, te as int);
        let m = te - ts;
        let buckets = self.buckets;
        let min_n = self.min_n;
        let top = if self.max_n < m {
            self.max_n
        } else {
            m
        };
        let mut sums: Vec<i128> = Vec::new();
        let mut k: usize = 0;
        while k < buckets
            invariant
                k <= buckets,
                sums@.len() == k,
                forall|j: int| 0 <= j < k ==> #[trigger] sums@[j] == 0,
            decreases buckets - k,
        {
            sums.push(0);
            k = k + 1;
        }
        let mut ngrams: u128 = 0;
        let mut n = min_n;
        if min_n <= top {
        while n <= top
            invariant
                ts + m == te <= bytes@.len() <= isize::MAX,
                l == bytes@.subrange(ts as int, te as int),
                l.len() == m,
                buckets > 0,
                buckets == self.bucket_count(),
                1 <= min_n,
                min_n <= n <= top + 1,
                top <= m,
                sums@.len() == buckets,
                ngrams == total_count(m as int, min_n as int, n as int),
                ngrams <= (n - min_n) * (m + 1),
                forall|j: int|
                    0 <= j < buckets ==> #[trigger] sums@[j] == total_sum(
                        l,
                        min_n as int,
                        n as int,
                        j,
                        buckets,
                    ),
                forall|j: int| 0 <= j < buckets ==> -(ngrams as int) <= #[trigger] sums@[j] <= ngrams,
            decreases top + 1 - n,
        {
            let mut start: usize = 0;
            while start + n <= m
                invariant
                    ts + m == te <= bytes@.len() <= isize::MAX,
                    l == bytes@.subrange(ts as int, te as int),
                    l.len() == m,
                    buckets > 0,
                    1 <= min_n <= n <= top <= m,
                    start <= m - n + 1,
                    sums@.len() == buckets,
                    ngrams == total_count(m as int, min_n as int, n as int) + start,
                    ngrams <= (n - min_n) * (m + 1) + start,
                    forall|j: int|
                        0 <= j < buckets ==> #[trigger] sums@[j] == total_sum(
                            l,
                            min_n as int,
                            n as int,
                            j,
                            buckets,
                        ) + row_sum(l, n as int, start as int, j, buckets),
                    forall|j: int| 0 <= j < buckets ==> -(ngrams as int) <= #[trigger] sums@[j] <= ngrams,
                decreases m - n + 1 - start,
            {
                assert(bytes@.subrange(ts + start, ts + start + n) =~= l.subrange(
                    start as int,
                    start + n,
                ));
                let h = hash_lower_ascii_ngram(bytes, ts + start, ts + start + n, n as u8);
                let bucket = (h as usize) % buckets;
                let sign: i128 = if h & 0x8000_0000_0000_0000u64 == 0 {
                    1
                } else {
                    -1
                };
                assert((n - min_n) * (m + 1) <= m * (m + 1)) by (nonlinear_arith)
                    requires
                        n - min_n <= m,
                ;
                assert(m * (m + 1) <= 0x7fff_ffff_ffff_ffff * 0x8000_0000_0000_0000) by (nonlinear_arith)
                    requires
                        m <= 0x7fff_ffff_ffff_ffff,
                ;
                let old = sums[bucket];
                sums.set(bucket, old + sign);
                ngrams = ngrams + 1;
                start = start + 1;
            }
            assert((n - min_n) * (m + 1) + (m - n + 1) <= (n + 1 - min_n) * (m + 1)) by (nonlinear_arith)
                requires
                    n <= m,
            ;
            n = n + 1;
        }
        }
        NgramCounts { sums, ngrams }
    }
}

} // verus!
