use vstd::prelude::*;

use vstd::string::StringSliceAdditionalSpecFns;

use crate::text::TextBytes;

verus! {

/// Byte position in the canonical byte-oriented text space.
#[derive(Clone, Copy, Debug, PartialEq, Eq, Structural, Hash, PartialOrd, Ord)]
pub struct BytePos(pub u32);

impl BytePos {
    /// Creates a byte position from a `usize`; the value must fit in `u32`.
    pub fn from_usize(value: usize) -> (pos: Self)
        requires
            value <= u32::MAX,
        ensures
            pos.0 == value,
    {
        BytePos(value as u32)
    }

    /// Returns the position as a `usize`.
    pub fn as_usize(self) -> (value: usize)
        ensures
            value == self.0,
    {
        self.0 as usize
    }
}

/// Unicode scalar position for derived UTF-8 views.
#[derive(Clone, Copy, Debug, PartialEq, Eq, Structural, Hash, PartialOrd, Ord)]
pub struct ScalarPos(pub u32);

/// Half-open byte span.
#[derive(Clone, Copy, Debug, PartialEq, Eq, Structural)]
pub struct ByteSpan {
    pub start: BytePos,
    pub end: BytePos,
}

impl ByteSpan {
    pub fn new(start: usize, end: usize) -> (span: Self)
        requires
            start <= u32::MAX,
            end <= u32::MAX,
        ensures
            span.start.0 == start,
            span.end.0 == end,
    {
        ByteSpan { start: BytePos::from_usize(start), end: BytePos::from_usize(end) }
    }
}

/// Range scanned for candidate positions.
#[derive(Clone, Copy, Debug, PartialEq, Eq, Structural)]
pub struct ScanRange {
    pub start: BytePos,
    pub end: BytePos,
}

impl ScanRange {
    pub fn new(start: usize, end: usize) -> (range: Self)
        requires
            start <= u32::MAX,
            end <= u32::MAX,
        ensures
            range.start.0 == start,
            range.end.0 == end,
    {
        ScanRange { start: BytePos::from_usize(start), end: BytePos::from_usize(end) }
    }

    /// The range covering the whole text.
    pub fn full(text: TextBytes<'_>) -> (range: Self)
        requires
            text@.len() <= u32::MAX,
        ensures
            range.start.0 == 0,
            range.end.0 == text@.len(),
    {
        Self::new(0, text.len())
    }
}

/// Chunk range with overlap metadata.
#[derive(Clone, Copy, Debug, PartialEq, Eq, Structural)]
pub struct ChunkRange {
    pub start: BytePos,
    pub end: BytePos,
    pub left_overlap: u32,
    pub right_overlap: u32,
}

/// Owned output range after overlap handling.
#[derive(Clone, Copy, Debug, PartialEq, Eq, Structural)]
pub struct OwnedRange {
    pub start: BytePos,
    pub end: BytePos,
}

/// Fixed-width byte window specification.
#[derive(Clone, Copy, Debug, PartialEq, Eq, Structural)]
pub struct ByteWindowSpec {
    pub left: usize,
    pub right: usize,
}

impl ByteWindowSpec {
    pub fn new(left: usize, right: usize) -> (spec: Self)
        ensures
            spec.left == left,
            spec.right == right,
    {
        ByteWindowSpec { left, right }
    }

    /// Number of bytes covered: the left context, the center and the right context.
    pub open spec fn spec_width(self) -> int {
        self.left + self.right + 1
    }

    pub fn width(self) -> (w: usize)
        requires
            self.spec_width() <= usize::MAX,
        ensures
            w == self.spec_width(),
    {
        self.left + self.right + 1
    }
}

/// Fixed-width scalar window specification for Unicode-aware kernels.
#[derive(Clone, Copy, Debug, PartialEq, Eq, Structural)]
pub struct ScalarWindowSpec {
    pub left: usize,
    pub right: usize,
}

/// Sparse window specification.
#[derive(Clone, Copy, Debug, PartialEq, Eq, Structural)]
pub struct StrideWindowSpec {
    pub left: usize,
    pub right: usize,
    pub stride: usize,
}

/// Reusable candidate buffer.
#[derive(Clone, Debug, Default)]
pub struct CandidateBuffer {
    data: Vec<BytePos>,
}

impl View for CandidateBuffer {
    type V = Seq<BytePos>;

    closed spec fn view(&self) -> Seq<BytePos> {
        self.data@
    }
}

impl CandidateBuffer {
    pub fn new() -> (buffer: Self)
        ensures
            buffer@ == Seq::<BytePos>::empty(),
    {
        CandidateBuffer { data: Vec::new() }
    }

    pub fn clear(&mut self)
        ensures
            final(self)@ == Seq::<BytePos>::empty(),
    {
        self.data.clear();
    }

    pub fn push(&mut self, position: BytePos)
        ensures
            final(self)@ == old(self)@.push(position),
    {
        self.data.push(position);
    }

    pub fn len(&self) -> (n: usize)
        ensures
            n == self@.len(),
    {
        self.data.len()
    }

    pub fn is_empty(&self) -> (b: bool)
        ensures
            b == (self@.len() == 0),
    {
        self.data.len() == 0
    }

    pub fn as_slice(&self) -> (slice: CandidateSlice<'_>)
        ensures
            slice.data@ == self@,
    {
        CandidateSlice { data: self.data.as_slice() }
    }

    pub fn positions(&self) -> (positions: &[BytePos])
        ensures
            positions@ == self@,
    {
        self.data.as_slice()
    }
}

/// Borrowed candidate slice.
#[derive(Clone, Copy, Debug)]
pub struct CandidateSlice<'a> {
    pub data: &'a [BytePos],
}

impl<'a> CandidateSlice<'a> {
    pub fn len(self) -> (n: usize)
        ensures
            n == self.data@.len(),
    {
        self.data.len()
    }

    pub fn is_empty(self) -> (b: bool)
        ensures
            b == (self.data@.len() == 0),
    {
        self.data.len() == 0
    }
}

/// Semantic alias for more generic position-oriented pipelines.
pub type PositionBuffer = CandidateBuffer;

/// Semantic alias for more generic position-oriented pipelines.
pub type PositionSlice<'a> = CandidateSlice<'a>;

} // verus!

verus! {

/// True when each position of `s` is below the next one.
pub open spec fn strictly_increasing(s: Seq<BytePos>) -> bool {
    forall|a: int, b: int| 0 <= a < b < s.len() ==> s[a].0 < s[b].0
}

/// `s` lists, in increasing order, exactly the offsets in `[lo, hi)` that satisfy `p`.
pub open spec fn lists_exactly(s: Seq<BytePos>, lo: int, hi: int, p: spec_fn(int) -> bool) -> bool {
    &&& strictly_increasing(s)
    &&& forall|k: int| 0 <= k < s.len() ==> lo <= #[trigger] s[k].0 < hi && p(s[k].0 as int)
    &&& forall|i: int|
        lo <= i < hi && #[trigger] p(i) ==> exists|k: int| 0 <= k < s.len() && #[trigger] s[k].0 == i
}

} // verus!

verus! {

/// At most one sequence lists exactly the offsets in `[lo, hi)` that satisfy `p`.
pub proof fn lemma_lists_exactly_unique(
    s1: Seq<BytePos>,
    s2: Seq<BytePos>,
    lo: int,
    hi: int,
    p: spec_fn(int) -> bool,
)
    requires
        lists_exactly(s1, lo, hi, p),
        lists_exactly(s2, lo, hi, p),
    ensures
        s1 == s2,
    decreases s1.len() + s2.len(),
{
    if s1.len() == 0 || s2.len() == 0 {
        if s1.len() > 0 {
            assert(p(s1[0].0 as int));
            assert(lo <= s1[0].0 < hi);
        }
        if s2.len() > 0 {
            assert(p(s2[0].0 as int));
            assert(lo <= s2[0].0 < hi);
        }
        assert(s1 =~= s2);
    } else {
        let x1 = s1.last();
        let x2 = s2.last();
        assert(p(x1.0 as int) && lo <= x1.0 < hi);
        assert(p(x2.0 as int) && lo <= x2.0 < hi);
        let k1 = choose|k: int| 0 <= k < s2.len() && #[trigger] s2[k].0 == x1.0 as int;
        let k2 = choose|k: int| 0 <= k < s1.len() && #[trigger] s1[k].0 == x2.0 as int;
        if k1 < s2.len() - 1 {
            assert(s2[k1].0 < s2[s2.len() - 1].0);
        }
        if k2 < s1.len() - 1 {
            assert(s1[k2].0 < s1[s1.len() - 1].0);
        }
        assert(x1.0 == x2.0);
        let t1 = s1.drop_last();
        let t2 = s2.drop_last();
        let x = x1.0 as int;
        assert forall|k: int| 0 <= k < t1.len() implies lo <= #[trigger] t1[k].0 < x && p(t1[k].0 as int) by {
            assert(t1[k] == s1[k]);
            assert(s1[k].0 < s1[s1.len() - 1].0);
        }
        assert forall|k: int| 0 <= k < t2.len() implies lo <= #[trigger] t2[k].0 < x && p(t2[k].0 as int) by {
            assert(t2[k] == s2[k]);
            assert(s2[k].0 < s2[s2.len() - 1].0);
        }
        assert forall|i: int| lo <= i < x && #[trigger] p(i) implies exists|k: int|
            0 <= k < t1.len() && #[trigger] t1[k].0 == i by {
            let k = choose|k: int| 0 <= k < s1.len() && #[trigger] s1[k].0 == i;
            assert(k != s1.len() - 1);
            assert(t1[k] == s1[k]);
        }
        assert forall|i: int| lo <= i < x && #[trigger] p(i) implies exists|k: int|
            0 <= k < t2.len() && #[trigger] t2[k].0 == i by {
            let k = choose|k: int| 0 <= k < s2.len() && #[trigger] s2[k].0 == i;
            assert(k != s2.len() - 1);
            assert(t2[k] == s2[k]);
        }
        lemma_lists_exactly_unique(t1, t2, lo, x, p);
        assert(s1 =~= t1.push(x1));
        assert(s2 =~= t2.push(x2));
    }
}

/// Extending the scanned range by offsets that do not satisfy `p` keeps the listing exact.
pub proof fn lemma_lists_exactly_skip(
    s: Seq<BytePos>,
    lo: int,
    hi: int,
    new_hi: int,
    p: spec_fn(int) -> bool,
)
    requires
        lists_exactly(s, lo, hi, p),
        hi <= new_hi,
        forall|j: int| hi <= j < new_hi ==> !#[trigger] p(j),
    ensures
        lists_exactly(s, lo, new_hi, p),
{
    assert forall|i: int| lo <= i < new_hi && #[trigger] p(i) implies exists|k: int|
        0 <= k < s.len() && #[trigger] s[k].0 == i by {
        assert(i < hi);
    }
}

/// Appending the next satisfying offset `x` (the only one in `[hi, new_hi)`) keeps the listing exact.
pub proof fn lemma_lists_exactly_push(
    s: Seq<BytePos>,
    lo: int,
    hi: int,
    new_hi: int,
    p: spec_fn(int) -> bool,
    x: u32,
)
    requires
        lists_exactly(s, lo, hi, p),
        lo <= hi <= x < new_hi,
        p(x as int),
        forall|j: int| hi <= j < new_hi && j != x ==> !#[trigger] p(j),
    ensures
        lists_exactly(s.push(BytePos(x)), lo, new_hi, p),
{
    let t = s.push(BytePos(x));
    assert forall|i: int| lo <= i < new_hi && #[trigger] p(i) implies exists|k: int|
        0 <= k < t.len() && #[trigger] t[k].0 == i by {
        if i < hi {
            let k = choose|k: int| 0 <= k < s.len() && #[trigger] s[k].0 == i;
            assert(t[k] == s[k]);
        } else {
            assert(t[s.len() as int].0 == i);
        }
    }
    assert forall|k: int| 0 <= k < t.len() implies lo <= #[trigger] t[k].0 < new_hi && p(
        t[k].0 as int,
    ) by {
        if k < s.len() {
            assert(t[k] == s[k]);
        }
    }
    assert forall|a: int, b: int| 0 <= a < b < t.len() implies t[a].0 < t[b].0 by {
        if b < s.len() {
            assert(t[a] == s[a] && t[b] == s[b]);
        } else {
            assert(t[a] == s[a]);
        }
    }
}

} // verus!

verus! {

/// Equality of two strings, decided on their UTF-8 bytes.
pub fn str_eq(a: &str, b: &str) -> (r: bool)
    ensures
        r == (a@ == b@),
{
    broadcast use vstd::utf8::encode_utf8_decode_utf8, vstd::utf8::encode_utf8_valid_utf8;

    let x = a.as_bytes();
    let y = b.as_bytes();
    if x.len() != y.len() {
        assert(x@ != y@);
        return false;
    }
    let n = x.len();
    let mut i: usize = 0;
    while i < n
        invariant
            n == x@.len(),
            n == y@.len(),
            x@ == a.spec_bytes(),
            y@ == b.spec_bytes(),
            i <= n,
            forall|j: int| 0 <= j < i ==> x@[j] == y@[j],
        decreases n - i,
    {
        if x[i] != y[i] {
            assert(x@[i as int] != y@[i as int]);
            assert(x@ != y@);
            return false;
        }
        i = i + 1;
    }
    assert(x@ =~= y@);
    assert(a@ == vstd::utf8::decode_utf8(a.spec_bytes()));
    true
}

/// One stable block of columns in the feature matrix.
#[derive(Clone, Copy, Debug)]
pub struct FeatureBlock {
    pub name: &'static str,
    pub offset: usize,
    pub width: usize,
}

impl FeatureBlock {
    pub fn new(name: &'static str, width: usize) -> (block: Self)
        ensures
            block.name == name,
            block.offset == 0,
            block.width == width,
    {
        FeatureBlock { name, offset: 0, width }
    }

    pub fn with_offset(self, offset: usize) -> (block: Self)
        ensures
            block.name == self.name,
            block.offset == offset,
            block.width == self.width,
    {
        FeatureBlock { name: self.name, offset, width: self.width }
    }
}

/// The largest `offset + width` over `blocks`, or zero when there are none.
pub open spec fn max_block_end(blocks: Seq<FeatureBlock>) -> int
    decreases blocks.len(),
{
    if blocks.len() == 0 {
        0
    } else {
        let rest = max_block_end(blocks.drop_last());
        let end = blocks.last().offset + blocks.last().width;
        if end > rest {
            end
        } else {
            rest
        }
    }
}

/// True when no block's `offset + width` exceeds `usize::MAX`.
pub open spec fn blocks_fit(blocks: Seq<FeatureBlock>) -> bool {
    forall|i: int| 0 <= i < blocks.len() ==> #[trigger] blocks[i].offset + blocks[i].width <= usize::MAX
}

/// Explicit feature layout shared by training and inference.
#[derive(Debug)]
pub struct FeatureSchema {
    blocks: Vec<FeatureBlock>,
    total_dim: usize,
}

impl View for FeatureSchema {
    type V = Seq<FeatureBlock>;

    closed spec fn view(&self) -> Seq<FeatureBlock> {
        self.blocks@
    }
}

impl FeatureSchema {
    #[verifier::type_invariant]
    closed spec fn dim_is_max_end(self) -> bool {
        self.total_dim == max_block_end(self.blocks@)
    }

    pub fn new(blocks: Vec<FeatureBlock>) -> (schema: Self)
        requires
            blocks_fit(blocks@),
        ensures
            schema@ == blocks@,
            schema.spec_total_dim() == max_block_end(blocks@),
    {
        let mut total_dim: usize = 0;
        let n = blocks.len();
        let mut i: usize = 0;
        while i < n
            invariant
                n == blocks@.len(),
                i <= n,
                blocks_fit(blocks@),
                total_dim == max_block_end(blocks@.subrange(0, i as int)),
            decreases n - i,
        {
            let block = blocks[i];
            assert(blocks@.subrange(0, i + 1).drop_last() =~= blocks@.subrange(0, i as int));
            assert(blocks@[i as int].offset + blocks@[i as int].width <= usize::MAX);
            let end = block.offset + block.width;
            if end > total_dim {
                total_dim = end;
            }
            i = i + 1;
        }
        assert(blocks@.subrange(0, n as int) =~= blocks@);
        FeatureSchema { blocks, total_dim }
    }

    pub closed spec fn spec_total_dim(&self) -> int {
        self.total_dim as int
    }

    pub fn blocks(&self) -> (blocks: &[FeatureBlock])
        ensures
            blocks@ == self@,
    {
        self.blocks.as_slice()
    }

    pub fn total_dim(&self) -> (dim: usize)
        ensures
            dim == self.spec_total_dim(),
            dim == max_block_end(self@),
    {
        proof {
            use_type_invariant(self);
        }
        self.total_dim
    }

    /// The first block whose name is `name`.
    pub fn block(&self, name: &str) -> (found: Option<&FeatureBlock>)
        ensures
            found.is_none() ==> forall|i: int| 0 <= i < self@.len() ==> #[trigger] self@[i].name@ != name@,
            found.is_some() ==> exists|i: int|
                0 <= i < self@.len() && self@[i] == *found.unwrap() && self@[i].name@ == name@
                    && forall|j: int| 0 <= j < i ==> #[trigger] self@[j].name@ != name@,
    {
        let n = self.blocks.len();
        let mut i: usize = 0;
        while i < n
            invariant
                n == self@.len(),
                i <= n,
                forall|j: int| 0 <= j < i ==> #[trigger] self@[j].name@ != name@,
            decreases n - i,
        {
            if str_eq(self.blocks[i].name, name) {
                return Some(&self.blocks[i]);
            }
            i = i + 1;
        }
        None
    }
}

impl Default for FeatureSchema {
    fn default() -> (schema: Self)
        ensures
            schema@ == Seq::<FeatureBlock>::empty(),
    {
        FeatureSchema { blocks: Vec::new(), total_dim: 0 }
    }
}

impl Clone for FeatureSchema {
    fn clone(&self) -> (c: Self)
        ensures
            c@ == self@,
    {
        proof {
            use_type_invariant(self);
        }
        let blocks = self.blocks.clone();
        assert(blocks@ =~= self.blocks@);
        FeatureSchema { blocks, total_dim: self.total_dim }
    }
}

/// Owned feature matrix with row-major contiguous storage.
#[derive(Clone, Debug, Default)]
pub struct FeatureMatrix<T> {
    pub rows: usize,
    pub cols: usize,
    pub data: Vec<T>,
}

impl<T: Copy + Default> FeatureMatrix<T> {
    /// Reshapes to `rows x cols` and sets every cell to `T::default()`.
    pub fn resize_zeroed(&mut self, rows: usize, cols: usize)
        ensures
            final(self).rows == rows,
            final(self).cols == cols,
            final(self).data@.len() == (if rows * cols <= usize::MAX {
                rows * cols
            } else {
                usize::MAX as int
            }),
            forall|i: int|
                0 <= i < final(self).data@.len() ==> call_ensures(
                    T::default,
                    (),
                    #[trigger] final(self).data@[i],
                ),
    {
        let required = match rows.checked_mul(cols) {
            Some(v) => v,
            None => usize::MAX,
        };
        let zero = T::default();
        self.rows = rows;
        self.cols = cols;
        self.data.clear();
        let mut i: usize = 0;
        while i < required
            invariant
                i <= required,
                self.rows == rows,
                self.cols == cols,
                self.data@.len() == i,
                call_ensures(T::default, (), zero),
                forall|j: int| 0 <= j < i ==> self.data@[j] == zero,
            decreases required - i,
        {
            self.data.push(zero);
            i = i + 1;
        }
    }
}

impl<T> FeatureMatrix<T> {
    pub fn as_view(&self) -> (view: FeatureMatrixView<'_, T>)
        ensures
            view.rows == self.rows,
            view.cols == self.cols,
            view.row_stride == self.cols,
            view.col_offset == 0,
            view.data@ == self.data@,
    {
        FeatureMatrixView {
            rows: self.rows,
            cols: self.cols,
            row_stride: self.cols,
            col_offset: 0,
            data: self.data.as_slice(),
        }
    }
}

/// Borrowed immutable matrix view.
#[derive(Clone, Copy, Debug)]
pub struct FeatureMatrixView<'a, T> {
    pub rows: usize,
    pub cols: usize,
    pub row_stride: usize,
    pub col_offset: usize,
    pub data: &'a [T],
}

impl<'a, T> FeatureMatrixView<'a, T> {
    /// Index in `data` of the first cell of row `row`.
    pub open spec fn row_start(self, row: int) -> int {
        row * self.row_stride + self.col_offset
    }

    /// The `cols` cells of row `row`.
    pub fn row(self, row: usize) -> (cells: &'a [T])
        requires
            self.row_start(row as int) + self.cols <= self.data@.len(),
        ensures
            cells@ == self.data@.subrange(
                self.row_start(row as int),
                self.row_start(row as int) + self.cols,
            ),
    {
        let len = self.data.len();
        assert(row * self.row_stride <= len);
        let start = row * self.row_stride + self.col_offset;
        let end = start + self.cols;
        &self.data[start..end]
    }
}

/// Reusable score buffer.
#[derive(Clone, Debug, Default)]
pub struct ScoreBuffer<S> {
    pub data: Vec<S>,
}

impl<S: Clone> ScoreBuffer<S> {
    /// Makes the buffer `len` long with every entry a clone of `value`.
    pub fn resize_fill(&mut self, len: usize, value: S)
        ensures
            final(self).data@.len() == len,
            forall|i: int| 0 <= i < len ==> cloned(value, #[trigger] final(self).data@[i]),
    {
        self.data.clear();
        let mut i: usize = 0;
        while i < len
            invariant
                i <= len,
                self.data@.len() == i,
                forall|j: int| 0 <= j < i ==> cloned(value, #[trigger] self.data@[j]),
            decreases len - i,
        {
            self.data.push(value.clone());
            i = i + 1;
        }
    }
}

/// Borrowed dataset view shared by native trainers and evaluators.
#[derive(Clone, Copy, Debug)]
pub struct DatasetView<'a, F, L> {
    pub features: FeatureMatrixView<'a, F>,
    pub labels: &'a [L],
}

/// Scratch storage shared by feature extractors.
#[derive(Clone, Debug, Default)]
pub struct FeatureScratch {
    pub bytes: Vec<u8>,
}

/// Reusable workspace for the narrow end-to-end slice.
#[derive(Clone, Debug, Default)]
pub struct PipelineWorkspace<F, S> {
    pub candidates: CandidateBuffer,
    pub features: FeatureMatrix<F>,
    pub scores: ScoreBuffer<S>,
    pub feature_scratch: FeatureScratch,
}

/// Workspace for score-matrix pipelines.
#[derive(Clone, Debug, Default)]
pub struct ScoringWorkspace<F, S> {
    pub positions: CandidateBuffer,
    pub features: FeatureMatrix<F>,
    pub scores: FeatureMatrix<S>,
    pub feature_scratch: FeatureScratch,
}

/// Semantic alias for score matrices.
pub type ScoreMatrix<T> = FeatureMatrix<T>;

/// Semantic alias for immutable score views.
pub type ScoreMatrixView<'a, T> = FeatureMatrixView<'a, T>;

} // verus!

verus! {

impl<T> FeatureMatrix<T> {
    pub fn as_view_mut(&mut self) -> (view: FeatureMatrixViewMut<'_, T>)
        ensures
            view.rows == old(self).rows,
            view.cols == old(self).cols,
            view.row_stride == old(self).cols,
            view.col_offset == 0,
            view.data@ == old(self).data@,
            final(self).rows == old(self).rows,
            final(self).cols == old(self).cols,
            final(self).data@ == final(view.data)@,
    {
        FeatureMatrixViewMut {
            rows: self.rows,
            cols: self.cols,
            row_stride: self.cols,
            col_offset: 0,
            data: self.data.as_mut_slice(),
        }
    }
}

/// Borrowed mutable matrix view.
#[derive(Debug)]
pub struct FeatureMatrixViewMut<'a, T> {
    pub rows: usize,
    pub cols: usize,
    pub row_stride: usize,
    pub col_offset: usize,
    pub data: &'a mut [T],
}

impl<'a, T> FeatureMatrixViewMut<'a, T> {
    /// Index in `data` of the first cell of row `row`.
    pub open spec fn row_start(&self, row: int) -> int {
        row * self.row_stride + self.col_offset
    }

    /// The same view over a shorter borrow.
    pub fn reborrow(&mut self) -> (view: FeatureMatrixViewMut<'_, T>)
        ensures
            view.rows == old(self).rows,
            view.cols == old(self).cols,
            view.row_stride == old(self).row_stride,
            view.col_offset == old(self).col_offset,
            view.data@ == old(self).data@,
            final(self).rows == old(self).rows,
            final(self).cols == old(self).cols,
            final(self).row_stride == old(self).row_stride,
            final(self).col_offset == old(self).col_offset,
            final(self).data@ == final(view.data)@,
    {
        FeatureMatrixViewMut {
            rows: self.rows,
            cols: self.cols,
            row_stride: self.row_stride,
            col_offset: self.col_offset,
            data: &mut *self.data,
        }
    }

    /// The columns `[offset, offset + cols)` of this view.
    pub fn subview(self, offset: usize, cols: usize) -> (view: Self)
        requires
            offset + cols <= self.cols,
            self.col_offset + offset <= usize::MAX,
        ensures
            view.rows == self.rows,
            view.cols == cols,
            view.row_stride == self.row_stride,
            view.col_offset == self.col_offset + offset,
            view.data@ == old(self.data)@,
            final(view.data)@ == final(self.data)@,
    {
        FeatureMatrixViewMut {
            rows: self.rows,
            cols,
            row_stride: self.row_stride,
            col_offset: self.col_offset + offset,
            data: self.data,
        }
    }

    /// The `cols` cells of row `row`, for writing.
    pub fn row_mut(&mut self, row: usize) -> (cells: &mut [T])
        requires
            old(self).row_start(row as int) + old(self).cols <= old(self).data@.len(),
        ensures
            cells@ == old(self).data@.subrange(
                old(self).row_start(row as int),
                old(self).row_start(row as int) + old(self).cols,
            ),
            final(self).rows == old(self).rows,
            final(self).cols == old(self).cols,
            final(self).row_stride == old(self).row_stride,
            final(self).col_offset == old(self).col_offset,
            final(self).data@ == old(self).data@.subrange(0, old(self).row_start(row as int))
                + final(cells)@ + old(self).data@.subrange(
                old(self).row_start(row as int) + old(self).cols,
                old(self).data@.len() as int,
            ),
    {
        let len = self.data.len();
        assert(row * self.row_stride <= len);
        let start = row * self.row_stride + self.col_offset;
        let cols = self.cols;
        let (_front, rest) = self.data.split_at_mut(start);
        let (cells, _back) = rest.split_at_mut(cols);
        cells
    }
}

/// Every cell of the first `r` rows (row `q` starting at `q * stride + offset`,
/// `cols` wide) of `data` is a clone of `value`.
pub open spec fn rows_filled<T: Clone>(data: Seq<T>, stride: int, offset: int, cols: int, value: T, r: int) -> bool {
    forall|q: int, c: int|
        0 <= q < r && 0 <= c < cols ==> cloned(value, #[trigger] data[q * stride + offset + c])
}

/// Index in the backing data of column `c` of row `q`.
pub open spec fn cell_index(q: int, stride: int, offset: int, c: int) -> int {
    q * stride + offset + c
}

/// True when index `i` of the backing data is a cell of one of the first
/// `rows` rows of a view (row `q` starting at `q * stride + offset`, `cols` wide).
pub open spec fn is_view_cell(i: int, stride: int, offset: int, cols: int, rows: int) -> bool {
    exists|q: int, c: int| 0 <= q < rows && 0 <= c < cols && i == #[trigger] cell_index(q, stride, offset, c)
}

/// Filling row `r` leaves every index that is no cell of the first `r + 1`
/// rows as it was.
proof fn lemma_fill_row_frame<T>(
    orig: Seq<T>,
    before: Seq<T>,
    after: Seq<T>,
    cells: Seq<T>,
    stride: int,
    offset: int,
    cols: int,
    r: int,
)
    requires
        0 <= r,
        0 <= cols,
        r * stride + offset + cols <= before.len(),
        0 <= r * stride + offset,
        cells.len() == cols,
        orig.len() == before.len(),
        after == before.subrange(0, r * stride + offset) + cells + before.subrange(
            r * stride + offset + cols,
            before.len() as int,
        ),
        forall|i: int|
            0 <= i < before.len() && !is_view_cell(i, stride, offset, cols, r) ==> #[trigger] before[i] == orig[i],
    ensures
        forall|i: int|
            0 <= i < after.len() && !is_view_cell(i, stride, offset, cols, r + 1) ==> #[trigger] after[i] == orig[i],
{
    let start = r * stride + offset;
    assert forall|i: int| 0 <= i < after.len() && !is_view_cell(i, stride, offset, cols, r + 1) implies #[trigger] after[i] == orig[i] by {
        if start <= i < start + cols {
            assert(cell_index(r, stride, offset, i - start) == i);
        } else {
            assert(after[i] == before[i]);
            if is_view_cell(i, stride, offset, cols, r) {
                let (q, c) = choose|q: int, c: int| 0 <= q < r && 0 <= c < cols && i == #[trigger] cell_index(q, stride, offset, c);
                assert(cell_index(q, stride, offset, c) == i);
            }
        }
    }
}

/// Filling row `r` of a view whose first `r` rows are filled fills `r + 1` rows.
proof fn lemma_fill_row<T: Clone>(
    before: Seq<T>,
    after: Seq<T>,
    cells: Seq<T>,
    stride: int,
    offset: int,
    cols: int,
    value: T,
    r: int,
    rows: int,
)
    requires
        0 <= r < rows,
        0 <= stride,
        0 <= offset,
        0 <= cols,
        (rows - 1) * stride + offset + cols <= before.len(),
        cells.len() == cols,
        after == before.subrange(0, r * stride + offset) + cells + before.subrange(
            r * stride + offset + cols,
            before.len() as int,
        ),
        forall|j: int| 0 <= j < cols ==> cloned(value, #[trigger] cells[j]),
        rows_filled(before, stride, offset, cols, value, r),
    ensures
        rows_filled(after, stride, offset, cols, value, r + 1),
        after.len() == before.len(),
{
    let start = r * stride + offset;
    assert(r * stride <= (rows - 1) * stride) by (nonlinear_arith)
        requires
            r <= rows - 1,
            0 <= stride,
    ;
    assert forall|q: int, j: int| 0 <= q < r + 1 && 0 <= j < cols implies cloned(
        value,
        #[trigger] after[q * stride + offset + j],
    ) by {
        assert(q * stride <= (rows - 1) * stride) by (nonlinear_arith)
            requires
                q <= rows - 1,
                0 <= stride,
        ;
        let i = q * stride + offset + j;
        if start <= i < start + cols {
            assert(after[i] == cells[i - start]);
        } else {
            assert(after[i] == before[i]);
        }
    }
}

impl<'a, T: Clone> FeatureMatrixViewMut<'a, T> {
    /// Sets every cell of the view to a clone of `value`.
    pub fn fill(&mut self, value: T)
        requires
            old(self).rows == 0 || old(self).row_start(old(self).rows - 1) + old(self).cols <= old(self).data@.len(),
        ensures
            final(self).rows == old(self).rows,
            final(self).cols == old(self).cols,
            final(self).row_stride == old(self).row_stride,
            final(self).col_offset == old(self).col_offset,
            final(self).data@.len() == old(self).data@.len(),
            rows_filled(
                final(self).data@,
                old(self).row_stride as int,
                old(self).col_offset as int,
                old(self).cols as int,
                value,
                old(self).rows as int,
            ),
            forall|i: int|
                0 <= i < old(self).data@.len() && !is_view_cell(
                    i,
                    old(self).row_stride as int,
                    old(self).col_offset as int,
                    old(self).cols as int,
                    old(self).rows as int,
                ) ==> #[trigger] final(self).data@[i] == old(self).data@[i],
    {
        let rows = self.rows;
        let cols = self.cols;
        let ghost len = self.data@.len();
        let ghost stride = self.row_stride as int;
        let ghost offset = self.col_offset as int;
        let mut r: usize = 0;
        while r < rows
            invariant
                rows == self.rows,
                cols == self.cols,
                r <= rows,
                self.rows == old(self).rows,
                self.cols == old(self).cols,
                self.row_stride == old(self).row_stride,
                self.col_offset == old(self).col_offset,
                stride == self.row_stride,
                offset == self.col_offset,
                self.data@.len() == len,
                len == old(self).data@.len(),
                rows == 0 || (rows - 1) * stride + offset + cols <= len,
                rows_filled(self.data@, stride, offset, cols as int, value, r as int),
                forall|i: int|
                    0 <= i < len && !is_view_cell(i, stride, offset, cols as int, r as int) ==> #[trigger] self.data@[i]
                        == old(self).data@[i],
            decreases rows - r,
        {
            proof {
                assert(r * stride <= (rows - 1) * stride) by (nonlinear_arith)
                    requires
                        r <= rows - 1,
                        0 <= stride,
                ;
            }
            let ghost before = self.data@;
            let cells = self.row_mut(r);
            let mut c: usize = 0;
            while c < cols
                invariant
                    c <= cols,
                    cells@.len() == cols,
                    forall|j: int| 0 <= j < c ==> cloned(value, #[trigger] cells@[j]),
                decreases cols - c,
            {
                cells[c] = value.clone();
                c = c + 1;
            }
            proof {
                lemma_fill_row(before, self.data@, cells@, stride, offset, cols as int, value, r as int, rows as int);
                lemma_fill_row_frame(old(self).data@, before, self.data@, cells@, stride, offset, cols as int, r as int);
            }
            r = r + 1;
        }
    }
}

/// Borrowed mutable feature row.
#[derive(Debug)]
pub struct FeatureRowMut<'a, T> {
    pub data: &'a mut [T],
}

/// Semantic alias for mutable score views.
pub type ScoreMatrixViewMut<'a, T> = FeatureMatrixViewMut<'a, T>;

} // verus!
