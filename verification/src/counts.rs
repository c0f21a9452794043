use vstd::prelude::*;
use vstd::string::StringSliceAdditionalSpecFns;
use vstd::utf8::*;

use crate::byteset::AsciiClassTable;
use crate::data::{
    lemma_lists_exactly_push, lists_exactly, strictly_increasing, BytePos, ByteWindowSpec,
    FeatureBlock,
};
use crate::features::{
    byte_class_matches, category_of, count_byte, count_in, group_of, ByteClass, UnicodeCategory,
    UnicodeCategoryGroup,
};
use crate::scalars::{decode_scalar_at, is_scalar_start, lemma_step_valid, scalar_at, tail};
use crate::text::TextBytes;

verus! {

broadcast use vstd::utf8::encode_utf8_valid_utf8;

/// Counts of several classes over one window, with the window's length.
#[derive(Clone, Debug)]
pub struct WindowCounts {
    pub counts: Vec<usize>,
    pub window_len: usize,
}

/// Counts on the left and on the right of a position.
#[derive(Clone, Debug)]
pub struct DirectionalCounts {
    pub left: WindowCounts,
    pub right: WindowCounts,
}

/// First offset of the centered window: `left` bytes before `position`, at least zero.
pub open spec fn window_lo(position: int, spec: ByteWindowSpec) -> int {
    if position - spec.left > 0 {
        position - spec.left
    } else {
        0
    }
}

/// End of the centered window: `right` bytes after `position`, at most `n`.
pub open spec fn window_hi(n: int, position: int, spec: ByteWindowSpec) -> int {
    if position + spec.right + 1 < n {
        position + spec.right + 1
    } else {
        n
    }
}

/// `(lo, hi)` of the centered window, computed without overflow.
fn centered_window(n: usize, position: usize, spec: ByteWindowSpec) -> (bounds: (usize, usize))
    requires
        position <= n + spec.left,
    ensures
        bounds.0 == window_lo(position as int, spec),
        bounds.1 == window_hi(n as int, position as int, spec),
        bounds.0 <= bounds.1 <= n,
{
    let lo = if position > spec.left {
        position - spec.left
    } else {
        0
    };
    let hi = match position.checked_add(spec.right) {
        Some(p) => if p < n {
            p + 1
        } else {
            n
        },
        None => n,
    };
    (lo, hi)
}

/// Number of bytes of `b[lo..hi]` in `class`.
fn count_class(bytes: &[u8], lo: usize, hi: usize, class: ByteClass, table: &AsciiClassTable) -> (n: usize)
    requires
        lo <= hi <= bytes@.len(),
    ensures
        n == count_in(bytes@, lo as int, hi as int, |x: u8| byte_class_matches(class, x)),
{
    let ghost p = |x: u8| byte_class_matches(class, x);
    let mut i = lo;
    let mut n: usize = 0;
    while i < hi
        invariant
            lo <= i <= hi <= bytes@.len(),
            p == (|x: u8| byte_class_matches(class, x)),
            n == count_in(bytes@, lo as int, i as int, p),
            n <= i - lo,
        decreases hi - i,
    {
        assert(p(bytes@[i as int]) == byte_class_matches(class, bytes@[i as int]));
        if class.matches(bytes[i], table) {
            n = n + 1;
        }
        i = i + 1;
    }
    n
}

/// Counts of each needle over `bytes[lo..hi]`.
fn count_needles(bytes: &[u8], lo: usize, hi: usize, needles: &Vec<u8>) -> (counts: Vec<usize>)
    requires
        lo <= hi <= bytes@.len(),
    ensures
        counts@.len() == needles@.len(),
        forall|j: int|
            0 <= j < needles@.len() ==> #[trigger] counts@[j] == count_in(
                bytes@,
                lo as int,
                hi as int,
                |x: u8| x == needles@[j],
            ),
{
    let mut counts: Vec<usize> = Vec::new();
    let mut j: usize = 0;
    while j < needles.len()
        invariant
            lo <= hi <= bytes@.len(),
            j <= needles@.len(),
            counts@.len() == j,
            forall|i: int|
                0 <= i < j ==> #[trigger] counts@[i] == count_in(
                    bytes@,
                    lo as int,
                    hi as int,
                    |x: u8| x == needles@[i],
                ),
        decreases needles@.len() - j,
    {
        let needle = needles[j];
        let c = count_byte(bytes, lo, hi, needle);
        assert((|x: u8| x == needle) =~= (|x: u8| x == needles@[j as int]));
        counts.push(c);
        j = j + 1;
    }
    counts
}

/// Counts of each class over `bytes[lo..hi]`.
fn count_classes(bytes: &[u8], lo: usize, hi: usize, classes: &Vec<ByteClass>, table: &AsciiClassTable) -> (counts: Vec<usize>)
    requires
        lo <= hi <= bytes@.len(),
    ensures
        counts@.len() == classes@.len(),
        forall|j: int|
            0 <= j < classes@.len() ==> #[trigger] counts@[j] == count_in(
                bytes@,
                lo as int,
                hi as int,
                |x: u8| byte_class_matches(classes@[j], x),
            ),
{
    let mut counts: Vec<usize> = Vec::new();
    let mut j: usize = 0;
    while j < classes.len()
        invariant
            lo <= hi <= bytes@.len(),
            j <= classes@.len(),
            counts@.len() == j,
            forall|i: int|
                0 <= i < j ==> #[trigger] counts@[i] == count_in(
                    bytes@,
                    lo as int,
                    hi as int,
                    |x: u8| byte_class_matches(classes@[i], x),
                ),
        decreases classes@.len() - j,
    {
        counts.push(count_class(bytes, lo, hi, classes[j], table));
        j = j + 1;
    }
    counts
}

/// Counts selected bytes over a centered byte window.
#[derive(Clone, Debug)]
pub struct SelectedByteCountAppender {
    name: &'static str,
    spec: ByteWindowSpec,
    bytes: Vec<u8>,
}

impl SelectedByteCountAppender {
    pub closed spec fn name_view(&self) -> Seq<char> {
        self.name@
    }

    pub closed spec fn window(&self) -> ByteWindowSpec {
        self.spec
    }

    pub closed spec fn needles(&self) -> Seq<u8> {
        self.bytes@
    }

    pub fn new(name: &'static str, spec: ByteWindowSpec, bytes: Vec<u8>) -> (appender: Self)
        ensures
            appender.name_view() == name@,
            appender.window() == spec,
            appender.needles() == bytes@,
    {
        SelectedByteCountAppender { name, spec, bytes }
    }

    pub fn block(&self) -> (block: FeatureBlock)
        ensures
            block.name@ == self.name_view(),
            block.width == self.needles().len(),
            block.offset == 0,
    {
        FeatureBlock::new(self.name, self.bytes.len())
    }

    /// The window around each position that this appender counts in.
    pub fn window_spec(&self) -> (spec: ByteWindowSpec)
        ensures
            spec == self.window(),
    {
        self.spec
    }

    /// Occurrences of each selected byte in the window around `position`.
    pub fn counts_at(&self, text: TextBytes<'_>, position: usize) -> (counts: WindowCounts)
        requires
            position <= text@.len() + self.window().left,
        ensures
            ({
                let lo = window_lo(position as int, self.window());
                let hi = window_hi(text@.len() as int, position as int, self.window());
                &&& counts.window_len == hi - lo
                &&& counts.counts@.len() == self.needles().len()
                &&& forall|j: int|
                    0 <= j < self.needles().len() ==> #[trigger] counts.counts@[j] == count_in(
                        text@,
                        lo,
                        hi,
                        |x: u8| x == self.needles()[j],
                    )
            }),
    {
        let bytes = text.bytes();
        let (lo, hi) = centered_window(bytes.len(), position, self.spec);
        WindowCounts { counts: count_needles(bytes, lo, hi, &self.bytes), window_len: hi - lo }
    }
}

/// Offset of the first `\n` at or after `i`, or the text length.
pub open spec fn newline_from(b: Seq<u8>, i: int) -> int
    decreases b.len() - i,
{
    if i >= b.len() || i < 0 {
        b.len() as int
    } else if b[i] == 0x0A {
        i
    } else {
        newline_from(b, i + 1)
    }
}

/// Counts selected bytes from a position until the next newline.
#[derive(Clone, Debug)]
pub struct LineByteCountAppender {
    name: &'static str,
    bytes: Vec<u8>,
}

impl LineByteCountAppender {
    pub closed spec fn name_view(&self) -> Seq<char> {
        self.name@
    }

    pub closed spec fn needles(&self) -> Seq<u8> {
        self.bytes@
    }

    pub fn new(name: &'static str, bytes: Vec<u8>) -> (appender: Self)
        ensures
            appender.name_view() == name@,
            appender.needles() == bytes@,
    {
        LineByteCountAppender { name, bytes }
    }

    pub fn block(&self) -> (block: FeatureBlock)
        ensures
            block.name@ == self.name_view(),
            block.width == self.needles().len(),
            block.offset == 0,
    {
        FeatureBlock::new(self.name, self.bytes.len())
    }

    /// Occurrences of each selected byte from `start` up to the next `\n`.
    pub fn counts_at(&self, text: TextBytes<'_>, start: usize) -> (counts: WindowCounts)
        requires
            start <= text@.len(),
        ensures
            ({
                let end = newline_from(text@, start as int);
                &&& counts.window_len == end - start
                &&& counts.counts@.len() == self.needles().len()
                &&& forall|j: int|
                    0 <= j < self.needles().len() ==> #[trigger] counts.counts@[j] == count_in(
                        text@,
                        start as int,
                        end,
                        |x: u8| x == self.needles()[j],
                    )
            }),
    {
        let bytes = text.bytes();
        let n = bytes.len();
        let mut end = start;
        while end < n && bytes[end] != 0x0A
            invariant
                start <= end <= n == bytes@.len(),
                newline_from(bytes@, start as int) == newline_from(bytes@, end as int),
            decreases n - end,
        {
            end = end + 1;
        }
        WindowCounts { counts: count_needles(bytes, start, end, &self.bytes), window_len: end - start }
    }
}

/// Counts reusable byte classes over a centered byte window.
#[derive(Clone, Debug)]
pub struct ByteClassCountAppender {
    name: &'static str,
    spec: ByteWindowSpec,
    classes: Vec<ByteClass>,
    ascii: AsciiClassTable,
}

impl ByteClassCountAppender {
    pub closed spec fn name_view(&self) -> Seq<char> {
        self.name@
    }

    pub closed spec fn window(&self) -> ByteWindowSpec {
        self.spec
    }

    pub closed spec fn class_list(&self) -> Seq<ByteClass> {
        self.classes@
    }

    pub fn new(name: &'static str, spec: ByteWindowSpec, classes: Vec<ByteClass>) -> (appender: Self)
        ensures
            appender.name_view() == name@,
            appender.window() == spec,
            appender.class_list() == classes@,
    {
        ByteClassCountAppender { name, spec, classes, ascii: AsciiClassTable::default() }
    }

    /// The window around each position that this appender counts in.
    pub fn window_spec(&self) -> (spec: ByteWindowSpec)
        ensures
            spec == self.window(),
    {
        self.spec
    }

    pub fn block(&self) -> (block: FeatureBlock)
        ensures
            block.name@ == self.name_view(),
            block.width == self.class_list().len(),
            block.offset == 0,
    {
        FeatureBlock::new(self.name, self.classes.len())
    }

    /// Members of each class in the window around `position`.
    pub fn counts_at(&self, text: TextBytes<'_>, position: usize) -> (counts: WindowCounts)
        requires
            position <= text@.len() + self.window().left,
        ensures
            ({
                let lo = window_lo(position as int, self.window());
                let hi = window_hi(text@.len() as int, position as int, self.window());
                &&& counts.window_len == hi - lo
                &&& counts.counts@.len() == self.class_list().len()
                &&& forall|j: int|
                    0 <= j < self.class_list().len() ==> #[trigger] counts.counts@[j] == count_in(
                        text@,
                        lo,
                        hi,
                        |x: u8| byte_class_matches(self.class_list()[j], x),
                    )
            }),
    {
        let bytes = text.bytes();
        let (lo, hi) = centered_window(bytes.len(), position, self.spec);
        WindowCounts {
            counts: count_classes(bytes, lo, hi, &self.classes, &self.ascii),
            window_len: hi - lo,
        }
    }
}

/// Start of the left context: `left` before `center`, at least zero.
pub open spec fn left_lo(center: int, left: int) -> int {
    if center > left {
        center - left
    } else {
        0
    }
}

/// Start of the right context: just after `center`, at most `n`.
pub open spec fn right_lo(n: int, center: int) -> int {
    if center + 1 < n {
        center + 1
    } else {
        n
    }
}

/// End of the right context: `right` after its start, at most `n`.
pub open spec fn right_hi(n: int, center: int, right: int) -> int {
    if right_lo(n, center) + right < n {
        right_lo(n, center) + right
    } else {
        n
    }
}

/// `(left_lo, right_lo, right_hi)` computed without overflow.
fn directional_bounds(n: usize, center: usize, left: usize, right: usize) -> (bounds: (
    usize,
    usize,
    usize,
))
    requires
        center <= n,
    ensures
        bounds.0 == left_lo(center as int, left as int),
        bounds.1 == right_lo(n as int, center as int),
        bounds.2 == right_hi(n as int, center as int, right as int),
        bounds.0 <= center,
        bounds.1 <= bounds.2 <= n,
{
    let lo = if center > left {
        center - left
    } else {
        0
    };
    let rs = if center < n && center + 1 < n {
        center + 1
    } else {
        n
    };
    let re = if right < n - rs {
        rs + right
    } else {
        n
    };
    (lo, rs, re)
}

/// Counts reusable byte classes separately on the left and right sides of a position.
#[derive(Clone, Debug)]
pub struct DirectionalByteClassCountAppender {
    name: &'static str,
    spec: ByteWindowSpec,
    classes: Vec<ByteClass>,
    ascii: AsciiClassTable,
}

impl DirectionalByteClassCountAppender {
    pub closed spec fn name_view(&self) -> Seq<char> {
        self.name@
    }

    pub closed spec fn window(&self) -> ByteWindowSpec {
        self.spec
    }

    pub closed spec fn class_list(&self) -> Seq<ByteClass> {
        self.classes@
    }

    pub fn new(name: &'static str, spec: ByteWindowSpec, classes: Vec<ByteClass>) -> (appender: Self)
        ensures
            appender.name_view() == name@,
            appender.window() == spec,
            appender.class_list() == classes@,
    {
        DirectionalByteClassCountAppender { name, spec, classes, ascii: AsciiClassTable::default() }
    }

    pub fn block(&self) -> (block: FeatureBlock)
        requires
            self.class_list().len() * 2 <= usize::MAX,
        ensures
            block.name@ == self.name_view(),
            block.width == self.class_list().len() * 2,
            block.offset == 0,
    {
        FeatureBlock::new(self.name, self.classes.len() * 2)
    }

    /// Members of each class in the `left` bytes before and the `right` bytes after `position`.
    pub fn counts_at(&self, text: TextBytes<'_>, position: usize) -> (counts: DirectionalCounts)
        requires
            position <= text@.len(),
        ensures
            ({
                let n = text@.len() as int;
                let c = position as int;
                let ll = left_lo(c, self.window().left as int);
                let rl = right_lo(n, c);
                let rh = right_hi(n, c, self.window().right as int);
                &&& counts.left.window_len == c - ll
                &&& counts.right.window_len == rh - rl
                &&& counts.left.counts@.len() == self.class_list().len()
                &&& counts.right.counts@.len() == self.class_list().len()
                &&& forall|j: int|
                    0 <= j < self.class_list().len() ==> #[trigger] counts.left.counts@[j]
                        == count_in(text@, ll, c, |x: u8| byte_class_matches(self.class_list()[j], x))
                &&& forall|j: int|
                    0 <= j < self.class_list().len() ==> #[trigger] counts.right.counts@[j]
                        == count_in(text@, rl, rh, |x: u8| byte_class_matches(self.class_list()[j], x))
            }),
    {
        let bytes = text.bytes();
        let (ll, rl, rh) = directional_bounds(bytes.len(), position, self.spec.left, self.spec.right);
        DirectionalCounts {
            left: WindowCounts {
                counts: count_classes(bytes, ll, position, &self.classes, &self.ascii),
                window_len: position - ll,
            },
            right: WindowCounts {
                counts: count_classes(bytes, rl, rh, &self.classes, &self.ascii),
                window_len: rh - rl,
            },
        }
    }
}

} // verus!

verus! {

/// Number of items of `s[lo..hi]` equal to `x`.
pub open spec fn count_equal<T>(s: Seq<T>, lo: int, hi: int, x: T) -> nat
    decreases hi - lo,
{
    if hi <= lo {
        0
    } else {
        count_equal(s, lo, hi - 1, x) + if s[hi - 1] == x {
            1nat
        } else {
            0nat
        }
    }
}

fn count_category(s: &[UnicodeCategory], lo: usize, hi: usize, x: UnicodeCategory) -> (n: usize)
    requires
        lo <= hi <= s@.len(),
    ensures
        n == count_equal(s@, lo as int, hi as int, x),
{
    let mut i = lo;
    let mut n: usize = 0;
    while i < hi
        invariant
            lo <= i <= hi <= s@.len(),
            n == count_equal(s@, lo as int, i as int, x),
            n <= i - lo,
        decreases hi - i,
    {
        if s[i] == x {
            n = n + 1;
        }
        i = i + 1;
    }
    n
}

fn count_group(s: &[UnicodeCategoryGroup], lo: usize, hi: usize, x: UnicodeCategoryGroup) -> (n: usize)
    requires
        lo <= hi <= s@.len(),
    ensures
        n == count_equal(s@, lo as int, hi as int, x),
{
    let mut i = lo;
    let mut n: usize = 0;
    while i < hi
        invariant
            lo <= i <= hi <= s@.len(),
            n == count_equal(s@, lo as int, i as int, x),
            n <= i - lo,
        decreases hi - i,
    {
        if s[i] == x {
            n = n + 1;
        }
        i = i + 1;
    }
    n
}

/// Scalar starts, categories and category groups of every scalar of a text.
#[derive(Clone, Debug)]
pub struct DecodedCategories {
    pub scalar_starts: Vec<BytePos>,
    pub categories: Vec<UnicodeCategory>,
    pub groups: Vec<UnicodeCategoryGroup>,
}

/// Lists the start, category and group of every scalar of `text`, in order.
pub fn decode_unicode_categories(text: &str) -> (decoded: DecodedCategories)
    requires
        text.spec_bytes().len() <= u32::MAX,
    ensures
        lists_exactly(
            decoded.scalar_starts@,
            0,
            text.spec_bytes().len() as int,
            |i: int| is_scalar_start(text.spec_bytes(), i),
        ),
        decoded.categories@.len() == decoded.scalar_starts@.len(),
        decoded.groups@.len() == decoded.scalar_starts@.len(),
        forall|k: int|
            0 <= k < decoded.categories@.len() ==> #[trigger] decoded.categories@[k] == category_of(
                scalar_at(text.spec_bytes(), decoded.scalar_starts@[k].0 as int),
            ),
        forall|k: int|
            0 <= k < decoded.groups@.len() ==> #[trigger] decoded.groups@[k] == group_of(
                decoded.categories@[k],
            ),
{
    let bytes = text.as_bytes();
    let ghost b = bytes@;
    let n = bytes.len();
    let mut scalar_starts: Vec<BytePos> = Vec::new();
    let mut categories: Vec<UnicodeCategory> = Vec::new();
    let mut groups: Vec<UnicodeCategoryGroup> = Vec::new();
    let mut i: usize = 0;
    assert(tail(b, 0) =~= b);
    while i < n
        invariant
            n == b.len(),
            n <= u32::MAX,
            b == bytes@,
            i <= n,
            valid_utf8(tail(b, i as int)),
            i == n || is_scalar_start(b, i as int),
            lists_exactly(scalar_starts@, 0, i as int, |j: int| is_scalar_start(b, j)),
            categories@.len() == scalar_starts@.len(),
            groups@.len() == scalar_starts@.len(),
            forall|k: int|
                0 <= k < categories@.len() ==> #[trigger] categories@[k] == category_of(
                    scalar_at(b, scalar_starts@[k].0 as int),
                ),
            forall|k: int|
                0 <= k < groups@.len() ==> #[trigger] groups@[k] == group_of(categories@[k]),
        decreases n - i,
    {
        let (value, width) = decode_scalar_at(bytes, i);
        let ghost before = scalar_starts@;
        let category = UnicodeCategory::of_scalar(value);
        scalar_starts.push(BytePos::from_usize(i));
        categories.push(category);
        groups.push(category.group());
        proof {
            let p = |j: int| is_scalar_start(b, j);
            assert forall|j: int| i < j < i + width implies !#[trigger] p(j) by {
                assert(is_continuation_byte(b[j]));
            }
            lemma_lists_exactly_push(before, 0, i as int, i + width, p, i as u32);
            if i + width < n {
                lemma_step_valid(b, i + width);
            }
        }
        i = i + width;
    }
    DecodedCategories { scalar_starts, categories, groups }
}

/// Index of the last scalar start at or before `position`, or of the first
/// scalar when every start lies after it; `None` for an empty list.
pub fn scalar_index_at_or_before(scalar_starts: &[BytePos], position: usize) -> (index: Option<usize>)
    requires
        strictly_increasing(scalar_starts@),
    ensures
        index.is_none() == (scalar_starts@.len() == 0),
        index.is_some() ==> {
            let r = index.unwrap() as int;
            &&& r < scalar_starts@.len()
            &&& r > 0 ==> scalar_starts@[r].0 <= position
            &&& forall|k: int| r < k < scalar_starts@.len() ==> scalar_starts@[k].0 > position
        },
{
    let n = scalar_starts.len();
    if n == 0 {
        return None;
    }
    let mut lo: usize = 0;
    let mut hi: usize = n;
    while lo < hi
        invariant
            0 <= lo <= hi <= n == scalar_starts@.len(),
            strictly_increasing(scalar_starts@),
            forall|k: int| 0 <= k < lo ==> scalar_starts@[k].0 <= position,
            forall|k: int| hi <= k < n ==> scalar_starts@[k].0 > position,
        decreases hi - lo,
    {
        let mid = lo + (hi - lo) / 2;
        if scalar_starts[mid].as_usize() <= position {
            lo = mid + 1;
        } else {
            hi = mid;
        }
    }
    if lo == 0 {
        Some(0)
    } else {
        Some(lo - 1)
    }
}

/// `counts` holds, for each item of `list`, its occurrences among the
/// `window.left` items of `seq` before index `c` and the `window.right` items
/// after it, each side with its length.
pub open spec fn directional_counts_of<T>(
    counts: DirectionalCounts,
    seq: Seq<T>,
    list: Seq<T>,
    window: ByteWindowSpec,
    c: int,
) -> bool {
    let n = seq.len() as int;
    let ll = left_lo(c, window.left as int);
    let rl = right_lo(n, c);
    let rh = right_hi(n, c, window.right as int);
    &&& counts.left.window_len == c - ll
    &&& counts.right.window_len == rh - rl
    &&& counts.left.counts@.len() == list.len()
    &&& counts.right.counts@.len() == list.len()
    &&& forall|j: int|
        0 <= j < list.len() ==> #[trigger] counts.left.counts@[j] == count_equal(seq, ll, c, list[j])
    &&& forall|j: int|
        0 <= j < list.len() ==> #[trigger] counts.right.counts@[j] == count_equal(
            seq,
            rl,
            rh,
            list[j],
        )
}

/// `r` indexes the last scalar start at or before `position`, or the first
/// scalar when every start lies after it.
pub open spec fn is_center_scalar(starts: Seq<BytePos>, position: int, r: int) -> bool {
    &&& 0 <= r < starts.len()
    &&& r > 0 ==> starts[r].0 <= position
    &&& forall|k: int| r < k < starts.len() ==> starts[k].0 > position
}

/// Counts full Unicode General Categories separately on the left and right sides of a position.
#[derive(Clone, Debug)]
pub struct DirectionalUnicodeCategoryCountAppender {
    name: &'static str,
    spec: ByteWindowSpec,
    categories: Vec<UnicodeCategory>,
}

impl DirectionalUnicodeCategoryCountAppender {
    pub closed spec fn name_view(&self) -> Seq<char> {
        self.name@
    }

    pub closed spec fn window(&self) -> ByteWindowSpec {
        self.spec
    }

    pub closed spec fn category_list(&self) -> Seq<UnicodeCategory> {
        self.categories@
    }

    pub fn new(name: &'static str, spec: ByteWindowSpec, categories: Vec<UnicodeCategory>) -> (appender: Self)
        ensures
            appender.name_view() == name@,
            appender.window() == spec,
            appender.category_list() == categories@,
    {
        DirectionalUnicodeCategoryCountAppender { name, spec, categories }
    }

    pub fn block(&self) -> (block: FeatureBlock)
        requires
            self.category_list().len() * 2 <= usize::MAX,
        ensures
            block.name@ == self.name_view(),
            block.width == self.category_list().len() * 2,
            block.offset == 0,
    {
        FeatureBlock::new(self.name, self.categories.len() * 2)
    }

    /// Occurrences of each listed category among the `left` scalars before and
    /// the `right` scalars after scalar `center` of `decoded`.
    pub fn counts_around(&self, decoded: &[UnicodeCategory], center: usize) -> (counts: DirectionalCounts)
        requires
            center <= decoded@.len(),
        ensures
            directional_counts_of(counts, decoded@, self.category_list(), self.window(), center as int),
    {
        let (ll, rl, rh) = directional_bounds(decoded.len(), center, self.spec.left, self.spec.right);
        let mut left: Vec<usize> = Vec::new();
        let mut right: Vec<usize> = Vec::new();
        let mut j: usize = 0;
        while j < self.categories.len()
            invariant
                ll <= center <= decoded@.len(),
                rl <= rh <= decoded@.len(),
                j <= self.categories@.len(),
                left@.len() == j,
                right@.len() == j,
                forall|i: int|
                    0 <= i < j ==> #[trigger] left@[i] == count_equal(
                        decoded@,
                        ll as int,
                        center as int,
                        self.categories@[i],
                    ),
                forall|i: int|
                    0 <= i < j ==> #[trigger] right@[i] == count_equal(
                        decoded@,
                        rl as int,
                        rh as int,
                        self.categories@[i],
                    ),
            decreases self.categories@.len() - j,
        {
            left.push(count_category(decoded, ll, center, self.categories[j]));
            right.push(count_category(decoded, rl, rh, self.categories[j]));
            j = j + 1;
        }
        DirectionalCounts {
            left: WindowCounts { counts: left, window_len: center - ll },
            right: WindowCounts { counts: right, window_len: rh - rl },
        }
    }

    /// Category counts around the scalar that holds byte `position` of a
    /// decoded text; `None` when the text has no scalar.
    pub fn counts_at(&self, decoded: &DecodedCategories, position: usize) -> (counts: Option<
        DirectionalCounts,
    >)
        requires
            strictly_increasing(decoded.scalar_starts@),
            decoded.categories@.len() == decoded.scalar_starts@.len(),
        ensures
            counts.is_none() == (decoded.scalar_starts@.len() == 0),
            counts matches Some(c) ==> exists|r: int|
                #[trigger] is_center_scalar(decoded.scalar_starts@, position as int, r)
                    && directional_counts_of(
                    c,
                    decoded.categories@,
                    self.category_list(),
                    self.window(),
                    r,
                ),
    {
        match scalar_index_at_or_before(decoded.scalar_starts.as_slice(), position) {
            None => None,
            Some(r) => {
                let c = self.counts_around(decoded.categories.as_slice(), r);
                assert(is_center_scalar(decoded.scalar_starts@, position as int, r as int));
                Some(c)
            },
        }
    }
}

/// Counts coarse Unicode Category Groups separately on the left and right sides of a position.
#[derive(Clone, Debug)]
pub struct DirectionalUnicodeCategoryGroupCountAppender {
    name: &'static str,
    spec: ByteWindowSpec,
    groups: Vec<UnicodeCategoryGroup>,
}

impl DirectionalUnicodeCategoryGroupCountAppender {
    pub closed spec fn name_view(&self) -> Seq<char> {
        self.name@
    }

    pub closed spec fn window(&self) -> ByteWindowSpec {
        self.spec
    }

    pub closed spec fn group_list(&self) -> Seq<UnicodeCategoryGroup> {
        self.groups@
    }

    pub fn new(name: &'static str, spec: ByteWindowSpec, groups: Vec<UnicodeCategoryGroup>) -> (appender: Self)
        ensures
            appender.name_view() == name@,
            appender.window() == spec,
            appender.group_list() == groups@,
    {
        DirectionalUnicodeCategoryGroupCountAppender { name, spec, groups }
    }

    pub fn block(&self) -> (block: FeatureBlock)
        requires
            self.group_list().len() * 2 <= usize::MAX,
        ensures
            block.name@ == self.name_view(),
            block.width == self.group_list().len() * 2,
            block.offset == 0,
    {
        FeatureBlock::new(self.name, self.groups.len() * 2)
    }

    /// Occurrences of each listed group among the `left` scalars before and
    /// the `right` scalars after scalar `center` of `decoded`.
    pub fn counts_around(&self, decoded: &[UnicodeCategoryGroup], center: usize) -> (counts: DirectionalCounts)
        requires
            center <= decoded@.len(),
        ensures
            directional_counts_of(counts, decoded@, self.group_list(), self.window(), center as int),
    {
        let (ll, rl, rh) = directional_bounds(decoded.len(), center, self.spec.left, self.spec.right);
        let mut left: Vec<usize> = Vec::new();
        let mut right: Vec<usize> = Vec::new();
        let mut j: usize = 0;
        while j < self.groups.len()
            invariant
                ll <= center <= decoded@.len(),
                rl <= rh <= decoded@.len(),
                j <= self.groups@.len(),
                left@.len() == j,
                right@.len() == j,
                forall|i: int|
                    0 <= i < j ==> #[trigger] left@[i] == count_equal(
                        decoded@,
                        ll as int,
                        center as int,
                        self.groups@[i],
                    ),
                forall|i: int|
                    0 <= i < j ==> #[trigger] right@[i] == count_equal(
                        decoded@,
                        rl as int,
                        rh as int,
                        self.groups@[i],
                    ),
            decreases self.groups@.len() - j,
        {
            left.push(count_group(decoded, ll, center, self.groups[j]));
            right.push(count_group(decoded, rl, rh, self.groups[j]));
            j = j + 1;
        }
        DirectionalCounts {
            left: WindowCounts { counts: left, window_len: center - ll },
            right: WindowCounts { counts: right, window_len: rh - rl },
        }
    }

    /// Group counts around the scalar that holds byte `position` of a decoded
    /// text; `None` when the text has no scalar.
    pub fn counts_at(&self, decoded: &DecodedCategories, position: usize) -> (counts: Option<
        DirectionalCounts,
    >)
        requires
            strictly_increasing(decoded.scalar_starts@),
            decoded.groups@.len() == decoded.scalar_starts@.len(),
        ensures
            counts.is_none() == (decoded.scalar_starts@.len() == 0),
            counts matches Some(c) ==> exists|r: int|
                #[trigger] is_center_scalar(decoded.scalar_starts@, position as int, r)
                    && directional_counts_of(c, decoded.groups@, self.group_list(), self.window(), r),
    {
        match scalar_index_at_or_before(decoded.scalar_starts.as_slice(), position) {
            None => None,
            Some(r) => {
                let c = self.counts_around(decoded.groups.as_slice(), r);
                assert(is_center_scalar(decoded.scalar_starts@, position as int, r as int));
                Some(c)
            },
        }
    }
}

} // verus!
