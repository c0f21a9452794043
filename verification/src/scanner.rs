use vstd::prelude::*;
use vstd::utf8::*;

use crate::byteset::ByteSet256;
use crate::data::{
    lemma_lists_exactly_push, lemma_lists_exactly_skip, lemma_lists_exactly_unique, lists_exactly,
    BytePos, CandidateBuffer,
    ScanRange,
};
use crate::scalars::{decode_scalar_at, is_scalar_start, lemma_step_valid, scalar_at, tail};
use crate::text::TextBytes;
use crate::traits::CandidateScanner;

verus! {

/// First index of `needle` in `haystack` (`memchr::memchr`).
#[verifier::external_body]
fn find_byte(needle: u8, haystack: &[u8]) -> (r: Option<usize>)
    ensures
        r matches Some(i) ==> i < haystack@.len() && haystack@[i as int] == needle && forall|j: int|
            0 <= j < i ==> haystack@[j] != needle,
        r is None ==> forall|j: int| 0 <= j < haystack@.len() ==> haystack@[j] != needle,
{
    memchr::memchr(needle, haystack)
}

/// First index of either needle in `haystack` (`memchr::memchr2`).
#[verifier::external_body]
fn find_byte2(n1: u8, n2: u8, haystack: &[u8]) -> (r: Option<usize>)
    ensures
        r matches Some(i) ==> i < haystack@.len() && (haystack@[i as int] == n1 || haystack@[i as int]
            == n2) && forall|j: int| 0 <= j < i ==> haystack@[j] != n1 && haystack@[j] != n2,
        r is None ==> forall|j: int|
            0 <= j < haystack@.len() ==> haystack@[j] != n1 && haystack@[j] != n2,
{
    memchr::memchr2(n1, n2, haystack)
}

/// First index of any of three needles in `haystack` (`memchr::memchr3`).
#[verifier::external_body]
fn find_byte3(n1: u8, n2: u8, n3: u8, haystack: &[u8]) -> (r: Option<usize>)
    ensures
        r matches Some(i) ==> i < haystack@.len() && (haystack@[i as int] == n1 || haystack@[i as int]
            == n2 || haystack@[i as int] == n3) && forall|j: int|
            0 <= j < i ==> haystack@[j] != n1 && haystack@[j] != n2 && haystack@[j] != n3,
        r is None ==> forall|j: int|
            0 <= j < haystack@.len() ==> haystack@[j] != n1 && haystack@[j] != n2 && haystack@[j]
                != n3,
{
    memchr::memchr3(n1, n2, n3, haystack)
}

/// First index of a byte of `members` (one to three distinct bytes) in `haystack`.
fn find_member(members: &[u8], haystack: &[u8]) -> (r: Option<usize>)
    requires
        1 <= members@.len() <= 3,
    ensures
        r matches Some(i) ==> i < haystack@.len() && members@.contains(haystack@[i as int])
            && forall|j: int| 0 <= j < i ==> !members@.contains(#[trigger] haystack@[j]),
        r is None ==> forall|j: int|
            0 <= j < haystack@.len() ==> !members@.contains(#[trigger] haystack@[j]),
{
    let m = members.len();
    let r = if m == 1 {
        find_byte(members[0], haystack)
    } else if m == 2 {
        find_byte2(members[0], members[1], haystack)
    } else {
        find_byte3(members[0], members[1], members[2], haystack)
    };
    proof {
        assert forall|b: u8| members@.contains(b) <==> (b == members@[0] || (m >= 2 && b
            == members@[1]) || (m >= 3 && b == members@[2])) by {
            if members@.contains(b) {
                let k = choose|k: int| 0 <= k < members@.len() && members@[k] == b;
                assert(k == 0 || k == 1 || k == 2);
            }
            if b == members@[0] {
                assert(members@.contains(b));
            }
            if m >= 2 && b == members@[1] {
                assert(members@.contains(b));
            }
            if m >= 3 && b == members@[2] {
                assert(members@.contains(b));
            }
        }
    }
    r
}

/// Scanner emitting every position whose byte belongs to a byte set.
#[derive(Clone, Debug)]
pub struct ByteSetScanner {
    bytes: ByteSet256,
}

impl View for ByteSetScanner {
    type V = Seq<u8>;

    /// The member bytes.
    closed spec fn view(&self) -> Seq<u8> {
        self.bytes@
    }
}

impl ByteSetScanner {
    pub fn new(bytes: ByteSet256) -> (scanner: Self)
        ensures
            scanner@ == bytes@,
    {
        ByteSetScanner { bytes }
    }
}

impl CandidateScanner for ByteSetScanner {
    open spec fn accepts(&self, text_len: int, range: ScanRange) -> bool {
        range.start.0 <= range.end.0 <= text_len
    }

    open spec fn scan_result(&self, text: Seq<u8>, range: ScanRange, out: Seq<BytePos>) -> bool {
        lists_exactly(
            out,
            range.start.0 as int,
            range.end.0 as int,
            |i: int| self@.contains(text[i]),
        )
    }

    fn scan_into(&self, text: TextBytes<'_>, range: ScanRange, out: &mut CandidateBuffer) {
        out.clear();
        let start = range.start.as_usize();
        let end = range.end.as_usize();
        let bytes = text.bytes();
        let members = self.bytes.members();
        let m = members.len();
        let ghost p = |i: int| self@.contains(text@[i]);
        let mut offset = start;
        if m == 0 {
            proof {
                lemma_lists_exactly_skip(out@, start as int, start as int, end as int, p);
            }
            return;
        }
        while offset < end
            invariant
                bytes@ == text@,
                members@ == self@,
                1 <= m == members@.len(),
                start <= offset <= end,
                end <= bytes@.len(),
                end <= u32::MAX,
                p == (|i: int| self@.contains(text@[i])),
                lists_exactly(out@, start as int, offset as int, p),
            decreases end - offset,
        {
            if m <= 3 {
                let hay = &bytes[offset..end];
                match find_member(members, hay) {
                    None => {
                        proof {
                            assert forall|j: int| offset <= j < end implies !#[trigger] p(j) by {
                                assert(hay@[j - offset] == text@[j]);
                            }
                            lemma_lists_exactly_skip(out@, start as int, offset as int, end as int, p);
                        }
                        offset = end;
                    },
                    Some(f) => {
                        let index = offset + f;
                        proof {
                            assert(hay@[f as int] == text@[index as int]);
                            assert forall|j: int| offset <= j < index + 1 && j != index implies !#[trigger] p(j) by {
                                assert(hay@[j - offset] == text@[j]);
                            }
                            lemma_lists_exactly_push(out@, start as int, offset as int, index + 1, p, index as u32);
                        }
                        out.push(BytePos::from_usize(index));
                        offset = index + 1;
                    },
                }
            } else {
                let byte = bytes[offset];
                if self.bytes.contains(byte) {
                    proof {
                        lemma_lists_exactly_push(out@, start as int, offset as int, offset + 1, p, offset as u32);
                    }
                    out.push(BytePos::from_usize(offset));
                } else {
                    proof {
                        lemma_lists_exactly_skip(out@, start as int, offset as int, offset + 1, p);
                    }
                }
                offset = offset + 1;
            }
        }
    }
}

} // verus!

verus! {

/// True when the scalar values of `s` strictly increase.
pub open spec fn chars_strictly_increasing(s: Seq<char>) -> bool {
    forall|a: int, b: int| 0 <= a < b < s.len() ==> (s[a] as u32) < (s[b] as u32)
}

/// Membership in a prefix grows by exactly the next element.
proof fn lemma_prefix_contains(s: Seq<char>, i: int)
    requires
        0 <= i < s.len(),
    ensures
        forall|d: char| #[trigger] s.subrange(0, i + 1).contains(d) == (s.subrange(0, i).contains(d) || d == s[i]),
{
    assert forall|d: char| #[trigger] s.subrange(0, i + 1).contains(d) == (s.subrange(0, i).contains(d) || d == s[i]) by {
        if s.subrange(0, i + 1).contains(d) {
            let k = choose|k: int| 0 <= k < i + 1 && #[trigger] s.subrange(0, i + 1)[k] == d;
            if k < i {
                assert(s.subrange(0, i)[k] == d);
            }
        }
        if s.subrange(0, i).contains(d) {
            let k = choose|k: int| 0 <= k < i && #[trigger] s.subrange(0, i)[k] == d;
            assert(s.subrange(0, i + 1)[k] == d);
        }
        if d == s[i] {
            assert(s.subrange(0, i + 1)[i] == d);
        }
    }
}

/// UTF-8 character scanner that emits byte offsets at matching scalar starts.
#[derive(Debug)]
pub struct Utf8CharSetScanner {
    chars: Vec<char>,
}

impl View for Utf8CharSetScanner {
    type V = Seq<char>;

    /// The distinct scanned characters, in increasing order.
    closed spec fn view(&self) -> Seq<char> {
        self.chars@
    }
}

impl Utf8CharSetScanner {
    #[verifier::type_invariant]
    closed spec fn sorted_unique(self) -> bool {
        chars_strictly_increasing(self.chars@)
    }

    /// Keeps the distinct characters of `chars`, sorted by scalar value.
    pub fn new(chars: Vec<char>) -> (scanner: Self)
        ensures
            chars_strictly_increasing(scanner@),
            forall|c: char| #[trigger] scanner@.contains(c) == chars@.contains(c),
    {
        let mut sorted: Vec<char> = Vec::new();
        let n = chars.len();
        let mut i: usize = 0;
        while i < n
            invariant
                n == chars@.len(),
                i <= n,
                chars_strictly_increasing(sorted@),
                forall|c: char| #[trigger] sorted@.contains(c) == chars@.subrange(0, i as int).contains(c),
            decreases n - i,
        {
            let c = chars[i];
            let ghost before = sorted@;
            let len = sorted.len();
            let mut at: usize = 0;
            while at < len && (sorted[at] as u32) < (c as u32)
                invariant
                    len == sorted@.len(),
                    sorted@ == before,
                    at <= len,
                    forall|k: int| 0 <= k < at ==> (sorted@[k] as u32) < (c as u32),
                decreases len - at,
            {
                at = at + 1;
            }
            if at < len && (sorted[at] as u32) == (c as u32) {
                proof {
                    vstd::utf8::char_u32_cast(sorted@[at as int], c as u32);
                    vstd::utf8::char_u32_cast(c, c as u32);
                    assert(sorted@[at as int] == c);
                    lemma_prefix_contains(chars@, i as int);
                    assert forall|d: char| #[trigger] sorted@.contains(d) == chars@.subrange(0, i + 1).contains(d) by {
                        if d == c {
                            assert(sorted@[at as int] == d);
                        }
                    }
                }
            } else {
                sorted.insert(at, c);
                proof {
                    assert(sorted@ =~= before.subrange(0, at as int).push(c) + before.subrange(at as int, len as int));
                    assert forall|a: int, b: int| 0 <= a < b < sorted@.len() implies (sorted@[a] as u32) < (sorted@[b] as u32) by {
                        if b < at {
                        } else if b == at {
                        } else if a < at {
                            assert(sorted@[b] == before[b - 1]);
                            if at < len {
                                assert((c as u32) < (before[at as int] as u32));
                            }
                        } else if a == at {
                            assert(sorted@[b] == before[b - 1]);
                            assert((c as u32) <= (before[at as int] as u32));
                        } else {
                            assert(sorted@[a] == before[a - 1]);
                            assert(sorted@[b] == before[b - 1]);
                        }
                    }
                    assert forall|d: char| #[trigger] sorted@.contains(d) == (before.contains(d) || d == c) by {
                        if sorted@.contains(d) {
                            let k = choose|k: int| 0 <= k < sorted@.len() && sorted@[k] == d;
                            if k < at {
                                assert(before[k] == d);
                            } else if k > at {
                                assert(before[k - 1] == d);
                            }
                        }
                        if before.contains(d) {
                            let k = choose|k: int| 0 <= k < before.len() && before[k] == d;
                            if k < at {
                                assert(sorted@[k] == d);
                            } else {
                                assert(sorted@[k + 1] == d);
                            }
                        }
                        if d == c {
                            assert(sorted@[at as int] == c);
                        }
                    }
                    lemma_prefix_contains(chars@, i as int);
                }
            }
            i = i + 1;
        }
        assert(chars@.subrange(0, n as int) =~= chars@);
        Utf8CharSetScanner { chars: sorted }
    }

    /// Binary search for a scalar value among the scanned characters.
    fn contains_scalar(&self, value: u32) -> (found: bool)
        ensures
            found == exists|k: int| 0 <= k < self@.len() && #[trigger] (self@[k] as u32) == value,
    {
        proof {
            use_type_invariant(self);
        }
        let mut lo: usize = 0;
        let mut hi: usize = self.chars.len();
        while lo < hi
            invariant
                hi <= self@.len(),
                lo <= hi,
                chars_strictly_increasing(self@),
                forall|k: int| 0 <= k < lo ==> (self@[k] as u32) < value,
                forall|k: int| hi <= k < self@.len() ==> (self@[k] as u32) > value,
            decreases hi - lo,
        {
            let mid = lo + (hi - lo) / 2;
            let v = self.chars[mid] as u32;
            if v == value {
                return true;
            } else if v < value {
                lo = mid + 1;
            } else {
                hi = mid;
            }
        }
        false
    }
}

impl Clone for Utf8CharSetScanner {
    fn clone(&self) -> (c: Self)
        ensures
            c@ == self@,
    {
        proof {
            use_type_invariant(self);
        }
        let chars = self.chars.clone();
        assert(chars@ =~= self.chars@);
        Utf8CharSetScanner { chars }
    }
}

/// True when byte `i` of `text` starts a scalar that is one of `chars`.
pub open spec fn starts_scalar_in(text: Seq<u8>, chars: Seq<char>, i: int) -> bool {
    is_scalar_start(text, i) && exists|k: int|
        0 <= k < chars.len() && #[trigger] (chars[k] as u32) == scalar_at(text, i)
}

/// Two strictly increasing character lists with the same members are equal.
pub proof fn lemma_sorted_chars_unique(s1: Seq<char>, s2: Seq<char>)
    requires
        chars_strictly_increasing(s1),
        chars_strictly_increasing(s2),
        forall|c: char| #[trigger] s1.contains(c) == s2.contains(c),
    ensures
        s1 == s2,
    decreases s1.len() + s2.len(),
{
    if s1.len() == 0 || s2.len() == 0 {
        if s1.len() > 0 {
            assert(s1.contains(s1[0]));
            assert(s2.contains(s1[0]));
        }
        if s2.len() > 0 {
            assert(s2.contains(s2[0]));
            assert(s1.contains(s2[0]));
        }
        assert(s1 =~= s2);
    } else {
        let x1 = s1.last();
        let x2 = s2.last();
        assert(s1.contains(x1));
        assert(s2.contains(x1));
        let k1 = choose|k: int| 0 <= k < s2.len() && s2[k] == x1;
        assert(s1.contains(x2) == s2.contains(x2));
        assert(s2.contains(x2));
        let k2 = choose|k: int| 0 <= k < s1.len() && s1[k] == x2;
        if k1 < s2.len() - 1 {
            assert((s2[k1] as u32) < (s2[s2.len() - 1] as u32));
        }
        if k2 < s1.len() - 1 {
            assert((s1[k2] as u32) < (s1[s1.len() - 1] as u32));
        }
        assert(x1 == x2);
        let t1 = s1.drop_last();
        let t2 = s2.drop_last();
        assert forall|c: char| #[trigger] t1.contains(c) == t2.contains(c) by {
            if t1.contains(c) {
                let k = choose|k: int| 0 <= k < t1.len() && t1[k] == c;
                assert(s1[k] == c);
                assert((s1[k] as u32) < (s1[s1.len() - 1] as u32));
                assert(s1.contains(c));
                assert(s2.contains(c));
                let j = choose|j: int| 0 <= j < s2.len() && s2[j] == c;
                assert(j != s2.len() - 1);
                assert(t2[j] == c);
            }
            if t2.contains(c) {
                let k = choose|k: int| 0 <= k < t2.len() && t2[k] == c;
                assert(s2[k] == c);
                assert((s2[k] as u32) < (s2[s2.len() - 1] as u32));
                assert(s2.contains(c));
                assert(s1.contains(c));
                let j = choose|j: int| 0 <= j < s1.len() && s1[j] == c;
                assert(j != s1.len() - 1);
                assert(t1[j] == c);
            }
        }
        lemma_sorted_chars_unique(t1, t2);
        assert(s1 =~= t1.push(x1));
        assert(s2 =~= t2.push(x2));
    }
}

/// Scanners built by `Utf8CharSetScanner::new` from two lists with the same
/// set of characters, in any order and with any repetition, hold the same
/// character list and emit the same positions on every text and range.
pub proof fn lemma_scanners_from_same_set_scan_alike(
    chars1: Seq<char>,
    chars2: Seq<char>,
    s1: &Utf8CharSetScanner,
    s2: &Utf8CharSetScanner,
    text: Seq<u8>,
    range: ScanRange,
    o1: Seq<BytePos>,
    o2: Seq<BytePos>,
)
    requires
        forall|c: char| #[trigger] chars1.contains(c) == chars2.contains(c),
        chars_strictly_increasing(s1@),
        chars_strictly_increasing(s2@),
        forall|c: char| #[trigger] s1@.contains(c) == chars1.contains(c),
        forall|c: char| #[trigger] s2@.contains(c) == chars2.contains(c),
        s1.scan_result(text, range, o1),
        s2.scan_result(text, range, o2),
    ensures
        s1@ == s2@,
        o1 == o2,
{
    assert forall|c: char| #[trigger] s1@.contains(c) == s2@.contains(c) by {
        assert(chars1.contains(c) == chars2.contains(c));
        assert(s2@.contains(c) == chars2.contains(c));
    }
    lemma_sorted_chars_unique(s1@, s2@);
    lemma_same_chars_scan_alike(s1, s2, text, range, o1, o2);
}

/// Two char-set scanners that scan for the same set of characters, however
/// their lists were ordered or repeated when built, emit the same positions on
/// every text and range.
pub proof fn lemma_same_chars_scan_alike(
    s1: &Utf8CharSetScanner,
    s2: &Utf8CharSetScanner,
    text: Seq<u8>,
    range: ScanRange,
    o1: Seq<BytePos>,
    o2: Seq<BytePos>,
)
    requires
        forall|c: char| #[trigger] s1@.contains(c) == s2@.contains(c),
        s1.scan_result(text, range, o1),
        s2.scan_result(text, range, o2),
    ensures
        o1 == o2,
{
    if valid_utf8(text) {
        let p1 = |i: int| starts_scalar_in(text, s1@, i);
        let p2 = |i: int| starts_scalar_in(text, s2@, i);
        assert forall|i: int| #[trigger] p1(i) == p2(i) by {
            if p1(i) {
                let k = choose|k: int| 0 <= k < s1@.len() && #[trigger] (s1@[k] as u32) == scalar_at(text, i);
                assert(s1@.contains(s1@[k]));
                let k2 = choose|k2: int| 0 <= k2 < s2@.len() && s2@[k2] == s1@[k];
                assert((s2@[k2] as u32) == scalar_at(text, i));
            }
            if p2(i) {
                let k = choose|k: int| 0 <= k < s2@.len() && #[trigger] (s2@[k] as u32) == scalar_at(text, i);
                assert(s2@.contains(s2@[k]));
                assert(s1@.contains(s2@[k]));
                let k1 = choose|k1: int| 0 <= k1 < s1@.len() && s1@[k1] == s2@[k];
                assert((s1@[k1] as u32) == scalar_at(text, i));
            }
        }
        assert(p1 =~= p2);
        let hi = if range.end.0 < text.len() { range.end.0 as int } else { text.len() as int };
        lemma_lists_exactly_unique(o1, o2, range.start.0 as int, hi, p1);
    } else {
        assert(o1 =~= o2);
    }
}

/// `x` clamped into `[lo, hi]`, or `lo` when the interval is empty.
pub open spec fn clamp(x: int, lo: int, hi: int) -> int {
    if x < lo {
        lo
    } else if x > hi {
        if hi < lo {
            lo
        } else {
            hi
        }
    } else {
        x
    }
}

impl CandidateScanner for Utf8CharSetScanner {
    open spec fn accepts(&self, text_len: int, range: ScanRange) -> bool {
        true
    }

    open spec fn scan_result(&self, text: Seq<u8>, range: ScanRange, out: Seq<BytePos>) -> bool {
        if valid_utf8(text) {
            lists_exactly(
                out,
                range.start.0 as int,
                if range.end.0 < text.len() {
                    range.end.0 as int
                } else {
                    text.len() as int
                },
                |i: int| starts_scalar_in(text, self@, i),
            )
        } else {
            out.len() == 0
        }
    }

    fn scan_into(&self, text: TextBytes<'_>, range: ScanRange, out: &mut CandidateBuffer) {
        out.clear();
        let s = match text.as_utf8_str() {
            Some(s) => s,
            None => {
                return;
            },
        };
        let bytes = s.as_bytes();
        let n = bytes.len();
        let start = range.start.as_usize();
        let end = if range.end.as_usize() < n {
            range.end.as_usize()
        } else {
            n
        };
        let ghost p = |i: int| starts_scalar_in(text@, self@, i);
        let ghost hi: int = if end < start { start as int } else { end as int };
        let mut i: usize = 0;
        assert(tail(bytes@, 0) =~= bytes@);
        while i < n && i < end
            invariant
                bytes@ == text@,
                n == bytes@.len(),
                end <= n,
                end <= u32::MAX,
                i <= n,
                hi == (if end < start { start as int } else { end as int }),
                valid_utf8(tail(bytes@, i as int)),
                i == n || is_scalar_start(bytes@, i as int),
                p == (|j: int| starts_scalar_in(text@, self@, j)),
                lists_exactly(out@, start as int, clamp(i as int, start as int, end as int), p),
            decreases n - i,
        {
            let (value, width) = decode_scalar_at(bytes, i);
            let next = i + width;
            proof {
                assert forall|j: int| i < j < next implies !#[trigger] p(j) by {
                    assert(is_continuation_byte(bytes@[j]));
                }
                if next < n {
                    lemma_step_valid(bytes@, next as int);
                }
            }
            if i >= start && self.contains_scalar(value) {
                proof {
                    lemma_lists_exactly_push(out@, start as int, i as int, clamp(next as int, start as int, end as int), p, i as u32);
                }
                out.push(BytePos::from_usize(i));
            } else {
                proof {
                    lemma_lists_exactly_skip(out@, start as int, clamp(i as int, start as int, end as int), clamp(next as int, start as int, end as int), p);
                }
            }
            i = next;
        }
        proof {
            if start <= end {
                lemma_lists_exactly_skip(out@, start as int, clamp(i as int, start as int, end as int), end as int, p);
            }
        }
    }
}

} // verus!

verus! {

/// Emits every `stride` bytes starting at the beginning of the range.
#[derive(Clone, Copy, Debug)]
pub struct StrideScanner {
    stride: usize,
}

impl StrideScanner {
    pub fn new(stride: usize) -> (scanner: Self)
        requires
            stride > 0,
        ensures
            scanner.spec_stride() == stride,
    {
        StrideScanner { stride }
    }

    pub closed spec fn spec_stride(self) -> int {
        self.stride as int
    }
}

proof fn lemma_stride_gap(start: int, k: int, stride: int, j: int)
    requires
        stride > 0,
        k >= 0,
        start + k * stride < j < start + (k + 1) * stride,
    ensures
        (j - start) % stride != 0,
{
    let r = j - start - k * stride;
    assert(0 < r < stride) by (nonlinear_arith)
        requires
            start + k * stride < j < start + (k + 1) * stride,
            r == j - start - k * stride,
    ;
    vstd::arithmetic::div_mod::lemma_mod_multiples_vanish(k, r, stride);
    vstd::arithmetic::div_mod::lemma_small_mod(r as nat, stride as nat);
    assert(j - start == stride * k + r) by (nonlinear_arith)
        requires
            r == j - start - k * stride,
    ;
}

proof fn lemma_stride_hit(start: int, k: int, stride: int)
    requires
        stride > 0,
    ensures
        (k * stride) % stride == 0,
{
    vstd::arithmetic::div_mod::lemma_mod_multiples_vanish(k, 0, stride);
    assert(stride * k + 0 == k * stride) by (nonlinear_arith);
}

impl CandidateScanner for StrideScanner {
    open spec fn accepts(&self, text_len: int, range: ScanRange) -> bool {
        true
    }

    open spec fn scan_result(&self, text: Seq<u8>, range: ScanRange, out: Seq<BytePos>) -> bool {
        lists_exactly(
            out,
            range.start.0 as int,
            if range.end.0 < text.len() {
                range.end.0 as int
            } else {
                text.len() as int
            },
            |i: int| (i - range.start.0) % self.spec_stride() == 0,
        )
    }

    fn scan_into(&self, text: TextBytes<'_>, range: ScanRange, out: &mut CandidateBuffer) {
        proof {
            use_type_invariant(self);
        }
        out.clear();
        let n = text.len();
        let end = if range.end.as_usize() < n {
            range.end.as_usize()
        } else {
            n
        };
        let start = range.start.as_usize();
        let stride = self.stride;
        let ghost p = |i: int| (i - range.start.0) % self.spec_stride() == 0;
        let mut offset = start;
        let ghost mut k: int = 0;
        if offset >= end {
            return;
        }
        while offset < end
            invariant
                stride == self.spec_stride(),
                stride > 0,
                start == range.start.0,
                start <= offset,
                end <= u32::MAX,
                offset < end ==> offset - start == k * stride,
                k >= 0,
                p == (|i: int| (i - range.start.0) % self.spec_stride() == 0),
                lists_exactly(out@, start as int, if offset < end { offset as int } else { end as int }, p),
            decreases end - offset,
        {
            proof {
                lemma_stride_hit(start as int, k, stride as int);
                let next_hi: int = if end - offset <= stride { end as int } else { offset + stride };
                assert forall|j: int| offset <= j < next_hi && j != offset implies !#[trigger] p(j) by {
                    assert((k + 1) * stride == k * stride + stride) by (nonlinear_arith);
                    lemma_stride_gap(start as int, k, stride as int, j);
                }
                lemma_lists_exactly_push(out@, start as int, offset as int, next_hi, p, offset as u32);
            }
            out.push(BytePos::from_usize(offset));
            if end - offset <= stride {
                offset = end;
            } else {
                offset = offset + stride;
                proof {
                    k = k + 1;
                    assert(k * stride == (k - 1) * stride + stride) by (nonlinear_arith);
                }
            }
        }
    }
}

impl StrideScanner {
    #[verifier::type_invariant]
    closed spec fn positive_stride(self) -> bool {
        self.stride > 0
    }
}

/// True when `i` is `start` or follows a newline byte.
pub open spec fn starts_line_from(text: Seq<u8>, start: int, i: int) -> bool {
    i == start || (i > start && text[i - 1] == 0x0A)
}

/// Emits byte positions at the start of the range and after each newline.
#[derive(Clone, Copy, Debug, Default)]
pub struct LineStartScanner;

impl LineStartScanner {
    pub fn new() -> (scanner: Self) {
        LineStartScanner
    }
}

impl CandidateScanner for LineStartScanner {
    open spec fn accepts(&self, text_len: int, range: ScanRange) -> bool {
        true
    }

    open spec fn scan_result(&self, text: Seq<u8>, range: ScanRange, out: Seq<BytePos>) -> bool {
        lists_exactly(
            out,
            range.start.0 as int,
            if range.end.0 < text.len() {
                range.end.0 as int
            } else {
                text.len() as int
            },
            |i: int| starts_line_from(text, range.start.0 as int, i),
        )
    }

    fn scan_into(&self, text: TextBytes<'_>, range: ScanRange, out: &mut CandidateBuffer) {
        out.clear();
        let n = text.len();
        let start = range.start.as_usize();
        let end = if range.end.as_usize() < n {
            range.end.as_usize()
        } else {
            n
        };
        if start >= end {
            return;
        }
        let bytes = text.bytes();
        let ghost p = |i: int| starts_line_from(text@, start as int, i);
        proof {
            lemma_lists_exactly_push(out@, start as int, start as int, start + 1, p, start as u32);
        }
        out.push(BytePos::from_usize(start));
        let mut offset = start;
        while offset < end
            invariant
                bytes@ == text@,
                start <= offset <= end,
                end <= bytes@.len(),
                end <= u32::MAX,
                start < end,
                p == (|i: int| starts_line_from(text@, start as int, i)),
                lists_exactly(out@, start as int, if offset + 1 < end { offset + 1 } else { end as int }, p),
            decreases end - offset,
        {
            let hay = &bytes[offset..end];
            match find_byte(0x0A, hay) {
                None => {
                    proof {
                        assert forall|j: int| offset + 1 <= j < end implies !#[trigger] p(j) by {
                            assert(hay@[j - 1 - offset] == text@[j - 1]);
                        }
                        if offset + 1 < end {
                            lemma_lists_exactly_skip(out@, start as int, offset + 1, end as int, p);
                        }
                    }
                    offset = end;
                },
                Some(f) => {
                    let next = offset + f + 1;
                    proof {
                        assert(hay@[f as int] == text@[offset + f]);
                        assert forall|j: int| offset + 1 <= j < next implies !#[trigger] p(j) by {
                            assert(hay@[j - 1 - offset] == text@[j - 1]);
                        }
                        if offset + 1 < end {
                            lemma_lists_exactly_skip(out@, start as int, offset + 1, if next < end { next as int } else { end as int }, p);
                        }
                    }
                    if next < end {
                        proof {
                            lemma_lists_exactly_push(out@, start as int, next as int, next + 1, p, next as u32);
                        }
                        out.push(BytePos::from_usize(next));
                    }
                    offset = next;
                },
            }
        }
    }
}

} // verus!
