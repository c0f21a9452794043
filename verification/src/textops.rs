use vstd::prelude::*;
use vstd::utf8::*;

use crate::scalars::{decode_scalar_at, is_scalar_start, lemma_step_valid, scalar_at, scalar_width_at, tail};

verus! {

/// Unicode `White_Space` of a code point (the code points that PropList.txt
/// lists under that property), which is what `char::is_whitespace` reports.
pub closed spec fn white_space(c: u32) -> bool {
    ||| 0x09 <= c <= 0x0D
    ||| c == 0x20
    ||| c == 0x85
    ||| c == 0xA0
    ||| c == 0x1680
    ||| 0x2000 <= c <= 0x200A
    ||| c == 0x2028
    ||| c == 0x2029
    ||| c == 0x202F
    ||| c == 0x205F
    ||| c == 0x3000
}

/// An ASCII letter is no whitespace.
pub proof fn lemma_ascii_letter_not_white_space(c: u32)
    requires
        is_ascii_letter_code(c),
    ensures
        !white_space(c),
{
}

/// ASCII digits, `-`, `*` and `•` are no whitespace.
pub proof fn lemma_marker_not_white_space(c: u32)
    requires
        (0x30 <= c <= 0x39) || c == 0x2D || c == 0x2A || c == 0x2022,
    ensures
        !white_space(c),
{
}

/// The code point of an ASCII letter, upper or lower case.
pub open spec fn is_ascii_letter_code(c: u32) -> bool {
    (0x41 <= c <= 0x5A) || (0x61 <= c <= 0x7A)
}

/// Unicode `Alphabetic` of a code point, as `char::is_alphabetic` reports it.
pub uninterp spec fn alphabetic(c: u32) -> bool;

/// Unicode `Uppercase` of a code point, as `char::is_uppercase` reports it.
pub uninterp spec fn uppercase(c: u32) -> bool;

/// Unicode `Lowercase` of a code point, as `char::is_lowercase` reports it.
pub uninterp spec fn lowercase(c: u32) -> bool;

/// Unicode `White_Space` of the scalar value `c`, the property that
/// `char::is_whitespace` reports, tested against the code points that carry it.
pub(crate) fn scalar_is_whitespace(c: u32) -> (r: bool)
    ensures
        r == white_space(c),
{
    (0x09 <= c && c <= 0x0D) || c == 0x20 || c == 0x85 || c == 0xA0 || c == 0x1680 || (0x2000 <= c
        && c <= 0x200A) || c == 0x2028 || c == 0x2029 || c == 0x202F || c == 0x205F || c == 0x3000
}

/// Calls `char::is_alphabetic` on the scalar value `c` (turned back into its
/// `char` by `char::from_u32`; a value that is no scalar gets `false`).
#[verifier::external_body]
pub(crate) fn scalar_is_alphabetic(c: u32) -> (r: bool)
    ensures
        r == alphabetic(c),
{
    match char::from_u32(c) {
        Some(ch) => ch.is_alphabetic(),
        None => false,
    }
}

/// Calls `char::is_uppercase` on the scalar value `c` (as for `scalar_is_alphabetic`).
#[verifier::external_body]
pub(crate) fn scalar_is_uppercase(c: u32) -> (r: bool)
    ensures
        r == uppercase(c),
{
    match char::from_u32(c) {
        Some(ch) => ch.is_uppercase(),
        None => false,
    }
}

/// Calls `char::is_lowercase` on the scalar value `c` (as for `scalar_is_alphabetic`).
#[verifier::external_body]
pub(crate) fn scalar_is_lowercase(c: u32) -> (r: bool)
    ensures
        r == lowercase(c),
{
    match char::from_u32(c) {
        Some(ch) => ch.is_lowercase(),
        None => false,
    }
}

/// Unicode `Numeric` of a code point, as `char::is_numeric` reports it.
pub uninterp spec fn numeric(c: u32) -> bool;

/// First scalar of the lower-case mapping of a code point, as
/// `char::to_lowercase` yields it.
pub uninterp spec fn lowercase_first(c: u32) -> u32;

/// Calls `char::is_numeric` on the scalar value `c` (as for `scalar_is_alphabetic`).
#[verifier::external_body]
pub(crate) fn scalar_is_numeric(c: u32) -> (r: bool)
    ensures
        r == numeric(c),
{
    match char::from_u32(c) {
        Some(ch) => ch.is_numeric(),
        None => false,
    }
}

/// Calls `char::to_lowercase` on the scalar value `c` and returns the first
/// scalar it yields (`c` itself when `c` is no scalar). Which scalar that is
/// is left to the name `lowercase_first`.
#[verifier::external_body]
pub(crate) fn scalar_lowercase_first(c: u32) -> (r: u32)
    ensures
        r == lowercase_first(c),
{
    match char::from_u32(c) {
        Some(ch) => ch.to_lowercase().next().unwrap_or(ch) as u32,
        None => c,
    }
}

/// `\n` or `\r`.
pub open spec fn is_line_break(x: u8) -> bool {
    x == 0x0A || x == 0x0D
}

/// Offset `i` lies between two scalars of `b` (or at either end).
pub open spec fn is_boundary(b: Seq<u8>, i: int) -> bool {
    i == 0 || i == b.len() || (0 < i < b.len() && !is_continuation_byte(b[i]))
}

/// The tail of valid UTF-8 after a boundary is valid UTF-8.
pub proof fn lemma_tail_valid(b: Seq<u8>, i: int)
    requires
        valid_utf8(b),
        0 <= i <= b.len(),
        is_boundary(b, i),
    ensures
        valid_utf8(tail(b, i)),
{
    if i == 0 {
        assert(tail(b, 0) =~= b);
    } else if i < b.len() {
        is_char_boundary_iff_not_is_continuation_byte(b, i);
        valid_utf8_split(b, i);
    } else {
        assert(tail(b, i).len() == 0);
    }
}

/// The largest boundary at or below `i` (with `i` at most the length).
pub open spec fn floor_boundary(b: Seq<u8>, i: int) -> int
    decreases i,
{
    if i <= 0 {
        0
    } else if is_boundary(b, i) {
        i
    } else {
        floor_boundary(b, i - 1)
    }
}

/// The smallest boundary at or above `i` (with `i` at least zero).
pub open spec fn ceil_boundary(b: Seq<u8>, i: int) -> int
    decreases b.len() - i,
{
    if i >= b.len() {
        b.len() as int
    } else if is_boundary(b, i) {
        i
    } else {
        ceil_boundary(b, i + 1)
    }
}

pub open spec fn clamp_len(b: Seq<u8>, i: int) -> int {
    if i < b.len() {
        i
    } else {
        b.len() as int
    }
}

pub proof fn lemma_floor_boundary(b: Seq<u8>, i: int)
    requires
        0 <= i <= b.len(),
    ensures
        0 <= floor_boundary(b, i) <= i,
        is_boundary(b, floor_boundary(b, i)),
        forall|k: int| floor_boundary(b, i) < k <= i ==> !is_boundary(b, k),
    decreases i,
{
    if i > 0 && !is_boundary(b, i) {
        lemma_floor_boundary(b, i - 1);
    }
}

pub proof fn lemma_ceil_boundary(b: Seq<u8>, i: int)
    requires
        0 <= i <= b.len(),
    ensures
        i <= ceil_boundary(b, i) <= b.len(),
        is_boundary(b, ceil_boundary(b, i)),
        forall|k: int| i <= k < ceil_boundary(b, i) ==> !is_boundary(b, k),
    decreases b.len() - i,
{
    if i < b.len() && !is_boundary(b, i) {
        lemma_ceil_boundary(b, i + 1);
    }
}

/// `floor_char_boundary` on `min(position, len)`.
pub fn floor_char_boundary(bytes: &[u8], position: usize) -> (p: usize)
    ensures
        p == floor_boundary(bytes@, clamp_len(bytes@, position as int)),
        p <= bytes@.len(),
        is_boundary(bytes@, p as int),
{
    let n = bytes.len();
    let mut p = if position < n {
        position
    } else {
        n
    };
    while p > 0 && !(p == n || bytes[p] < 0x80 || bytes[p] >= 0xC0)
        invariant
            p <= n == bytes@.len(),
            floor_boundary(bytes@, p as int) == floor_boundary(
                bytes@,
                clamp_len(bytes@, position as int),
            ),
        decreases p,
    {
        p = p - 1;
    }
    p
}

/// `ceil_char_boundary` on `min(position, len)`.
pub fn ceil_char_boundary(bytes: &[u8], position: usize) -> (p: usize)
    ensures
        p == ceil_boundary(bytes@, clamp_len(bytes@, position as int)),
        p <= bytes@.len(),
        is_boundary(bytes@, p as int),
{
    let n = bytes.len();
    let mut p = if position < n {
        position
    } else {
        n
    };
    while p < n && !(p == 0 || bytes[p] < 0x80 || bytes[p] >= 0xC0)
        invariant
            p <= n == bytes@.len(),
            ceil_boundary(bytes@, p as int) == ceil_boundary(
                bytes@,
                clamp_len(bytes@, position as int),
            ),
        decreases n - p,
    {
        p = p + 1;
    }
    p
}

/// Offset just after the last line break before `i`, or zero.
pub open spec fn line_start_at(b: Seq<u8>, i: int) -> int
    decreases i,
{
    if i <= 0 {
        0
    } else if is_line_break(b[i - 1]) {
        i
    } else {
        line_start_at(b, i - 1)
    }
}

/// Offset of the first line break at or after `i`, or the length.
pub open spec fn line_end_at(b: Seq<u8>, i: int) -> int
    decreases b.len() - i,
{
    if i >= b.len() {
        b.len() as int
    } else if is_line_break(b[i]) {
        i
    } else {
        line_end_at(b, i + 1)
    }
}

pub proof fn lemma_line_start(b: Seq<u8>, i: int)
    requires
        0 <= i <= b.len(),
    ensures
        0 <= line_start_at(b, i) <= i,
        line_start_at(b, i) == 0 || is_line_break(b[line_start_at(b, i) - 1]),
        forall|k: int| line_start_at(b, i) <= k < i ==> !is_line_break(#[trigger] b[k]),
    decreases i,
{
    if i > 0 && !is_line_break(b[i - 1]) {
        lemma_line_start(b, i - 1);
    }
}

pub proof fn lemma_line_end(b: Seq<u8>, i: int)
    requires
        0 <= i <= b.len(),
    ensures
        i <= line_end_at(b, i) <= b.len(),
        line_end_at(b, i) == b.len() || is_line_break(b[line_end_at(b, i)]),
        forall|k: int| i <= k < line_end_at(b, i) ==> !is_line_break(#[trigger] b[k]),
    decreases b.len() - i,
{
    if i < b.len() && !is_line_break(b[i]) {
        lemma_line_end(b, i + 1);
    }
}

/// Start of the line holding offset `i`: after the last line break before it.
pub fn line_start_before(bytes: &[u8], i: usize) -> (s: usize)
    requires
        i <= bytes@.len(),
    ensures
        s == line_start_at(bytes@, i as int),
{
    let mut s = i;
    while s > 0 && !(bytes[s - 1] == 0x0A || bytes[s - 1] == 0x0D)
        invariant
            s <= i <= bytes@.len(),
            line_start_at(bytes@, s as int) == line_start_at(bytes@, i as int),
        decreases s,
    {
        s = s - 1;
    }
    s
}

/// End of the line holding offset `i`: the next line break at or after it.
pub fn line_end_after(bytes: &[u8], i: usize) -> (e: usize)
    requires
        i <= bytes@.len(),
    ensures
        e == line_end_at(bytes@, i as int),
{
    let n = bytes.len();
    let mut e = i;
    while e < n && !(bytes[e] == 0x0A || bytes[e] == 0x0D)
        invariant
            i <= e <= n == bytes@.len(),
            line_end_at(bytes@, e as int) == line_end_at(bytes@, i as int),
        decreases n - e,
    {
        e = e + 1;
    }
    e
}

/// The first scalar start in `[j, e)` whose scalar is not whitespace.
pub open spec fn first_nonspace(b: Seq<u8>, j: int, e: int) -> Option<int>
    decreases e - j,
{
    if j >= e {
        None
    } else if is_scalar_start(b, j) && !white_space(scalar_at(b, j)) {
        Some(j)
    } else {
        first_nonspace(b, j + 1, e)
    }
}

/// The last scalar start in `[s, j)` whose scalar is not whitespace.
pub open spec fn last_nonspace(b: Seq<u8>, s: int, j: int) -> Option<int>
    decreases j - s,
{
    if j <= s {
        None
    } else if is_scalar_start(b, j - 1) && !white_space(scalar_at(b, j - 1)) {
        Some(j - 1)
    } else {
        last_nonspace(b, s, j - 1)
    }
}

pub proof fn lemma_first_nonspace(b: Seq<u8>, j: int, e: int)
    ensures
        first_nonspace(b, j, e) matches Some(x) ==> j <= x < e && is_scalar_start(b, x) && !white_space(scalar_at(b, x)),
    decreases e - j,
{
    if j < e && !(is_scalar_start(b, j) && !white_space(scalar_at(b, j))) {
        lemma_first_nonspace(b, j + 1, e);
    }
}

pub proof fn lemma_last_nonspace(b: Seq<u8>, s: int, j: int)
    ensures
        last_nonspace(b, s, j) matches Some(x) ==> s <= x < j && is_scalar_start(b, x) && !white_space(scalar_at(b, x)),
    decreases j - s,
{
    if j > s && !(is_scalar_start(b, j - 1) && !white_space(scalar_at(b, j - 1))) {
        lemma_last_nonspace(b, s, j - 1);
    }
}

/// Whether the scalar starting at offset `j` (a scalar start of valid UTF-8) is whitespace.
fn whitespace_at(bytes: &[u8], j: usize) -> (r: bool)
    requires
        valid_utf8(bytes@),
        is_scalar_start(bytes@, j as int),
    ensures
        r == white_space(scalar_at(bytes@, j as int)),
{
    proof {
        lemma_tail_valid(bytes@, j as int);
    }
    let (c, _w) = decode_scalar_at(bytes, j);
    scalar_is_whitespace(c)
}

/// Offset of the first non-whitespace scalar starting in `[start, end)`.
pub fn find_nonspace(bytes: &[u8], start: usize, end: usize) -> (r: Option<usize>)
    requires
        valid_utf8(bytes@),
        start <= end <= bytes@.len(),
    ensures
        r matches Some(x) ==> first_nonspace(bytes@, start as int, end as int) == Some(x as int),
        r is None ==> first_nonspace(bytes@, start as int, end as int) is None,
{
    let mut j = start;
    while j < end
        invariant
            valid_utf8(bytes@),
            start <= j <= end <= bytes@.len(),
            first_nonspace(bytes@, start as int, end as int) == first_nonspace(
                bytes@,
                j as int,
                end as int,
            ),
        decreases end - j,
    {
        if bytes[j] < 0x80 || bytes[j] >= 0xC0 {
            if !whitespace_at(bytes, j) {
                return Some(j);
            }
        }
        j = j + 1;
    }
    None
}

/// Offset of the last non-whitespace scalar starting in `[start, end)`.
pub fn find_last_nonspace(bytes: &[u8], start: usize, end: usize) -> (r: Option<usize>)
    requires
        valid_utf8(bytes@),
        start <= end <= bytes@.len(),
    ensures
        r matches Some(x) ==> last_nonspace(bytes@, start as int, end as int) == Some(x as int),
        r is None ==> last_nonspace(bytes@, start as int, end as int) is None,
{
    let mut j = end;
    while j > start
        invariant
            valid_utf8(bytes@),
            start <= j <= end <= bytes@.len(),
            last_nonspace(bytes@, start as int, end as int) == last_nonspace(
                bytes@,
                start as int,
                j as int,
            ),
        decreases j - start,
    {
        if bytes[j - 1] < 0x80 || bytes[j - 1] >= 0xC0 {
            if !whitespace_at(bytes, j - 1) {
                return Some(j - 1);
            }
        }
        j = j - 1;
    }
    None
}

/// Number of scalars starting in `[lo, hi)` whose value satisfies `p`.
pub open spec fn count_scalars(b: Seq<u8>, lo: int, hi: int, p: spec_fn(u32) -> bool) -> nat
    decreases hi - lo,
{
    if hi <= lo {
        0
    } else {
        count_scalars(b, lo, hi - 1, p) + if is_scalar_start(b, hi - 1) && p(scalar_at(b, hi - 1)) {
            1nat
        } else {
            0nat
        }
    }
}

/// ASCII lower-casing of one byte.
pub open spec fn lower_ascii(x: u8) -> u8 {
    if 0x41 <= x <= 0x5A {
        (x + 32) as u8
    } else {
        x
    }
}

/// `b1` and `b2` hold the same bytes once ASCII letters are lower-cased.
pub open spec fn same_up_to_ascii_case(b1: Seq<u8>, b2: Seq<u8>) -> bool {
    &&& b1.len() == b2.len()
    &&& forall|i: int| 0 <= i < b1.len() ==> #[trigger] lower_ascii(b1[i]) == lower_ascii(b2[i])
}

/// Two bytes that lower-case alike are equal or are both ASCII letters.
proof fn lemma_case_pair(x: u8, y: u8)
    requires
        lower_ascii(x) == lower_ascii(y),
    ensures
        x == y || (is_ascii_letter_code(x as u32) && is_ascii_letter_code(y as u32)),
{
}

proof fn lemma_case_at(b1: Seq<u8>, b2: Seq<u8>, i: int)
    requires
        same_up_to_ascii_case(b1, b2),
        0 <= i < b1.len(),
    ensures
        b1[i] == b2[i] || (is_ascii_letter_code(b1[i] as u32) && is_ascii_letter_code(b2[i] as u32)),
        is_line_break(b1[i]) == is_line_break(b2[i]),
        is_continuation_byte(b1[i]) == is_continuation_byte(b2[i]),
{
    assert(lower_ascii(b1[i]) == lower_ascii(b2[i]));
    lemma_case_pair(b1[i], b2[i]);
}

pub proof fn lemma_case_line_start(b1: Seq<u8>, b2: Seq<u8>, i: int)
    requires
        same_up_to_ascii_case(b1, b2),
        i <= b1.len(),
    ensures
        line_start_at(b1, i) == line_start_at(b2, i),
    decreases i,
{
    if i > 0 {
        lemma_case_at(b1, b2, i - 1);
        lemma_case_line_start(b1, b2, i - 1);
    }
}

pub proof fn lemma_case_line_end(b1: Seq<u8>, b2: Seq<u8>, i: int)
    requires
        same_up_to_ascii_case(b1, b2),
        0 <= i,
    ensures
        line_end_at(b1, i) == line_end_at(b2, i),
    decreases b1.len() - i,
{
    if i < b1.len() {
        lemma_case_at(b1, b2, i);
        lemma_case_line_end(b1, b2, i + 1);
    }
}

pub proof fn lemma_case_floor_boundary(b1: Seq<u8>, b2: Seq<u8>, i: int)
    requires
        same_up_to_ascii_case(b1, b2),
        i <= b1.len(),
    ensures
        floor_boundary(b1, i) == floor_boundary(b2, i),
    decreases i,
{
    if 0 < i < b1.len() {
        lemma_case_at(b1, b2, i);
    }
    if i > 0 {
        lemma_case_floor_boundary(b1, b2, i - 1);
    }
}

/// At a scalar start, the two texts agree on the scalar's width and on
/// whether the scalar is whitespace.
pub proof fn lemma_case_scalar(b1: Seq<u8>, b2: Seq<u8>, j: int)
    requires
        same_up_to_ascii_case(b1, b2),
        valid_utf8(b1),
        0 <= j < b1.len(),
    ensures
        is_scalar_start(b1, j) == is_scalar_start(b2, j),
        is_scalar_start(b1, j) ==> scalar_width_at(b1, j) == scalar_width_at(b2, j),
        is_scalar_start(b1, j) ==> white_space(scalar_at(b1, j)) == white_space(scalar_at(b2, j)),
{
    lemma_case_at(b1, b2, j);
    if is_scalar_start(b1, j) {
        lemma_tail_valid(b1, j);
        lemma_step_valid(b1, j);
        let t1 = tail(b1, j);
        let t2 = tail(b2, j);
        if b1[j] != b2[j] {
            let x = b1[j];
            let y = b2[j];
            assert((x & 0x7F) as u32 == x as u32) by (bit_vector)
                requires
                    x < 0x80u8,
            ;
            assert((y & 0x7F) as u32 == y as u32) by (bit_vector)
                requires
                    y < 0x80u8,
            ;
            assert(scalar_at(b1, j) == x as u32);
            assert(scalar_at(b2, j) == y as u32);
            lemma_ascii_letter_not_white_space(x as u32);
            lemma_ascii_letter_not_white_space(y as u32);
        } else {
            let w = scalar_width_at(b1, j);
            assert forall|k: int| 0 <= k < w implies t1[k] == t2[k] by {
                lemma_case_at(b1, b2, j + k);
                if k > 0 {
                    assert(is_continuation_byte(b1[j + k]));
                }
            }
            assert(scalar_at(b1, j) == scalar_at(b2, j));
        }
    }
}

pub proof fn lemma_case_first_nonspace(b1: Seq<u8>, b2: Seq<u8>, j: int, e: int)
    requires
        same_up_to_ascii_case(b1, b2),
        valid_utf8(b1),
        0 <= j,
        e <= b1.len(),
    ensures
        first_nonspace(b1, j, e) == first_nonspace(b2, j, e),
    decreases e - j,
{
    if j < e {
        lemma_case_scalar(b1, b2, j);
        lemma_case_first_nonspace(b1, b2, j + 1, e);
    }
}

pub proof fn lemma_case_last_nonspace(b1: Seq<u8>, b2: Seq<u8>, s: int, j: int)
    requires
        same_up_to_ascii_case(b1, b2),
        valid_utf8(b1),
        0 <= s,
        j <= b1.len(),
    ensures
        last_nonspace(b1, s, j) == last_nonspace(b2, s, j),
    decreases j - s,
{
    if j > s {
        lemma_case_scalar(b1, b2, j - 1);
        lemma_case_last_nonspace(b1, b2, s, j - 1);
    }
}

} // verus!
