use vstd::prelude::*;
use vstd::utf8::*;

use crate::byteset::{is_ascii_digit_byte, is_ascii_upper_byte};
use crate::features::{count_in, is_ascii_alpha_byte};
use crate::scalars::{is_scalar_start, lemma_step_valid, scalar_width_at};
use crate::textops::{
    find_last_nonspace, find_nonspace, first_nonspace, is_boundary, last_nonspace,
    lemma_first_nonspace, lemma_last_nonspace, lemma_tail_valid,
};

verus! {

/// Offset where the trimmed text of `[s, e)` begins.
pub open spec fn trim_start_at(b: Seq<u8>, s: int, e: int) -> int {
    match first_nonspace(b, s, e) {
        Some(x) => x,
        None => e,
    }
}

/// Offset where the trimmed text of `[s, e)` ends.
pub open spec fn trim_end_at(b: Seq<u8>, s: int, e: int) -> int {
    match last_nonspace(b, s, e) {
        Some(x) => x + scalar_width_at(b, x),
        None => trim_start_at(b, s, e),
    }
}

/// Offset of the first `x` byte in `[j, e)`, or `e`.
pub open spec fn find_byte_in(b: Seq<u8>, j: int, e: int, x: u8) -> int
    decreases e - j,
{
    if j >= e {
        e
    } else if b[j] == x {
        j
    } else {
        find_byte_in(b, j + 1, e, x)
    }
}

/// Length of the run of ASCII digits starting at `j`, within `[j, e)`.
pub open spec fn digit_run(b: Seq<u8>, j: int, e: int) -> nat
    decreases e - j,
{
    if j < e && is_ascii_digit_byte(b[j]) {
        1 + digit_run(b, j + 1, e)
    } else {
        0
    }
}

/// Whether a `:` is among the first `k` scalars that start in `[j, e)`.
pub open spec fn colon_within(b: Seq<u8>, j: int, e: int, k: nat) -> bool
    decreases e - j,
{
    if k == 0 || j >= e {
        false
    } else if is_scalar_start(b, j) {
        if b[j] == 0x3A {
            true
        } else {
            colon_within(b, j + 1, e, (k - 1) as nat)
        }
    } else {
        colon_within(b, j + 1, e, k)
    }
}

/// The line `[s, e)` opens like a heading: `#`, or an upper-case letter with a
/// colon among its first 48 characters.
pub open spec fn heading_like(b: Seq<u8>, s: int, e: int) -> bool {
    let t = trim_start_at(b, s, e);
    (t < e && b[t] == 0x23) || (t < e && is_ascii_upper_byte(b[t]) && colon_within(b, t, e, 48))
}

/// The line `[s, e)` opens like a list item: a bullet, or digits then `.` or `)`.
pub open spec fn list_like(b: Seq<u8>, s: int, e: int) -> bool {
    let t = trim_start_at(b, s, e);
    let d = digit_run(b, t, e);
    ||| t < e && (b[t] == 0x2D || b[t] == 0x2A)
    ||| t + 2 < e && b[t] == 0xE2 && b[t + 1] == 0x80 && b[t + 2] == 0xA2
    ||| d > 0 && t + d < e && (b[t + d] == 0x2E || b[t + d] == 0x29)
}

/// The line `[s, e)` has a metadata colon: within 40 bytes of the trimmed
/// start, after at least one letter and no period.
pub open spec fn metadata_colon(b: Seq<u8>, s: int, e: int) -> bool {
    let t = trim_start_at(b, s, e);
    let colon = find_byte_in(b, t, e, 0x3A);
    &&& colon < e
    &&& colon - t <= 40
    &&& count_in(b, t, colon, |x: u8| is_ascii_alpha_byte(x)) > 0
    &&& count_in(b, t, colon, |x: u8| x == 0x2E) == 0
}

pub proof fn lemma_find_byte_in(b: Seq<u8>, j: int, e: int, x: u8)
    requires
        j <= e,
    ensures
        j <= find_byte_in(b, j, e, x) <= e,
    decreases e - j,
{
    if j < e && b[j] != x {
        lemma_find_byte_in(b, j + 1, e, x);
    }
}

/// The trimmed bounds of `[s, e)`.
pub fn trim_bounds(bytes: &[u8], s: usize, e: usize) -> (r: (usize, usize))
    requires
        valid_utf8(bytes@),
        s <= e <= bytes@.len(),
        is_boundary(bytes@, e as int),
    ensures
        r.0 == trim_start_at(bytes@, s as int, e as int),
        r.1 == trim_end_at(bytes@, s as int, e as int),
        s <= r.0 <= r.1 <= e,
{
    proof {
        lemma_first_nonspace(bytes@, s as int, e as int);
        lemma_last_nonspace(bytes@, s as int, e as int);
    }
    let ts = match find_nonspace(bytes, s, e) {
        Some(x) => x,
        None => e,
    };
    match find_last_nonspace(bytes, s, e) {
        Some(q) => {
            proof {
                lemma_tail_valid(bytes@, q as int);
                lemma_step_valid(bytes@, q as int);
                let w = scalar_width_at(bytes@, q as int);
                if e < q + w {
                    assert(is_continuation_byte(bytes@[e as int]));
                }
            }
            let (_c, w) = crate::scalars::decode_scalar_at(bytes, q);
            proof {
                lemma_first_nonspace_le(bytes@, s as int, e as int, q as int);
            }
            (ts, q + w)
        },
        None => {
            proof {
                lemma_last_nonspace_none(bytes@, s as int, e as int);
            }
            (ts, ts)
        },
    }
}

/// A non-whitespace scalar start at `q` makes `first_nonspace` find one at or before it.
pub proof fn lemma_first_nonspace_le(b: Seq<u8>, j: int, e: int, q: int)
    requires
        j <= q < e,
        is_scalar_start(b, q),
        !crate::textops::white_space(crate::scalars::scalar_at(b, q)),
    ensures
        first_nonspace(b, j, e) matches Some(x) && x <= q,
    decreases q - j,
{
    if j < q && !(is_scalar_start(b, j) && !crate::textops::white_space(crate::scalars::scalar_at(b, j))) {
        lemma_first_nonspace_le(b, j + 1, e, q);
    }
}

/// When no non-whitespace scalar starts in the range, `first_nonspace` finds none either.
pub proof fn lemma_last_nonspace_none(b: Seq<u8>, s: int, e: int)
    requires
        last_nonspace(b, s, e) is None,
    ensures
        first_nonspace(b, s, e) is None,
{
    assert forall|j: int| s <= j < e implies !(is_scalar_start(b, j) && !crate::textops::white_space(crate::scalars::scalar_at(b, j))) by {
        lemma_last_none_at(b, s, e, j);
    }
    lemma_first_none(b, s, e);
}

proof fn lemma_last_none_at(b: Seq<u8>, s: int, e: int, j: int)
    requires
        last_nonspace(b, s, e) is None,
        s <= j < e,
    ensures
        !(is_scalar_start(b, j) && !crate::textops::white_space(crate::scalars::scalar_at(b, j))),
    decreases e - j,
{
    if j < e - 1 {
        lemma_last_none_at(b, s, e - 1, j);
    }
}

proof fn lemma_first_none(b: Seq<u8>, j: int, e: int)
    requires
        forall|k: int| j <= k < e ==> !(is_scalar_start(b, k) && !crate::textops::white_space(#[trigger] crate::scalars::scalar_at(b, k))),
    ensures
        first_nonspace(b, j, e) is None,
    decreases e - j,
{
    if j < e {
        assert(!(is_scalar_start(b, j) && !crate::textops::white_space(crate::scalars::scalar_at(b, j))));
        lemma_first_none(b, j + 1, e);
    }
}

/// Offset of the first `x` byte in `[j, e)`, or `e`.
pub fn find_byte_between(bytes: &[u8], j: usize, e: usize, x: u8) -> (r: usize)
    requires
        j <= e <= bytes@.len(),
    ensures
        r == find_byte_in(bytes@, j as int, e as int, x),
        j <= r <= e,
{
    let mut k = j;
    while k < e && bytes[k] != x
        invariant
            j <= k <= e <= bytes@.len(),
            find_byte_in(bytes@, j as int, e as int, x) == find_byte_in(bytes@, k as int, e as int, x),
        decreases e - k,
    {
        k = k + 1;
    }
    k
}

fn digit_run_len(bytes: &[u8], j: usize, e: usize) -> (d: usize)
    requires
        j <= e <= bytes@.len(),
    ensures
        d == digit_run(bytes@, j as int, e as int),
        j + d <= e,
{
    let mut d: usize = 0;
    while j + d < e && bytes[j + d] >= 0x30 && bytes[j + d] <= 0x39
        invariant
            j + d <= e <= bytes@.len(),
            digit_run(bytes@, j as int, e as int) == d + digit_run(bytes@, j + d, e as int),
        decreases e - j - d,
    {
        d = d + 1;
    }
    d
}

fn has_colon_within(bytes: &[u8], j: usize, e: usize, k: usize) -> (r: bool)
    requires
        j <= e <= bytes@.len(),
    ensures
        r == colon_within(bytes@, j as int, e as int, k as nat),
{
    let mut i = j;
    let mut left = k;
    while left > 0 && i < e
        invariant
            j <= i <= e <= bytes@.len(),
            colon_within(bytes@, j as int, e as int, k as nat) == colon_within(
                bytes@,
                i as int,
                e as int,
                left as nat,
            ),
        decreases e - i,
    {
        if bytes[i] < 0x80 || bytes[i] >= 0xC0 {
            if bytes[i] == 0x3A {
                return true;
            }
            left = left - 1;
        }
        i = i + 1;
    }
    false
}

/// Whether the line `[s, e)` opens like a heading.
pub fn starts_heading_like(bytes: &[u8], s: usize, e: usize) -> (r: bool)
    requires
        valid_utf8(bytes@),
        s <= e <= bytes@.len(),
        is_boundary(bytes@, e as int),
    ensures
        r == heading_like(bytes@, s as int, e as int),
{
    let (t, _) = trim_bounds(bytes, s, e);
    (t < e && bytes[t] == 0x23) || (t < e && bytes[t] >= 0x41 && bytes[t] <= 0x5A
        && has_colon_within(bytes, t, e, 48))
}

/// Whether the line `[s, e)` opens like a list item.
pub fn starts_list_like(bytes: &[u8], s: usize, e: usize) -> (r: bool)
    requires
        valid_utf8(bytes@),
        s <= e <= bytes@.len(),
        is_boundary(bytes@, e as int),
    ensures
        r == list_like(bytes@, s as int, e as int),
{
    let (t, _) = trim_bounds(bytes, s, e);
    if t < e && (bytes[t] == 0x2D || bytes[t] == 0x2A) {
        return true;
    }
    if e - t > 2 && bytes[t] == 0xE2 && bytes[t + 1] == 0x80 && bytes[t + 2] == 0xA2 {
        return true;
    }
    let d = digit_run_len(bytes, t, e);
    d > 0 && t + d < e && (bytes[t + d] == 0x2E || bytes[t + d] == 0x29)
}

/// Whether the line `[s, e)` has a metadata colon.
pub fn has_metadata_colon(bytes: &[u8], s: usize, e: usize) -> (r: bool)
    requires
        valid_utf8(bytes@),
        s <= e <= bytes@.len(),
        is_boundary(bytes@, e as int),
    ensures
        r == metadata_colon(bytes@, s as int, e as int),
{
    let (t, _) = trim_bounds(bytes, s, e);
    let colon = find_byte_between(bytes, t, e, 0x3A);
    if colon >= e || colon - t > 40 {
        return false;
    }
    let ghost pa = |x: u8| is_ascii_alpha_byte(x);
    let ghost pd = |x: u8| x == 0x2E;
    let mut alpha: usize = 0;
    let mut dots: usize = 0;
    let mut k = t;
    while k < colon
        invariant
            t <= k <= colon < e <= bytes@.len(),
            pa == (|x: u8| is_ascii_alpha_byte(x)),
            pd == (|x: u8| x == 0x2E),
            alpha == count_in(bytes@, t as int, k as int, pa),
            dots == count_in(bytes@, t as int, k as int, pd),
            alpha <= k - t,
            dots <= k - t,
        decreases colon - k,
    {
        let c = bytes[k];
        assert(pa(c) == is_ascii_alpha_byte(c));
        assert(pd(c) == (c == 0x2E));
        if (c >= 0x41 && c <= 0x5A) || (c >= 0x61 && c <= 0x7A) {
            alpha = alpha + 1;
        }
        if c == 0x2E {
            dots = dots + 1;
        }
        k = k + 1;
    }
    alpha > 0 && dots == 0
}

} // verus!
