use vstd::prelude::*;
use vstd::string::StringSliceAdditionalSpecFns;
use vstd::utf8::*;

use crate::data::FeatureBlock;
use crate::features::count_in;
use crate::lines::{has_metadata_colon, heading_like, list_like, metadata_colon, starts_heading_like, starts_list_like};
use crate::scalars::{decode_scalar_at, is_scalar_start, lemma_step_valid, scalar_at, scalar_width_at};
use crate::textops::{
    ceil_boundary, ceil_char_boundary, clamp_len, find_last_nonspace, find_nonspace,
    first_nonspace, floor_boundary, floor_char_boundary, is_boundary, is_line_break,
    last_nonspace, lemma_ceil_boundary, lemma_first_nonspace, lemma_floor_boundary,
    lemma_last_nonspace, lemma_line_end, lemma_line_start, lemma_tail_valid, line_end_after,
    line_end_at, line_start_at, line_start_before, lowercase, scalar_is_lowercase,
    scalar_is_uppercase, uppercase,
};

verus! {

broadcast use vstd::utf8::encode_utf8_valid_utf8;

/// `.`, `!`, `?` or `…`.
pub open spec fn is_sentence_terminal(c: u32) -> bool {
    c == 0x2E || c == 0x21 || c == 0x3F || c == 0x2026
}

/// A closing quote or bracket: `"` `'` `)` `]` `}` `>` `”` `’` `»`.
pub open spec fn is_closer(c: u32) -> bool {
    c == 0x22 || c == 0x27 || c == 0x29 || c == 0x5D || c == 0x7D || c == 0x3E || c == 0x201D
        || c == 0x2019 || c == 0xBB
}

pub fn sentence_terminal(c: u32) -> (r: bool)
    ensures
        r == is_sentence_terminal(c),
{
    c == 0x2E || c == 0x21 || c == 0x3F || c == 0x2026
}

pub fn closer(c: u32) -> (r: bool)
    ensures
        r == is_closer(c),
{
    c == 0x22 || c == 0x27 || c == 0x29 || c == 0x5D || c == 0x7D || c == 0x3E || c == 0x201D
        || c == 0x2019 || c == 0xBB
}

/// The scalar at the first boundary at or after `offset`, with its start.
pub open spec fn char_at_or_after_spec(b: Seq<u8>, offset: int) -> Option<(int, u32)> {
    let o = ceil_boundary(b, clamp_len(b, offset));
    if o < b.len() {
        Some((o, scalar_at(b, o)))
    } else {
        None
    }
}

/// The first non-whitespace scalar at or after the boundary at or after `offset`.
pub open spec fn next_nonspace_spec(b: Seq<u8>, offset: int) -> Option<(int, u32)> {
    let o = ceil_boundary(b, clamp_len(b, offset));
    match first_nonspace(b, o, b.len() as int) {
        Some(x) => Some((x, scalar_at(b, x))),
        None => None,
    }
}

/// The last non-whitespace scalar before the boundary at or before `offset`.
pub open spec fn prev_nonspace_spec(b: Seq<u8>, offset: int) -> Option<(int, u32)> {
    let o = floor_boundary(b, clamp_len(b, offset));
    match last_nonspace(b, 0, o) {
        Some(x) => Some((x, scalar_at(b, x))),
        None => None,
    }
}

/// Moves `cursor` past closing quotes and brackets, one scalar at a time.
pub open spec fn absorb_from(b: Seq<u8>, cursor: int) -> int
    decreases b.len() - cursor,
{
    let c = ceil_boundary(b, clamp_len(b, cursor));
    if 0 <= cursor && c < b.len() && is_closer(scalar_at(b, c)) && cursor + scalar_width_at(b, c)
        <= b.len() {
        absorb_from(b, cursor + scalar_width_at(b, c))
    } else {
        cursor
    }
}

/// The offset just after the candidate token and its trailing closers.
pub open spec fn after_token_spec(b: Seq<u8>, offset: int) -> int {
    match char_at_or_after_spec(b, offset) {
        None => clamp_len(b, offset),
        Some((o, _)) => absorb_from(b, offset + scalar_width_at(b, o)),
    }
}

/// The line holding `offset`: `[start, end)` around the boundary at or before it.
pub open spec fn current_line_spec(b: Seq<u8>, offset: int) -> (int, int) {
    let o = floor_boundary(b, clamp_len(b, offset));
    (line_start_at(b, o), line_end_at(b, o))
}

/// The line after the first line break at or after `offset`, if there is one.
pub open spec fn next_line_spec(b: Seq<u8>, offset: int) -> Option<(int, int)> {
    let o = floor_boundary(b, clamp_len(b, offset));
    let nl = line_end_at(b, o);
    if nl < b.len() {
        Some(current_line_spec(b, nl + 1))
    } else {
        None
    }
}

/// Line breaks in the whitespace run that starts at the boundary at or after `offset`.
pub open spec fn newlines_after_spec(b: Seq<u8>, offset: int) -> nat {
    let o = ceil_boundary(b, clamp_len(b, offset));
    let end = match first_nonspace(b, o, b.len() as int) {
        Some(x) => x,
        None => b.len() as int,
    };
    count_in(b, o, end, |x: u8| is_line_break(x))
}

/// Line breaks in the whitespace run that ends at the boundary at or before `offset`.
pub open spec fn newlines_before_spec(b: Seq<u8>, offset: int) -> nat {
    let o = floor_boundary(b, clamp_len(b, offset));
    let start = match last_nonspace(b, 0, o) {
        Some(x) => x + scalar_width_at(b, x),
        None => 0,
    };
    count_in(b, start, o, |x: u8| is_line_break(x))
}

/// The scalar at the first boundary at or after `offset`.
pub fn char_at_or_after(bytes: &[u8], offset: usize) -> (r: Option<(usize, u32, usize)>)
    requires
        valid_utf8(bytes@),
    ensures
        r matches Some((o, c, w)) ==> char_at_or_after_spec(bytes@, offset as int) == Some((o as int, c))
            && w == scalar_width_at(bytes@, o as int) && o + w <= bytes@.len(),
        r is None ==> char_at_or_after_spec(bytes@, offset as int) is None,
{
    let o = ceil_char_boundary(bytes, offset);
    if o < bytes.len() {
        proof {
            lemma_tail_valid(bytes@, o as int);
        }
        let (c, w) = decode_scalar_at(bytes, o);
        Some((o, c, w))
    } else {
        None
    }
}

/// The first non-whitespace scalar at or after `offset`.
pub fn next_nonspace_char(bytes: &[u8], offset: usize) -> (r: Option<(usize, u32)>)
    requires
        valid_utf8(bytes@),
    ensures
        r matches Some((x, c)) ==> next_nonspace_spec(bytes@, offset as int) == Some((x as int, c)),
        r is None ==> next_nonspace_spec(bytes@, offset as int) is None,
{
    let o = ceil_char_boundary(bytes, offset);
    proof {
        lemma_first_nonspace(bytes@, o as int, bytes@.len() as int);
    }
    match find_nonspace(bytes, o, bytes.len()) {
        Some(x) => {
            proof {
                lemma_tail_valid(bytes@, x as int);
            }
            let (c, _w) = decode_scalar_at(bytes, x);
            Some((x, c))
        },
        None => None,
    }
}

/// The last non-whitespace scalar before `offset`.
pub fn previous_nonspace_char(bytes: &[u8], offset: usize) -> (r: Option<(usize, u32)>)
    requires
        valid_utf8(bytes@),
    ensures
        r matches Some((x, c)) ==> prev_nonspace_spec(bytes@, offset as int) == Some((x as int, c)),
        r is None ==> prev_nonspace_spec(bytes@, offset as int) is None,
{
    let o = floor_char_boundary(bytes, offset);
    proof {
        lemma_last_nonspace(bytes@, 0, o as int);
    }
    match find_last_nonspace(bytes, 0, o) {
        Some(x) => {
            proof {
                lemma_tail_valid(bytes@, x as int);
            }
            let (c, _w) = decode_scalar_at(bytes, x);
            Some((x, c))
        },
        None => None,
    }
}

/// The offset just after the candidate token at `offset` and its trailing closers.
pub fn after_candidate_token(bytes: &[u8], offset: usize) -> (r: usize)
    requires
        valid_utf8(bytes@),
        offset <= bytes@.len(),
    ensures
        r == after_token_spec(bytes@, offset as int),
        r <= bytes@.len(),
{
    let n = bytes.len();
    match char_at_or_after(bytes, offset) {
        None => offset,
        Some((o, _c, w)) => {
            proof {
                lemma_ceil_boundary(bytes@, offset as int);
                assert(o >= offset);
                assert(o + w <= bytes@.len());
            }
            let mut cursor = offset + w;
            loop
                invariant
                    valid_utf8(bytes@),
                    n == bytes@.len(),
                    cursor <= bytes@.len(),
                    absorb_from(bytes@, cursor as int) == after_token_spec(bytes@, offset as int),
                decreases bytes@.len() - cursor,
            {
                match char_at_or_after(bytes, cursor) {
                    None => {
                        return cursor;
                    },
                    Some((c_at, c, cw)) => {
                        proof {
                            lemma_ceil_boundary(bytes@, cursor as int);
                            assert(c_at >= cursor);
                        }
                        if !closer(c) {
                            return cursor;
                        }
                        cursor = cursor + cw;
                    },
                }
            }
        },
    }
}

/// `[start, end)` of the line holding `offset`.
pub fn current_line(bytes: &[u8], offset: usize) -> (r: (usize, usize))
    requires
        valid_utf8(bytes@),
    ensures
        r.0 == current_line_spec(bytes@, offset as int).0,
        r.1 == current_line_spec(bytes@, offset as int).1,
        r.0 <= r.1 <= bytes@.len(),
        is_boundary(bytes@, r.0 as int),
        is_boundary(bytes@, r.1 as int),
{
    let o = floor_char_boundary(bytes, offset);
    let s = line_start_before(bytes, o);
    let e = line_end_after(bytes, o);
    proof {
        lemma_line_start(bytes@, o as int);
        lemma_line_end(bytes@, o as int);
        lemma_break_boundaries(bytes@, s as int);
        lemma_break_boundaries(bytes@, e as int);
    }
    (s, e)
}

/// Offsets next to a line break are boundaries of valid UTF-8.
pub proof fn lemma_break_boundaries(b: Seq<u8>, i: int)
    requires
        valid_utf8(b),
        0 <= i <= b.len(),
        i == 0 || i == b.len() || is_line_break(b[i]) || is_line_break(b[i - 1]),
    ensures
        is_boundary(b, i),
{
    if 0 < i < b.len() && !is_line_break(b[i]) {
        // the byte before is a complete one-byte scalar, so a new scalar begins here
        is_char_boundary_iff_not_is_continuation_byte(b, i - 1);
        lemma_boundary_after_ascii(b, i - 1);
    }
}

/// After an ASCII byte that begins a scalar, the next offset is a boundary.
pub proof fn lemma_boundary_after_ascii(b: Seq<u8>, j: int)
    requires
        valid_utf8(b),
        0 <= j < b.len(),
        b[j] < 0x80,
    ensures
        is_boundary(b, j + 1),
{
    lemma_tail_valid(b, j);
    lemma_step_valid(b, j);
    if j + 1 < b.len() {
        lemma_step_valid(b, j + 1);
    }
}

/// The line after the first line break at or after `offset`.
pub fn next_line_after(bytes: &[u8], offset: usize) -> (r: Option<(usize, usize)>)
    requires
        valid_utf8(bytes@),
    ensures
        r matches Some((s, e)) ==> next_line_spec(bytes@, offset as int) == Some((s as int, e as int))
            && s <= e <= bytes@.len() && is_boundary(bytes@, e as int),
        r is None ==> next_line_spec(bytes@, offset as int) is None,
{
    let o = floor_char_boundary(bytes, offset);
    let nl = line_end_after(bytes, o);
    proof {
        lemma_line_end(bytes@, o as int);
    }
    if nl < bytes.len() {
        Some(current_line(bytes, nl + 1))
    } else {
        None
    }
}

/// Line breaks in the whitespace run that starts at `offset`.
pub fn whitespace_run_newline_count(bytes: &[u8], offset: usize) -> (n: usize)
    requires
        valid_utf8(bytes@),
    ensures
        n == newlines_after_spec(bytes@, offset as int),
{
    let o = ceil_char_boundary(bytes, offset);
    proof {
        lemma_first_nonspace(bytes@, o as int, bytes@.len() as int);
    }
    let end = match find_nonspace(bytes, o, bytes.len()) {
        Some(x) => x,
        None => bytes.len(),
    };
    count_breaks(bytes, o, end)
}

/// Line breaks in the whitespace run that ends at `offset`.
pub fn preceding_whitespace_run_newline_count(bytes: &[u8], offset: usize) -> (n: usize)
    requires
        valid_utf8(bytes@),
    ensures
        n == newlines_before_spec(bytes@, offset as int),
{
    let o = floor_char_boundary(bytes, offset);
    proof {
        lemma_last_nonspace(bytes@, 0, o as int);
    }
    let start = match find_last_nonspace(bytes, 0, o) {
        Some(x) => {
            proof {
                lemma_tail_valid(bytes@, x as int);
                lemma_step_valid(bytes@, x as int);
                let w = scalar_width_at(bytes@, x as int);
                if o < x + w {
                    assert(is_continuation_byte(bytes@[o as int]));
                }
            }
            let (_c, w) = decode_scalar_at(bytes, x);
            x + w
        },
        None => 0,
    };
    count_breaks(bytes, start, o)
}

fn count_breaks(bytes: &[u8], lo: usize, hi: usize) -> (n: usize)
    requires
        lo <= hi <= bytes@.len(),
    ensures
        n == count_in(bytes@, lo as int, hi as int, |x: u8| is_line_break(x)),
{
    let ghost p = |x: u8| is_line_break(x);
    let mut i = lo;
    let mut n: usize = 0;
    while i < hi
        invariant
            lo <= i <= hi <= bytes@.len(),
            p == (|x: u8| is_line_break(x)),
            n == count_in(bytes@, lo as int, i as int, p),
            n <= i - lo,
        decreases hi - i,
    {
        assert(p(bytes@[i as int]) == is_line_break(bytes@[i as int]));
        if bytes[i] == 0x0A || bytes[i] == 0x0D {
            n = n + 1;
        }
        i = i + 1;
    }
    n
}

} // verus!

verus! {

/// The 22 structural signals around one candidate boundary.
#[derive(Clone, Copy, Debug, PartialEq, Eq, Structural)]
pub struct BoundaryShape {
    pub center_terminal: bool,
    pub center_period: bool,
    pub center_exclamation: bool,
    pub center_question: bool,
    pub center_colon_or_semicolon: bool,
    pub center_closer: bool,
    pub previous_terminal: bool,
    pub next_upper: bool,
    pub next_lower: bool,
    pub next_digit: bool,
    pub next_quote: bool,
    pub next_hash: bool,
    pub next_bullet: bool,
    pub no_next: bool,
    pub immediate_closer: bool,
    pub blank_line_after: bool,
    pub blank_line_before: bool,
    pub line_heading: bool,
    pub line_list: bool,
    pub line_metadata: bool,
    pub next_line_heading: bool,
    pub next_line_list: bool,
}

pub open spec fn opt_char(o: Option<(int, u32)>) -> Option<u32> {
    match o {
        Some((_, c)) => Some(c),
        None => None,
    }
}

pub open spec fn opt_is(o: Option<u32>, p: spec_fn(u32) -> bool) -> bool {
    match o {
        Some(c) => p(c),
        None => false,
    }
}

/// Opening quotes: `"` `'` `“` `‘`.
pub open spec fn is_opening_quote(c: u32) -> bool {
    c == 0x22 || c == 0x27 || c == 0x201C || c == 0x2018
}

/// Bullets: `-` `*` `•`.
pub open spec fn is_bullet(c: u32) -> bool {
    c == 0x2D || c == 0x2A || c == 0x2022
}

/// The boundary shape of `b` at `position`.
pub open spec fn boundary_shape_spec(b: Seq<u8>, position: int) -> BoundaryShape {
    let offset = clamp_len(b, position);
    let center_at = char_at_or_after_spec(b, offset);
    let center = opt_char(center_at);
    let after = after_token_spec(b, offset);
    let next = opt_char(next_nonspace_spec(b, after));
    let previous = opt_char(prev_nonspace_spec(b, offset));
    let line = current_line_spec(b, offset);
    let next_line = next_line_spec(b, after);
    let immediate = opt_char(
        char_at_or_after_spec(
            b,
            match center_at {
                Some((o, _)) => offset + scalar_width_at(b, o),
                None => offset,
            },
        ),
    );
    let line_start = line_start_at(b, floor_boundary(b, offset));
    BoundaryShape {
        center_terminal: opt_is(center, |c: u32| is_sentence_terminal(c)),
        center_period: center == Some(0x2Eu32),
        center_exclamation: center == Some(0x21u32),
        center_question: center == Some(0x3Fu32),
        center_colon_or_semicolon: center == Some(0x3Au32) || center == Some(0x3Bu32),
        center_closer: opt_is(center, |c: u32| is_closer(c)),
        previous_terminal: opt_is(previous, |c: u32| is_sentence_terminal(c)),
        next_upper: opt_is(next, |c: u32| uppercase(c)),
        next_lower: opt_is(next, |c: u32| lowercase(c)),
        next_digit: opt_is(next, |c: u32| 0x30 <= c <= 0x39),
        next_quote: opt_is(next, |c: u32| is_opening_quote(c)),
        next_hash: next == Some(0x23u32),
        next_bullet: opt_is(next, |c: u32| is_bullet(c)),
        no_next: next is None,
        immediate_closer: opt_is(immediate, |c: u32| is_closer(c)),
        blank_line_after: newlines_after_spec(b, after) >= 2,
        blank_line_before: newlines_before_spec(b, line_start) >= 2,
        line_heading: heading_like(b, line.0, line.1),
        line_list: list_like(b, line.0, line.1),
        line_metadata: metadata_colon(b, line.0, line.1),
        next_line_heading: match next_line {
            Some((s, e)) => heading_like(b, s, e),
            None => false,
        },
        next_line_list: match next_line {
            Some((s, e)) => list_like(b, s, e),
            None => false,
        },
    }
}

/// UTF-8 structural features for candidate boundary positions.
#[derive(Clone, Copy, Debug, Default)]
pub struct BoundaryShapeAppender;

impl BoundaryShapeAppender {
    pub fn new() -> (appender: Self) {
        BoundaryShapeAppender
    }

    pub fn block(&self) -> (block: FeatureBlock)
        ensures
            block.name@ == "boundary_shape"@,
            block.width == 22,
            block.offset == 0,
    {
        FeatureBlock::new("boundary_shape", 22)
    }

    /// The boundary shape of `text` at `position`.
    pub fn shape_at(&self, text: &str, position: usize) -> (shape: BoundaryShape)
        ensures
            shape == boundary_shape_spec(text.spec_bytes(), position as int),
    {
        let bytes = text.as_bytes();
        let n = bytes.len();
        let offset = if position < n {
            position
        } else {
            n
        };
        let center_at = char_at_or_after(bytes, offset);
        let center: Option<u32> = match center_at {
            Some((_, c, _)) => Some(c),
            None => None,
        };
        let after = after_candidate_token(bytes, offset);
        let next: Option<u32> = match next_nonspace_char(bytes, after) {
            Some((_, c)) => Some(c),
            None => None,
        };
        let previous: Option<u32> = match previous_nonspace_char(bytes, offset) {
            Some((_, c)) => Some(c),
            None => None,
        };
        let (ls, le) = current_line(bytes, offset);
        let immediate_offset = match center_at {
            Some((_, _, w)) => {
                proof {
                    lemma_ceil_boundary(bytes@, offset as int);
                }
                offset + w
            },
            None => offset,
        };
        let immediate: Option<u32> = match char_at_or_after(bytes, immediate_offset) {
            Some((_, c, _)) => Some(c),
            None => None,
        };
        let line_start = line_start_before(bytes, floor_char_boundary(bytes, offset));
        let (next_heading, next_list) = match next_line_after(bytes, after) {
            Some((s, e)) => (starts_heading_like(bytes, s, e), starts_list_like(bytes, s, e)),
            None => (false, false),
        };
        let center_terminal = match center {
            Some(c) => sentence_terminal(c),
            None => false,
        };
        let center_closer = match center {
            Some(c) => closer(c),
            None => false,
        };
        let previous_terminal = match previous {
            Some(c) => sentence_terminal(c),
            None => false,
        };
        let (next_upper, next_lower, next_digit, next_quote, next_bullet) = match next {
            Some(c) => (
                scalar_is_uppercase(c),
                scalar_is_lowercase(c),
                c >= 0x30 && c <= 0x39,
                c == 0x22 || c == 0x27 || c == 0x201C || c == 0x2018,
                c == 0x2D || c == 0x2A || c == 0x2022,
            ),
            None => (false, false, false, false, false),
        };
        let immediate_closer = match immediate {
            Some(c) => closer(c),
            None => false,
        };
        BoundaryShape {
            center_terminal,
            center_period: center == Some(0x2Eu32),
            center_exclamation: center == Some(0x21u32),
            center_question: center == Some(0x3Fu32),
            center_colon_or_semicolon: center == Some(0x3Au32) || center == Some(0x3Bu32),
            center_closer,
            previous_terminal,
            next_upper,
            next_lower,
            next_digit,
            next_quote,
            next_hash: next == Some(0x23u32),
            next_bullet,
            no_next: next.is_none(),
            immediate_closer,
            blank_line_after: whitespace_run_newline_count(bytes, after) >= 2,
            blank_line_before: preceding_whitespace_run_newline_count(bytes, line_start) >= 2,
            line_heading: starts_heading_like(bytes, ls, le),
            line_list: starts_list_like(bytes, ls, le),
            line_metadata: has_metadata_colon(bytes, ls, le),
            next_line_heading: next_heading,
            next_line_list: next_list,
        }
    }
}

} // verus!
