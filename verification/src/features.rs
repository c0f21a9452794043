use vstd::prelude::*;

use crate::byteset::{
    is_ascii_digit_byte, is_ascii_lower_byte, is_ascii_punct_byte, is_ascii_upper_byte,
    is_ascii_whitespace_byte, class_flags, AsciiClassTable,
};
use crate::data::{ByteWindowSpec, FeatureBlock};
use crate::text::{padded_byte_spec, TextBytes};

verus! {

/// ASCII letter test on bytes.
pub open spec fn is_ascii_alpha_byte(b: u8) -> bool {
    is_ascii_upper_byte(b) || is_ascii_lower_byte(b)
}

/// ASCII letter-or-digit test on bytes.
pub open spec fn is_ascii_alnum_byte(b: u8) -> bool {
    is_ascii_alpha_byte(b) || is_ascii_digit_byte(b)
}

/// Number of bytes of `b` in `[lo, hi)` that satisfy `p`.
pub open spec fn count_in(b: Seq<u8>, lo: int, hi: int, p: spec_fn(u8) -> bool) -> nat
    decreases hi - lo,
{
    if hi <= lo {
        0
    } else {
        count_in(b, lo, hi - 1, p) + if p(b[hi - 1]) {
            1nat
        } else {
            0nat
        }
    }
}

/// `count_in` is bounded by the length of the range.
pub proof fn lemma_count_in_bound(b: Seq<u8>, lo: int, hi: int, p: spec_fn(u8) -> bool)
    ensures
        count_in(b, lo, hi, p) <= if hi > lo {
            hi - lo
        } else {
            0
        },
    decreases hi - lo,
{
    if hi > lo {
        lemma_count_in_bound(b, lo, hi - 1, p);
    }
}

/// Counts the bytes of `bytes[lo..hi]` that equal `needle`.
pub fn count_byte(bytes: &[u8], lo: usize, hi: usize, needle: u8) -> (n: usize)
    requires
        lo <= hi <= bytes@.len(),
    ensures
        n == count_in(bytes@, lo as int, hi as int, |x: u8| x == needle),
{
    let ghost p = |x: u8| x == needle;
    let mut i = lo;
    let mut n: usize = 0;
    while i < hi
        invariant
            lo <= i <= hi <= bytes@.len(),
            p == (|x: u8| x == needle),
            n == count_in(bytes@, lo as int, i as int, p),
            n <= i - lo,
        decreases hi - i,
    {
        assert(p(bytes@[i as int]) == (bytes@[i as int] == needle));
        assert(count_in(bytes@, lo as int, i + 1, p) == count_in(bytes@, lo as int, i as int, p)
            + if p(bytes@[i as int]) {
            1nat
        } else {
            0nat
        });
        if bytes[i] == needle {
            n = n + 1;
        }
        i = i + 1;
    }
    n
}

/// The integer code of one byte in the encoded boundary window: letters map to
/// their alphabet position, digits to zero, and the other classes to negative codes.
pub open spec fn encoded_byte_spec(b: u8) -> i8 {
    if b == 0 {
        -3i8
    } else if is_ascii_upper_byte(b) {
        (b - 0x41 + 1) as i8
    } else if is_ascii_lower_byte(b) {
        (b - 0x61 + 1) as i8
    } else if is_ascii_digit_byte(b) {
        0i8
    } else if b == 0x2E || b == 0x21 || b == 0x3F || b == 0x3B || b == 0x3A || b == 0x22 || b
        == 0x27 {
        -1i8
    } else if b == 0x0A || b == 0x0D {
        -2i8
    } else if is_ascii_whitespace_byte(b) {
        -3i8
    } else if is_ascii_punct_byte(b) {
        -4i8
    } else {
        -5i8
    }
}

/// Encodes one byte for the encoded boundary window.
pub fn encoded_boundary_byte(byte: u8) -> (code: i8)
    ensures
        code == encoded_byte_spec(byte),
{
    if byte == 0 {
        -3
    } else if byte >= 0x41 && byte <= 0x5A {
        (byte - 0x41 + 1) as i8
    } else if byte >= 0x61 && byte <= 0x7A {
        (byte - 0x61 + 1) as i8
    } else if byte >= 0x30 && byte <= 0x39 {
        0
    } else if byte == 0x2E || byte == 0x21 || byte == 0x3F || byte == 0x3B || byte == 0x3A || byte
        == 0x22 || byte == 0x27 {
        -1
    } else if byte == 0x0A || byte == 0x0D {
        -2
    } else if byte == 0x20 || byte == 0x09 || byte == 0x0C {
        -3
    } else if (byte >= 0x21 && byte <= 0x2F) || (byte >= 0x3A && byte <= 0x40) || (byte >= 0x5B
        && byte <= 0x60) || (byte >= 0x7B && byte <= 0x7E) {
        -4
    } else {
        -5
    }
}

/// Reusable byte classes for configuration-driven count features.
#[derive(Clone, Copy, Debug, Eq, PartialEq, Structural)]
pub enum ByteClass {
    AsciiUpper,
    AsciiLower,
    AsciiAlpha,
    AsciiDigit,
    AsciiAlnum,
    AsciiWhitespace,
    AsciiPunctuation,
    LineBreak,
    OpenBracket,
    CloseBracket,
}

/// Whether `byte` belongs to `class`.
pub open spec fn byte_class_matches(class: ByteClass, byte: u8) -> bool {
    match class {
        ByteClass::AsciiUpper => is_ascii_upper_byte(byte),
        ByteClass::AsciiLower => is_ascii_lower_byte(byte),
        ByteClass::AsciiAlpha => is_ascii_alpha_byte(byte),
        ByteClass::AsciiDigit => is_ascii_digit_byte(byte),
        ByteClass::AsciiAlnum => is_ascii_alnum_byte(byte),
        ByteClass::AsciiWhitespace => is_ascii_whitespace_byte(byte),
        ByteClass::AsciiPunctuation => is_ascii_punct_byte(byte),
        ByteClass::LineBreak => byte == 0x0A || byte == 0x0D,
        ByteClass::OpenBracket => byte == 0x28 || byte == 0x5B || byte == 0x7B,
        ByteClass::CloseBracket => byte == 0x29 || byte == 0x5D || byte == 0x7D,
    }
}

impl ByteClass {
    pub fn matches(self, byte: u8, classes: &AsciiClassTable) -> (m: bool)
        ensures
            m == byte_class_matches(self, byte),
    {
        match self {
            ByteClass::AsciiUpper => classes.is_upper(byte),
            ByteClass::AsciiLower => classes.is_lower(byte),
            ByteClass::AsciiAlpha => classes.is_alpha(byte),
            ByteClass::AsciiDigit => classes.is_digit(byte),
            ByteClass::AsciiAlnum => classes.is_alnum(byte),
            ByteClass::AsciiWhitespace => classes.is_space(byte),
            ByteClass::AsciiPunctuation => classes.is_punct(byte),
            ByteClass::LineBreak => byte == 0x0A || byte == 0x0D,
            ByteClass::OpenBracket => byte == 0x28 || byte == 0x5B || byte == 0x7B,
            ByteClass::CloseBracket => byte == 0x29 || byte == 0x5D || byte == 0x7D,
        }
    }
}

/// Full Unicode General Category values.
#[derive(Clone, Copy, Debug, Eq, PartialEq, Structural)]
pub enum UnicodeCategory {
    Ll,
    Lu,
    Lt,
    Lm,
    Lo,
    Mn,
    Mc,
    Me,
    Nd,
    Nl,
    No,
    Pc,
    Pd,
    Ps,
    Pe,
    Pi,
    Pf,
    Po,
    Sm,
    Sc,
    Sk,
    So,
    Zs,
    Zl,
    Zp,
    Cc,
    Cf,
    Cs,
    Co,
    Cn,
}

/// Coarse Unicode category groups.
#[derive(Clone, Copy, Debug, Eq, PartialEq, Structural)]
pub enum UnicodeCategoryGroup {
    L,
    M,
    N,
    P,
    S,
    Z,
    C,
}

/// The General Category code that the Unicode property tables give code point `c`.
pub uninterp spec fn general_category_code(c: u32) -> u8;

/// Looks code point `c` up in icu's compiled General Category map
/// (`icu::properties::maps::general_category().get32`, which `get` forwards to)
/// and returns the numeric value of the `GeneralCategory` variant; icu's enum
/// fixes those values in `0..=29`. Which category a code point has is left to
/// the name `general_category_code`.
#[verifier::external_body]
fn general_category_of(c: u32) -> (code: u8)
    ensures
        code == general_category_code(c),
        code <= 29,
{
    icu::properties::maps::general_category().get32(c) as u8
}

/// The category that a General Category code denotes.
pub open spec fn category_from_code(code: u8) -> UnicodeCategory {
    if code == 1 {
        UnicodeCategory::Lu
    } else if code == 2 {
        UnicodeCategory::Ll
    } else if code == 3 {
        UnicodeCategory::Lt
    } else if code == 4 {
        UnicodeCategory::Lm
    } else if code == 5 {
        UnicodeCategory::Lo
    } else if code == 6 {
        UnicodeCategory::Mn
    } else if code == 7 {
        UnicodeCategory::Me
    } else if code == 8 {
        UnicodeCategory::Mc
    } else if code == 9 {
        UnicodeCategory::Nd
    } else if code == 10 {
        UnicodeCategory::Nl
    } else if code == 11 {
        UnicodeCategory::No
    } else if code == 12 {
        UnicodeCategory::Zs
    } else if code == 13 {
        UnicodeCategory::Zl
    } else if code == 14 {
        UnicodeCategory::Zp
    } else if code == 15 {
        UnicodeCategory::Cc
    } else if code == 16 {
        UnicodeCategory::Cf
    } else if code == 17 {
        UnicodeCategory::Co
    } else if code == 18 {
        UnicodeCategory::Cs
    } else if code == 19 {
        UnicodeCategory::Pd
    } else if code == 20 {
        UnicodeCategory::Ps
    } else if code == 21 {
        UnicodeCategory::Pe
    } else if code == 22 {
        UnicodeCategory::Pc
    } else if code == 23 {
        UnicodeCategory::Po
    } else if code == 24 {
        UnicodeCategory::Sm
    } else if code == 25 {
        UnicodeCategory::Sc
    } else if code == 26 {
        UnicodeCategory::Sk
    } else if code == 27 {
        UnicodeCategory::So
    } else if code == 28 {
        UnicodeCategory::Pi
    } else if code == 29 {
        UnicodeCategory::Pf
    } else {
        UnicodeCategory::Cn
    }
}

/// The category of code point `c`.
pub open spec fn category_of(c: u32) -> UnicodeCategory {
    category_from_code(general_category_code(c))
}

/// The coarse group of a category: its first letter.
pub open spec fn group_of(category: UnicodeCategory) -> UnicodeCategoryGroup {
    match category {
        UnicodeCategory::Ll | UnicodeCategory::Lu | UnicodeCategory::Lt | UnicodeCategory::Lm
        | UnicodeCategory::Lo => UnicodeCategoryGroup::L,
        UnicodeCategory::Mn | UnicodeCategory::Mc | UnicodeCategory::Me => UnicodeCategoryGroup::M,
        UnicodeCategory::Nd | UnicodeCategory::Nl | UnicodeCategory::No => UnicodeCategoryGroup::N,
        UnicodeCategory::Pc | UnicodeCategory::Pd | UnicodeCategory::Ps | UnicodeCategory::Pe
        | UnicodeCategory::Pi | UnicodeCategory::Pf | UnicodeCategory::Po => UnicodeCategoryGroup::P,
        UnicodeCategory::Sm | UnicodeCategory::Sc | UnicodeCategory::Sk | UnicodeCategory::So => {
            UnicodeCategoryGroup::S
        },
        UnicodeCategory::Zs | UnicodeCategory::Zl | UnicodeCategory::Zp => UnicodeCategoryGroup::Z,
        UnicodeCategory::Cc | UnicodeCategory::Cf | UnicodeCategory::Cs | UnicodeCategory::Co
        | UnicodeCategory::Cn => UnicodeCategoryGroup::C,
    }
}

impl UnicodeCategory {
    /// Maps a General Category code to its category.
    pub fn from_code(code: u8) -> (category: Self)
        ensures
            category == category_from_code(code),
    {
        match code {
            1 => UnicodeCategory::Lu,
            2 => UnicodeCategory::Ll,
            3 => UnicodeCategory::Lt,
            4 => UnicodeCategory::Lm,
            5 => UnicodeCategory::Lo,
            6 => UnicodeCategory::Mn,
            7 => UnicodeCategory::Me,
            8 => UnicodeCategory::Mc,
            9 => UnicodeCategory::Nd,
            10 => UnicodeCategory::Nl,
            11 => UnicodeCategory::No,
            12 => UnicodeCategory::Zs,
            13 => UnicodeCategory::Zl,
            14 => UnicodeCategory::Zp,
            15 => UnicodeCategory::Cc,
            16 => UnicodeCategory::Cf,
            17 => UnicodeCategory::Co,
            18 => UnicodeCategory::Cs,
            19 => UnicodeCategory::Pd,
            20 => UnicodeCategory::Ps,
            21 => UnicodeCategory::Pe,
            22 => UnicodeCategory::Pc,
            23 => UnicodeCategory::Po,
            24 => UnicodeCategory::Sm,
            25 => UnicodeCategory::Sc,
            26 => UnicodeCategory::Sk,
            27 => UnicodeCategory::So,
            28 => UnicodeCategory::Pi,
            29 => UnicodeCategory::Pf,
            _ => UnicodeCategory::Cn,
        }
    }

    /// The General Category of `ch`.
    pub fn of(ch: char) -> (category: Self)
        ensures
            category == category_of(ch as u32),
    {
        UnicodeCategory::from_code(general_category_of(ch as u32))
    }

    /// The General Category of the scalar value `c`.
    pub fn of_scalar(c: u32) -> (category: Self)
        ensures
            category == category_of(c),
    {
        UnicodeCategory::from_code(general_category_of(c))
    }

    pub fn group(self) -> (group: UnicodeCategoryGroup)
        ensures
            group == group_of(self),
    {
        match self {
            UnicodeCategory::Ll | UnicodeCategory::Lu | UnicodeCategory::Lt | UnicodeCategory::Lm
            | UnicodeCategory::Lo => UnicodeCategoryGroup::L,
            UnicodeCategory::Mn | UnicodeCategory::Mc | UnicodeCategory::Me => UnicodeCategoryGroup::M,
            UnicodeCategory::Nd | UnicodeCategory::Nl | UnicodeCategory::No => UnicodeCategoryGroup::N,
            UnicodeCategory::Pc | UnicodeCategory::Pd | UnicodeCategory::Ps | UnicodeCategory::Pe
            | UnicodeCategory::Pi | UnicodeCategory::Pf | UnicodeCategory::Po => {
                UnicodeCategoryGroup::P
            },
            UnicodeCategory::Sm | UnicodeCategory::Sc | UnicodeCategory::Sk | UnicodeCategory::So => {
                UnicodeCategoryGroup::S
            },
            UnicodeCategory::Zs | UnicodeCategory::Zl | UnicodeCategory::Zp => UnicodeCategoryGroup::Z,
            UnicodeCategory::Cc | UnicodeCategory::Cf | UnicodeCategory::Cs | UnicodeCategory::Co
            | UnicodeCategory::Cn => UnicodeCategoryGroup::C,
        }
    }
}

} // verus!

verus! {

/// Bytes that may belong to the token before a candidate: ASCII letters, digits and periods.
pub open spec fn is_token_byte(b: u8) -> bool {
    is_ascii_alnum_byte(b) || b == 0x2E
}

/// Start of the run of token bytes that ends at offset `i`.
pub open spec fn token_start(b: Seq<u8>, i: int) -> int
    decreases i,
{
    if 0 < i <= b.len() && is_token_byte(b[i - 1]) {
        token_start(b, i - 1)
    } else {
        i
    }
}

proof fn lemma_token_start_range(b: Seq<u8>, i: int)
    requires
        0 <= i <= b.len(),
    ensures
        0 <= token_start(b, i) <= i,
    decreases i,
{
    if 0 < i <= b.len() && is_token_byte(b[i - 1]) {
        lemma_token_start_range(b, i - 1);
    }
}

/// Whether the first ASCII letter of `b[lo..hi]` is upper case (false when there is none).
pub open spec fn first_alpha_is_upper(b: Seq<u8>, lo: int, hi: int) -> bool
    decreases hi - lo,
{
    if lo >= hi {
        false
    } else if is_ascii_alpha_byte(b[lo]) {
        is_ascii_upper_byte(b[lo])
    } else {
        first_alpha_is_upper(b, lo + 1, hi)
    }
}

/// Spaces, tabs and line breaks.
pub open spec fn is_layout_byte(b: u8) -> bool {
    b == 0x20 || b == 0x09 || b == 0x0A || b == 0x0D
}

/// The first offset at or after `i` that is not a layout byte.
pub open spec fn skip_layout(b: Seq<u8>, i: int) -> int
    decreases b.len() - i,
{
    if 0 <= i < b.len() && is_layout_byte(b[i]) {
        skip_layout(b, i + 1)
    } else {
        i
    }
}

/// Length of the run of ASCII letters that starts at `i`.
pub open spec fn alpha_run(b: Seq<u8>, i: int) -> nat
    decreases b.len() - i,
{
    if 0 <= i < b.len() && is_ascii_alpha_byte(b[i]) {
        1 + alpha_run(b, i + 1)
    } else {
        0
    }
}

pub open spec fn min_int(a: int, b: int) -> int {
    if a < b {
        a
    } else {
        b
    }
}

/// Token-shape measurements around one candidate.
#[derive(Clone, Copy, Debug, PartialEq, Eq, Structural)]
pub struct TokenShape {
    /// The candidate is a period between two digits.
    pub decimal_dot: bool,
    /// The candidate is a period preceded by a digit.
    pub digit_before_period: bool,
    /// The candidate is a period followed by a digit.
    pub digit_after_period: bool,
    /// Periods inside the preceding token, capped at 4.
    pub internal_dots: usize,
    /// Letters in the preceding token, capped at 16.
    pub prev_alpha: usize,
    /// The first letter of the preceding token is upper case.
    pub prev_starts_capital: bool,
    /// Letters in the preceding token.
    pub prev_alpha_count: usize,
    /// Upper-case letters in the preceding token.
    pub prev_capital_count: usize,
    /// Letters in the next token, capped at 16.
    pub next_alpha: usize,
    /// The next token starts with an upper-case letter.
    pub next_first_upper: bool,
    /// The next token starts with a lower-case letter.
    pub next_first_lower: bool,
    /// A line break lies between the candidate and the next token.
    pub crossed_newline: bool,
    /// A period after a short (one to four letters) capitalised token.
    pub short_capital_abbrev: bool,
}

/// The token shape of `b` at `position` (clamped to the text length).
pub open spec fn token_shape_spec(b: Seq<u8>, position: int) -> TokenShape {
    let n = b.len() as int;
    let center = min_int(position, n);
    let is_period = center < n && b[center] == 0x2E;
    let digit_before = is_period && center > 0 && is_ascii_digit_byte(b[center - 1]);
    let digit_after = is_period && center + 1 < n && is_ascii_digit_byte(b[center + 1]);
    let s = token_start(b, center);
    let dots = count_in(b, s, center, |x: u8| x == 0x2E);
    let alpha = count_in(b, s, center, |x: u8| is_ascii_alpha_byte(x));
    let caps = count_in(b, s, center, |x: u8| is_ascii_upper_byte(x));
    let starts_capital = first_alpha_is_upper(b, s, center);
    let start = if center < n {
        center + 1
    } else {
        center
    };
    let after = skip_layout(b, start);
    let next_len = alpha_run(b, after);
    TokenShape {
        decimal_dot: digit_before && digit_after,
        digit_before_period: digit_before,
        digit_after_period: digit_after,
        internal_dots: min_int(dots as int, 4) as usize,
        prev_alpha: min_int(alpha as int, 16) as usize,
        prev_starts_capital: starts_capital,
        prev_alpha_count: alpha as usize,
        prev_capital_count: caps as usize,
        next_alpha: min_int(next_len as int, 16) as usize,
        next_first_upper: after < n && is_ascii_upper_byte(b[after]),
        next_first_lower: after < n && is_ascii_lower_byte(b[after]),
        crossed_newline: count_in(b, start, after, |x: u8| x == 0x0A || x == 0x0D) > 0,
        short_capital_abbrev: is_period && starts_capital && 1 <= alpha <= 4,
    }
}

/// The first ASCII letter of `b[lo..hi]` is upper case exactly when some
/// upper-case letter there has no letter before it in the range.
proof fn lemma_first_alpha_is_upper(b: Seq<u8>, lo: int, hi: int)
    requires
        0 <= lo,
        hi <= b.len(),
    ensures
        first_alpha_is_upper(b, lo, hi) == exists|j: int|
            lo <= j < hi && #[trigger] is_ascii_upper_byte(b[j]) && forall|i: int|
                lo <= i < j ==> !is_ascii_alpha_byte(#[trigger] b[i]),
    decreases hi - lo,
{
    if lo < hi {
        lemma_first_alpha_is_upper(b, lo + 1, hi);
        if is_ascii_alpha_byte(b[lo]) {
            if first_alpha_is_upper(b, lo, hi) {
                assert(is_ascii_upper_byte(b[lo]));
            } else {
                assert forall|j: int|
                    lo <= j < hi && #[trigger] is_ascii_upper_byte(b[j]) implies !forall|i: int|
                        lo <= i < j ==> !is_ascii_alpha_byte(#[trigger] b[i]) by {
                    if j > lo {
                        assert(is_ascii_alpha_byte(b[lo]));
                    }
                }
            }
        } else {
            if first_alpha_is_upper(b, lo + 1, hi) {
                let j = choose|j: int|
                    lo + 1 <= j < hi && #[trigger] is_ascii_upper_byte(b[j]) && forall|i: int|
                        lo + 1 <= i < j ==> !is_ascii_alpha_byte(#[trigger] b[i]);
                assert forall|i: int| lo <= i < j implies !is_ascii_alpha_byte(#[trigger] b[i]) by {}
            } else {
                assert forall|j: int|
                    lo <= j < hi && #[trigger] is_ascii_upper_byte(b[j]) implies !forall|i: int|
                        lo <= i < j ==> !is_ascii_alpha_byte(#[trigger] b[i]) by {
                    if j == lo {
                        assert(is_ascii_alpha_byte(b[lo]));
                    } else {
                        if forall|i: int| lo <= i < j ==> !is_ascii_alpha_byte(#[trigger] b[i]) {
                            assert forall|i: int| lo + 1 <= i < j implies !is_ascii_alpha_byte(#[trigger] b[i]) by {}
                        }
                    }
                }
            }
        }
    }
}

/// A candidate is flagged as a short capitalised abbreviation exactly when it
/// is a period whose preceding token has its first ASCII letter in upper case
/// and holds one to four ASCII letters.
pub proof fn lemma_short_capital_abbreviation(b: Seq<u8>, position: int)
    requires
        0 <= position,
        b.len() <= usize::MAX,
    ensures
        ({
            let t = token_shape_spec(b, position);
            let s = token_start(b, position);
            t.short_capital_abbrev == (position < b.len() && b[position] == 0x2E && (exists|j: int|
                s <= j < position && #[trigger] is_ascii_upper_byte(b[j]) && forall|i: int|
                    s <= i < j ==> !is_ascii_alpha_byte(#[trigger] b[i])) && 1 <= t.prev_alpha_count
                <= 4)
        }),
{
    let n = b.len() as int;
    if position < n {
        let s = token_start(b, position);
        lemma_token_start_range(b, position);
        lemma_first_alpha_is_upper(b, s, position);
        lemma_count_in_bound(b, s, position, |x: u8| is_ascii_alpha_byte(x));
    }
}

/// A candidate is flagged as a decimal point exactly when it is a period
/// with an ASCII digit right before it and right after it.
pub proof fn lemma_decimal_dot(b: Seq<u8>, position: int)
    requires
        0 <= position,
    ensures
        token_shape_spec(b, position).decimal_dot == (0 < position && position + 1 < b.len()
            && b[position] == 0x2E && is_ascii_digit_byte(b[position - 1]) && is_ascii_digit_byte(
            b[position + 1],
        )),
{
}

/// Token-shape features around a candidate: abbreviation and decimal contexts
/// told apart by position and structure alone.
#[derive(Clone, Copy, Debug, Default)]
pub struct TokenShapeAppender;

impl TokenShapeAppender {
    pub fn new() -> (appender: Self) {
        TokenShapeAppender
    }

    pub fn block(&self) -> (block: FeatureBlock)
        ensures
            block.name@ == "token_shape"@,
            block.width == 12,
            block.offset == 0,
    {
        FeatureBlock::new("token_shape", 12)
    }

    /// Measures the token shape of `text` at `position`.
    pub fn shape_at(&self, text: TextBytes<'_>, position: usize) -> (shape: TokenShape)
        ensures
            shape == token_shape_spec(text@, position as int),
    {
        let bytes = text.bytes();
        let ghost b = bytes@;
        let n = bytes.len();
        let center = if position < n {
            position
        } else {
            n
        };
        let is_period = center < n && bytes[center] == 0x2E;
        let digit_before = is_period && center > 0 && bytes[center - 1] >= 0x30 && bytes[center
            - 1] <= 0x39;
        let digit_after = is_period && center + 1 < n && bytes[center + 1] >= 0x30 && bytes[center
            + 1] <= 0x39;

        let mut s = center;
        while s > 0 && (is_ascii_alnum(bytes[s - 1]) || bytes[s - 1] == 0x2E)
            invariant
                b == bytes@,
                n == b.len(),
                s <= center <= n,
                token_start(b, s as int) == token_start(b, center as int),
            decreases s,
        {
            s = s - 1;
        }
        assert(token_start(b, s as int) == s);

        let ghost pd = |x: u8| x == 0x2E;
        let ghost pa = |x: u8| is_ascii_alpha_byte(x);
        let ghost pu = |x: u8| is_ascii_upper_byte(x);
        let mut dots: usize = 0;
        let mut alpha: usize = 0;
        let mut caps: usize = 0;
        let mut k = s;
        while k < center
            invariant
                b == bytes@,
                s <= k <= center <= n == b.len(),
                pd == (|x: u8| x == 0x2E),
                pa == (|x: u8| is_ascii_alpha_byte(x)),
                pu == (|x: u8| is_ascii_upper_byte(x)),
                dots == count_in(b, s as int, k as int, pd),
                alpha == count_in(b, s as int, k as int, pa),
                caps == count_in(b, s as int, k as int, pu),
                dots <= k - s,
                alpha <= k - s,
                caps <= k - s,
            decreases center - k,
        {
            let c = bytes[k];
            assert(pd(c) == (c == 0x2E));
            assert(pa(c) == is_ascii_alpha_byte(c));
            assert(pu(c) == is_ascii_upper_byte(c));
            if c == 0x2E {
                dots = dots + 1;
            }
            if (c >= 0x41 && c <= 0x5A) || (c >= 0x61 && c <= 0x7A) {
                alpha = alpha + 1;
            }
            if c >= 0x41 && c <= 0x5A {
                caps = caps + 1;
            }
            k = k + 1;
        }

        let mut f = s;
        while f < center && !((bytes[f] >= 0x41 && bytes[f] <= 0x5A) || (bytes[f] >= 0x61
            && bytes[f] <= 0x7A))
            invariant
                b == bytes@,
                s <= f <= center <= n == b.len(),
                first_alpha_is_upper(b, s as int, center as int) == first_alpha_is_upper(
                    b,
                    f as int,
                    center as int,
                ),
            decreases center - f,
        {
            f = f + 1;
        }
        let starts_capital = f < center && bytes[f] >= 0x41 && bytes[f] <= 0x5A;

        let start = if center < n {
            center + 1
        } else {
            center
        };
        let ghost pl = |x: u8| x == 0x0A || x == 0x0D;
        let mut after = start;
        let mut crossed = false;
        while after < n && (bytes[after] == 0x20 || bytes[after] == 0x09 || bytes[after] == 0x0A
            || bytes[after] == 0x0D)
            invariant
                b == bytes@,
                start <= after <= n == b.len(),
                pl == (|x: u8| x == 0x0A || x == 0x0D),
                skip_layout(b, start as int) == skip_layout(b, after as int),
                crossed == (count_in(b, start as int, after as int, pl) > 0),
            decreases n - after,
        {
            let c = bytes[after];
            assert(pl(c) == (c == 0x0A || c == 0x0D));
            if c == 0x0A || c == 0x0D {
                crossed = true;
            }
            after = after + 1;
        }
        let mut run: usize = 0;
        while after + run < n && ((bytes[after + run] >= 0x41 && bytes[after + run] <= 0x5A) || (
        bytes[after + run] >= 0x61 && bytes[after + run] <= 0x7A))
            invariant
                b == bytes@,
                after + run <= n == b.len(),
                alpha_run(b, after as int) == run + alpha_run(b, after + run),
            decreases n - after - run,
        {
            run = run + 1;
        }
        let next_upper = after < n && bytes[after] >= 0x41 && bytes[after] <= 0x5A;
        let next_lower = after < n && bytes[after] >= 0x61 && bytes[after] <= 0x7A;
        TokenShape {
            decimal_dot: digit_before && digit_after,
            digit_before_period: digit_before,
            digit_after_period: digit_after,
            internal_dots: if dots < 4 {
                dots
            } else {
                4
            },
            prev_alpha: if alpha < 16 {
                alpha
            } else {
                16
            },
            prev_starts_capital: starts_capital,
            prev_alpha_count: alpha,
            prev_capital_count: caps,
            next_alpha: if run < 16 {
                run
            } else {
                16
            },
            next_first_upper: next_upper,
            next_first_lower: next_lower,
            crossed_newline: crossed,
            short_capital_abbrev: is_period && starts_capital && 1 <= alpha && alpha <= 4,
        }
    }
}

fn is_ascii_alnum(b: u8) -> (r: bool)
    ensures
        r == is_ascii_alnum_byte(b),
{
    (b >= 0x41 && b <= 0x5A) || (b >= 0x61 && b <= 0x7A) || (b >= 0x30 && b <= 0x39)
}

} // verus!

verus! {

/// The byte `k` places into a window that starts `left` bytes before `center`,
/// or zero outside the text.
fn window_byte(text: TextBytes<'_>, center: usize, left: usize, k: usize) -> (b: u8)
    ensures
        b == padded_byte_spec(text@, center - left + k),
{
    let n = text.len();
    if k < left {
        let back = left - k;
        if back <= center {
            match text.byte(center - back) {
                Some(x) => x,
                None => 0,
            }
        } else {
            0
        }
    } else {
        match center.checked_add(k - left) {
            Some(i) => match text.byte(i) {
                Some(x) => x,
                None => 0,
            },
            None => 0,
        }
    }
}

/// Rolling byte window appender.
#[derive(Clone, Copy, Debug)]
pub struct ByteWindowAppender {
    spec: ByteWindowSpec,
}

impl ByteWindowAppender {
    pub closed spec fn window(&self) -> ByteWindowSpec {
        self.spec
    }

    pub fn new(spec: ByteWindowSpec) -> (appender: Self)
        ensures
            appender.window() == spec,
    {
        ByteWindowAppender { spec }
    }

    pub fn block(&self) -> (block: FeatureBlock)
        requires
            self.window().spec_width() <= usize::MAX,
        ensures
            block.name@ == "byte_window"@,
            block.width == self.window().spec_width(),
            block.offset == 0,
    {
        FeatureBlock::new("byte_window", self.spec.width())
    }

    /// The bytes from `left` before to `right` after `position`, zero outside the text.
    pub fn window_at(&self, text: TextBytes<'_>, position: usize) -> (window: Vec<u8>)
        requires
            self.window().spec_width() <= usize::MAX,
        ensures
            window@.len() == self.window().spec_width(),
            forall|k: int|
                0 <= k < window@.len() ==> #[trigger] window@[k] == padded_byte_spec(
                    text@,
                    position - self.window().left + k,
                ),
    {
        let width = self.spec.width();
        let left = self.spec.left;
        let mut window: Vec<u8> = Vec::new();
        let mut k: usize = 0;
        while k < width
            invariant
                k <= width,
                left == self.window().left,
                width == self.window().spec_width(),
                window@.len() == k,
                forall|j: int|
                    0 <= j < k ==> #[trigger] window@[j] == padded_byte_spec(
                        text@,
                        position - left + j,
                    ),
            decreases width - k,
        {
            window.push(window_byte(text, position, left, k));
            k = k + 1;
        }
        window
    }
}

/// Byte window encoded by byte class, one code per byte.
#[derive(Clone, Copy, Debug)]
pub struct EncodedByteWindowAppender {
    spec: ByteWindowSpec,
}

impl EncodedByteWindowAppender {
    pub closed spec fn window(&self) -> ByteWindowSpec {
        self.spec
    }

    pub fn new(spec: ByteWindowSpec) -> (appender: Self)
        ensures
            appender.window() == spec,
    {
        EncodedByteWindowAppender { spec }
    }

    pub fn block(&self) -> (block: FeatureBlock)
        requires
            self.window().spec_width() <= usize::MAX,
        ensures
            block.name@ == "encoded_byte_window"@,
            block.width == self.window().spec_width(),
            block.offset == 0,
    {
        FeatureBlock::new("encoded_byte_window", self.spec.width())
    }

    /// The codes of the bytes from `left` before to `right` after `position`.
    pub fn encoded_at(&self, text: TextBytes<'_>, position: usize) -> (codes: Vec<i8>)
        requires
            self.window().spec_width() <= usize::MAX,
        ensures
            codes@.len() == self.window().spec_width(),
            forall|k: int|
                0 <= k < codes@.len() ==> #[trigger] codes@[k] == encoded_byte_spec(
                    padded_byte_spec(text@, position - self.window().left + k),
                ),
    {
        let width = self.spec.width();
        let left = self.spec.left;
        let mut codes: Vec<i8> = Vec::new();
        let mut k: usize = 0;
        while k < width
            invariant
                k <= width,
                left == self.window().left,
                width == self.window().spec_width(),
                codes@.len() == k,
                forall|j: int|
                    0 <= j < k ==> #[trigger] codes@[j] == encoded_byte_spec(
                        padded_byte_spec(text@, position - left + j),
                    ),
            decreases width - k,
        {
            codes.push(encoded_boundary_byte(window_byte(text, position, left, k)));
            k = k + 1;
        }
        codes
    }
}

/// ASCII classes of the bytes just before and just after a position.
#[derive(Clone, Copy, Debug, PartialEq, Eq, Structural)]
pub struct NeighborClasses {
    pub prev_space: bool,
    pub prev_upper: bool,
    pub prev_lower: bool,
    pub next_space: bool,
    pub next_upper: bool,
    pub next_lower: bool,
}

/// The neighbor classes of `b` at `position`, padding with zero bytes.
pub open spec fn neighbor_classes_spec(b: Seq<u8>, position: int) -> NeighborClasses {
    let prev = padded_byte_spec(b, position - 1);
    let next = padded_byte_spec(b, position + 1);
    NeighborClasses {
        prev_space: is_ascii_whitespace_byte(prev),
        prev_upper: is_ascii_upper_byte(prev),
        prev_lower: is_ascii_lower_byte(prev),
        next_space: is_ascii_whitespace_byte(next),
        next_upper: is_ascii_upper_byte(next),
        next_lower: is_ascii_lower_byte(next),
    }
}

/// ASCII neighbor classification appender.
#[derive(Clone, Debug)]
pub struct AsciiClassAppender {
    classes: AsciiClassTable,
}

impl AsciiClassAppender {
    /// The class bits the appender looks bytes up in, indexed by byte value.
    pub closed spec fn class_table(&self) -> Seq<u8> {
        self.classes@
    }

    /// An appender whose table holds the class bits of every byte value.
    pub fn new() -> (appender: Self)
        ensures
            forall|b: u8| #[trigger] appender.class_table()[b as int] == class_flags(b),
    {
        AsciiClassAppender { classes: AsciiClassTable::default() }
    }

    pub fn block(&self) -> (block: FeatureBlock)
        ensures
            block.name@ == "ascii_classes"@,
            block.width == 6,
            block.offset == 0,
    {
        FeatureBlock::new("ascii_classes", 6)
    }

    /// Classes of the bytes on either side of `position`.
    pub fn classes_at(&self, text: TextBytes<'_>, position: usize) -> (classes: NeighborClasses)
        ensures
            classes == neighbor_classes_spec(text@, position as int),
    {
        let prev = window_byte(text, position, 1, 0);
        let next = window_byte(text, position, 1, 2);
        NeighborClasses {
            prev_space: self.classes.is_space(prev),
            prev_upper: self.classes.is_upper(prev),
            prev_lower: self.classes.is_lower(prev),
            next_space: self.classes.is_space(next),
            next_upper: self.classes.is_upper(next),
            next_lower: self.classes.is_lower(next),
        }
    }
}

} // verus!

verus! {

/// Sum of the widths of `blocks`.
pub open spec fn width_sum(blocks: Seq<FeatureBlock>) -> int
    decreases blocks.len(),
{
    if blocks.len() == 0 {
        0
    } else {
        width_sum(blocks.drop_last()) + blocks.last().width
    }
}

/// Lays `blocks` side by side from column zero, in order: each block starts
/// where the one before it ends, and the schema is as wide as all of them together.
pub fn stack_blocks(blocks: Vec<FeatureBlock>) -> (schema: crate::data::FeatureSchema)
    requires
        width_sum(blocks@) <= usize::MAX,
    ensures
        schema@.len() == blocks@.len(),
        forall|k: int|
            0 <= k < blocks@.len() ==> {
                &&& (#[trigger] schema@[k]).name == blocks@[k].name
                &&& schema@[k].width == blocks@[k].width
                &&& schema@[k].offset == width_sum(blocks@.subrange(0, k))
            },
        schema.spec_total_dim() == width_sum(blocks@),
{
    let n = blocks.len();
    let mut stacked: Vec<FeatureBlock> = Vec::new();
    let mut offset: usize = 0;
    let mut i: usize = 0;
    proof {
        lemma_width_sum_prefix_monotone(blocks@, n as int);
    }
    while i < n
        invariant
            n == blocks@.len(),
            i <= n,
            width_sum(blocks@) <= usize::MAX,
            forall|a: int| 0 <= a <= n ==> #[trigger] width_sum(blocks@.subrange(0, a)) <= width_sum(blocks@),
            offset == width_sum(blocks@.subrange(0, i as int)),
            stacked@.len() == i,
            forall|k: int|
                0 <= k < i ==> {
                    &&& (#[trigger] stacked@[k]).name == blocks@[k].name
                    &&& stacked@[k].width == blocks@[k].width
                    &&& stacked@[k].offset == width_sum(blocks@.subrange(0, k))
                },
            crate::data::blocks_fit(stacked@),
            crate::data::max_block_end(stacked@) == offset,
        decreases n - i,
    {
        let block = blocks[i];
        assert(blocks@.subrange(0, i + 1).drop_last() =~= blocks@.subrange(0, i as int));
        assert(width_sum(blocks@.subrange(0, i + 1)) == offset + block.width);
        let placed = block.with_offset(offset);
        let ghost before = stacked@;
        stacked.push(placed);
        assert(stacked@.drop_last() =~= before);
        offset = offset + block.width;
        i = i + 1;
    }
    assert(blocks@.subrange(0, n as int) =~= blocks@);
    crate::data::FeatureSchema::new(stacked)
}

/// Prefix width sums never exceed the whole sum.
pub proof fn lemma_width_sum_prefix_monotone(blocks: Seq<FeatureBlock>, n: int)
    requires
        n == blocks.len(),
    ensures
        forall|j: int| 0 <= j <= n ==> #[trigger] width_sum(blocks.subrange(0, j)) <= width_sum(blocks),
{
    assert forall|j: int| 0 <= j <= n implies #[trigger] width_sum(blocks.subrange(0, j)) <= width_sum(blocks) by {
        lemma_width_sum_prefix(blocks, j);
    }
}

proof fn lemma_width_sum_prefix(blocks: Seq<FeatureBlock>, j: int)
    requires
        0 <= j <= blocks.len(),
    ensures
        width_sum(blocks.subrange(0, j)) <= width_sum(blocks),
    decreases blocks.len() - j,
{
    if j < blocks.len() {
        let t = blocks.subrange(0, j + 1);
        lemma_width_sum_prefix(blocks, j + 1);
        assert(t.drop_last() =~= blocks.subrange(0, j));
    } else {
        assert(blocks.subrange(0, j) =~= blocks);
    }
}

} // verus!
