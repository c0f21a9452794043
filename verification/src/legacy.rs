use vstd::prelude::*;
use vstd::string::StrSliceExecFns;

use crate::counts::{count_equal, scalar_index_at_or_before};
use crate::data::{lists_exactly, strictly_increasing, BytePos, CandidateSlice, FeatureBlock};
use crate::error::FeatureError;
use crate::scalars::{is_scalar_start, scalar_at};
use crate::text::{TextBytes, Utf8ScalarView};
use crate::textops::{
    alphabetic, lowercase, lowercase_first, numeric, scalar_is_alphabetic, scalar_is_lowercase,
    scalar_is_numeric, scalar_is_whitespace, scalar_lowercase_first, white_space,
};

verus! {

/// Tables of the character-level boundary features: abbreviation and list
/// vocabularies and the character classes the encoder and channels use.
#[derive(Clone, Debug, Default)]
pub struct LegacyFeatureTables {
    pub abbreviations: Vec<String>,
    pub list_markers: Vec<String>,
    pub list_conjunctions: Vec<String>,
    pub list_intros: Vec<String>,
    pub terminal_sentence_chars: Vec<char>,
    pub terminal_paragraph_chars: Vec<char>,
    pub primary_terminators: Vec<char>,
    pub secondary_terminators: Vec<char>,
    pub opening_quotes: Vec<char>,
    pub closing_quotes: Vec<char>,
    pub punctuation_chars: Vec<char>,
    pub whitespace_chars: Vec<char>,
}

/// The scalar values of a sequence of characters.
pub open spec fn scalars_of(s: Seq<char>) -> Seq<u32> {
    s.map_values(|c: char| c as u32)
}

/// The scalar values of each string of a list.
pub open spec fn scalar_strings(v: Seq<String>) -> Seq<Seq<u32>> {
    v.map_values(|s: String| scalars_of(s@))
}

/// `needle` occurs in `s` starting at index `i`.
pub open spec fn occurs_at(s: Seq<u32>, needle: Seq<u32>, i: int) -> bool {
    0 <= i && i + needle.len() <= s.len() && s.subrange(i, i + needle.len()) == needle
}

/// `needle` occurs inside `s[lo..hi]`.
pub open spec fn contains_in(s: Seq<u32>, lo: int, hi: int, needle: Seq<u32>) -> bool {
    exists|i: int| lo <= i && i + needle.len() <= hi && #[trigger] occurs_at(s, needle, i)
}

/// The first index from `i` at which `needle` occurs inside `s[..hi]`, or -1.
pub open spec fn first_in(s: Seq<u32>, needle: Seq<u32>, i: int, hi: int) -> int
    decreases hi + 1 - i,
{
    if i + needle.len() > hi {
        -1
    } else if occurs_at(s, needle, i) {
        i
    } else {
        first_in(s, needle, i + 1, hi)
    }
}

/// What `first_in` finds is the first occurrence, and it finds one when there is one.
pub proof fn lemma_first_in(s: Seq<u32>, needle: Seq<u32>, i: int, hi: int)
    requires
        0 <= i,
        hi <= s.len(),
    ensures
        first_in(s, needle, i, hi) == -1 <==> !contains_in(s, i, hi, needle),
        first_in(s, needle, i, hi) != -1 ==> {
            let f = first_in(s, needle, i, hi);
            &&& i <= f
            &&& f + needle.len() <= hi
            &&& occurs_at(s, needle, f)
            &&& forall|j: int| i <= j < f ==> !#[trigger] occurs_at(s, needle, j)
        },
    decreases hi + 1 - i,
{
    if i + needle.len() > hi {
    } else if occurs_at(s, needle, i) {
    } else {
        lemma_first_in(s, needle, i + 1, hi);
        if contains_in(s, i, hi, needle) {
            let j = choose|j: int| i <= j && j + needle.len() <= hi && #[trigger] occurs_at(s, needle, j);
            assert(j != i);
            assert(i + 1 <= j);
        }
    }
}

/// Whether `needle` occurs at index `i` of `s`, given that it fits there.
fn matches_at(s: &Vec<u32>, i: usize, needle: &Vec<u32>) -> (r: bool)
    requires
        i + needle@.len() <= s@.len(),
    ensures
        r == occurs_at(s@, needle@, i as int),
{
    let m = needle.len();
    let n = s.len();
    let mut k: usize = 0;
    while k < m
        invariant
            k <= m == needle@.len(),
            n == s@.len(),
            i + m <= n,
            forall|j: int| 0 <= j < k ==> s@[i + j] == needle@[j],
        decreases m - k,
    {
        if s[i + k] != needle[k] {
            assert(s@.subrange(i as int, i + m)[k as int] != needle@[k as int]);
            return false;
        }
        k = k + 1;
    }
    assert(s@.subrange(i as int, i + m) =~= needle@);
    true
}

/// The first index in `[lo, hi)` at which `needle` occurs wholly inside `s[lo..hi]`.
fn find_in(s: &Vec<u32>, lo: usize, hi: usize, needle: &Vec<u32>) -> (r: Option<usize>)
    requires
        lo <= hi <= s@.len(),
    ensures
        r matches Some(j) ==> j == first_in(s@, needle@, lo as int, hi as int),
        r is None ==> first_in(s@, needle@, lo as int, hi as int) == -1,
{
    let m = needle.len();
    let n = s.len();
    if m == 0 {
        assert(s@.subrange(lo as int, lo as int) =~= needle@);
        return Some(lo);
    }
    let mut i = lo;
    while m <= hi - i
        invariant
            lo <= i <= hi,
            1 <= m,
            hi <= n == s@.len(),
            m == needle@.len(),
            first_in(s@, needle@, lo as int, hi as int) == first_in(s@, needle@, i as int, hi as int),
        decreases hi - i,
    {
        if matches_at(s, i, needle) {
            return Some(i);
        }
        i = i + 1;
    }
    None
}

/// Whether `needle` occurs inside `s[lo..hi]`.
fn contains_exec(s: &Vec<u32>, lo: usize, hi: usize, needle: &Vec<u32>) -> (r: bool)
    requires
        lo <= hi <= s@.len(),
    ensures
        r == contains_in(s@, lo as int, hi as int, needle@),
{
    proof {
        lemma_first_in(s@, needle@, lo as int, hi as int);
    }
    find_in(s, lo, hi, needle).is_some()
}

/// The views of a list of vectors.
pub open spec fn views_of(v: Seq<Vec<u32>>) -> Seq<Seq<u32>> {
    v.map_values(|x: Vec<u32>| x@)
}

/// Some string of `list` occurs inside `s[lo..hi]`.
pub open spec fn any_in(s: Seq<u32>, lo: int, hi: int, list: Seq<Seq<u32>>) -> bool {
    exists|k: int| 0 <= k < list.len() && #[trigger] contains_in(s, lo, hi, list[k])
}

/// Some marker of `list` touches `pos`.
pub open spec fn any_marker_touches(s: Seq<u32>, list: Seq<Seq<u32>>, pos: int) -> bool {
    exists|k: int| 0 <= k < list.len() && #[trigger] marker_touches(s, list[k], pos)
}

/// Some conjunction of `list` closes a list item after `pos`.
pub open spec fn any_conj_closes(
    s: Seq<u32>,
    starts: Seq<BytePos>,
    pos: int,
    end: int,
    list: Seq<Seq<u32>>,
) -> bool {
    exists|k: int| 0 <= k < list.len() && #[trigger] conj_closes_item(s, starts, pos, end, list[k])
}

/// Whether some string of `list` occurs inside `s[lo..hi]`.
fn any_contained(s: &Vec<u32>, lo: usize, hi: usize, list: &Vec<Vec<u32>>) -> (r: bool)
    requires
        lo <= hi <= s@.len(),
    ensures
        r == any_in(s@, lo as int, hi as int, views_of(list@)),
{
    let mut k: usize = 0;
    while k < list.len()
        invariant
            k <= list@.len(),
            lo <= hi <= s@.len(),
            forall|j: int|
                0 <= j < k ==> !#[trigger] contains_in(s@, lo as int, hi as int, views_of(list@)[j]),
        decreases list@.len() - k,
    {
        if contains_exec(s, lo, hi, &list[k]) {
            assert(contains_in(s@, lo as int, hi as int, views_of(list@)[k as int]));
            return true;
        }
        k = k + 1;
    }
    false
}

/// Whether `c` is in `set`.
fn in_set(set: &Vec<u32>, c: u32) -> (r: bool)
    ensures
        r == set@.contains(c),
{
    let mut k: usize = 0;
    while k < set.len()
        invariant
            k <= set@.len(),
            forall|j: int| 0 <= j < k ==> set@[j] != c,
        decreases set@.len() - k,
    {
        if set[k] == c {
            return true;
        }
        k = k + 1;
    }
    false
}

/// Occurrences of `x` in `s[lo..hi]`.
fn count_value(s: &Vec<u32>, lo: usize, hi: usize, x: u32) -> (n: usize)
    requires
        lo <= hi <= s@.len(),
    ensures
        n == count_equal(s@, lo as int, hi as int, x),
{
    let mut n: usize = 0;
    let mut i = lo;
    while i < hi
        invariant
            lo <= i <= hi <= s@.len(),
            n == count_equal(s@, lo as int, i as int, x),
            n <= i - lo,
        decreases hi - i,
    {
        if s[i] == x {
            n = n + 1;
        }
        i = i + 1;
    }
    n
}

/// The scalar values of a string.
fn string_scalars(s: &String) -> (v: Vec<u32>)
    ensures
        v@ == scalars_of(s@),
{
    let t = s.as_str();
    let n = t.unicode_len();
    let mut v: Vec<u32> = Vec::new();
    let mut i: usize = 0;
    while i < n
        invariant
            n == t@.len(),
            t@ == s@,
            i <= n,
            v@ == scalars_of(s@).subrange(0, i as int),
        decreases n - i,
    {
        let c = t.get_char(i);
        v.push(c as u32);
        assert(v@ =~= scalars_of(s@).subrange(0, i + 1));
        i = i + 1;
    }
    assert(v@ =~= scalars_of(s@));
    v
}

/// The scalar values of each string of a list.
fn strings_scalars(list: &Vec<String>) -> (v: Vec<Vec<u32>>)
    ensures
        v@.len() == list@.len(),
        forall|k: int| 0 <= k < list@.len() ==> #[trigger] v@[k]@ == scalars_of(list@[k]@),
{
    let mut v: Vec<Vec<u32>> = Vec::new();
    let mut k: usize = 0;
    while k < list.len()
        invariant
            k <= list@.len(),
            v@.len() == k,
            forall|j: int| 0 <= j < k ==> #[trigger] v@[j]@ == scalars_of(list@[j]@),
        decreases list@.len() - k,
    {
        v.push(string_scalars(&list[k]));
        k = k + 1;
    }
    v
}

/// The scalar values of a list of characters.
fn chars_scalars(list: &Vec<char>) -> (v: Vec<u32>)
    ensures
        v@ == scalars_of(list@),
{
    let mut v: Vec<u32> = Vec::new();
    let mut k: usize = 0;
    while k < list.len()
        invariant
            k <= list@.len(),
            v@ == scalars_of(list@).subrange(0, k as int),
        decreases list@.len() - k,
    {
        v.push(list[k] as u32);
        assert(v@ =~= scalars_of(list@).subrange(0, k + 1));
        k = k + 1;
    }
    assert(v@ =~= scalars_of(list@));
    v
}

/// An ASCII digit.
pub open spec fn ascii_digit_scalar(c: u32) -> bool {
    0x30 <= c <= 0x39
}

/// A character that may mark or number a list item: brackets, digits, ASCII
/// lower-case letters, the period and the common bullet glyphs.
pub open spec fn list_item_char(c: u32) -> bool {
    ||| c == 0x28 || c == 0x29
    ||| ascii_digit_scalar(c)
    ||| 0x61 <= c <= 0x7A
    ||| c == 0x2E
    ||| c == 0x2022 || c == 0xB7 || c == 0x25CB || c == 0x25CF
    ||| c == 0x25A0 || c == 0x25A1 || c == 0x25AA || c == 0x25AB
}

/// One of `.,;:`.
pub open spec fn clause_punct(c: u32) -> bool {
    c == 0x2E || c == 0x2C || c == 0x3B || c == 0x3A
}

/// One of `.,;:()`.
pub open spec fn paren_punct(c: u32) -> bool {
    clause_punct(c) || c == 0x28 || c == 0x29
}

/// One of `.,;:()[]`.
pub open spec fn bracket_punct(c: u32) -> bool {
    paren_punct(c) || c == 0x5B || c == 0x5D
}

/// `pos - w`, or zero when that would be negative.
pub open spec fn back_from(pos: int, w: int) -> int {
    if pos > w {
        pos - w
    } else {
        0
    }
}

/// `count_equal` is positive exactly when the range holds `x`.
proof fn lemma_count_equal_positive(s: Seq<u32>, lo: int, hi: int, x: u32)
    ensures
        (count_equal(s, lo, hi, x) > 0) == exists|i: int| lo <= i < hi && #[trigger] s[i] == x,
    decreases hi - lo,
{
    if hi > lo {
        lemma_count_equal_positive(s, lo, hi - 1, x);
        if count_equal(s, lo, hi - 1, x) > 0 {
            let i = choose|i: int| lo <= i < hi - 1 && #[trigger] s[i] == x;
            assert(lo <= i < hi && s[i] == x);
        }
        if s[hi - 1] == x {
            assert(lo <= hi - 1 < hi && s[hi - 1] == x);
        }
    }
}

/// `pos + w`, or `n` when that is past `n`.
pub open spec fn ahead_of(pos: int, w: int, n: int) -> int {
    if pos + w < n {
        pos + w
    } else {
        n
    }
}

/// Start of the run of alphanumerics and periods that ends at `i`.
pub open spec fn word_start(s: Seq<u32>, i: int) -> int
    decreases i,
{
    if 0 < i <= s.len() && (alphabetic(s[i - 1]) || numeric(s[i - 1]) || s[i - 1] == 0x2E) {
        word_start(s, i - 1)
    } else {
        i
    }
}

/// `marker` ends just before `pos` or starts at `pos`.
pub open spec fn marker_touches(s: Seq<u32>, marker: Seq<u32>, pos: int) -> bool {
    occurs_at(s, marker, pos - marker.len()) || occurs_at(s, marker, pos)
}

/// The first occurrence of `conj` in `s[pos..end]` starts one to four bytes
/// after `pos`, right after a `;` or `,`.
pub open spec fn conj_closes_item(
    s: Seq<u32>,
    starts: Seq<BytePos>,
    pos: int,
    end: int,
    conj: Seq<u32>,
) -> bool {
    let j = first_in(s, conj, pos, end);
    &&& j > pos
    &&& starts[j].0 - starts[pos].0 < 5
    &&& (s[j - 1] == 0x3B || s[j - 1] == 0x2C)
}

/// 1 for true, 0 for false.
pub open spec fn flag(b: bool) -> i64 {
    if b {
        1
    } else {
        0
    }
}

/// The tables with every string and character as scalar values.
#[derive(Clone, Debug)]
struct ScalarTables {
    abbreviations: Vec<Vec<u32>>,
    list_markers: Vec<Vec<u32>>,
    list_conjunctions: Vec<Vec<u32>>,
    list_intros: Vec<Vec<u32>>,
    sentence: Vec<u32>,
    paragraph: Vec<u32>,
    primary: Vec<u32>,
    secondary: Vec<u32>,
    opening: Vec<u32>,
    closing: Vec<u32>,
    punctuation: Vec<u32>,
    whitespace: Vec<u32>,
}

/// Character-level boundary features: an encoded character window around
/// the candidate and eight heuristic channels (abbreviation, terminator kind,
/// quote balance, word completion, lower-case next character, list item,
/// semicolon in a list, colon nearby).
#[derive(Clone, Debug)]
pub struct CharBoundaryLegacyAppender {
    left_window: usize,
    right_window: usize,
    tables: ScalarTables,
}

impl CharBoundaryLegacyAppender {
    pub closed spec fn left(&self) -> int {
        self.left_window as int
    }

    pub closed spec fn right(&self) -> int {
        self.right_window as int
    }

    pub closed spec fn abbreviations(&self) -> Seq<Seq<u32>> {
        views_of(self.tables.abbreviations@)
    }

    pub closed spec fn markers(&self) -> Seq<Seq<u32>> {
        views_of(self.tables.list_markers@)
    }

    pub closed spec fn conjunctions(&self) -> Seq<Seq<u32>> {
        views_of(self.tables.list_conjunctions@)
    }

    pub closed spec fn intros(&self) -> Seq<Seq<u32>> {
        views_of(self.tables.list_intros@)
    }

    pub closed spec fn sentence_chars(&self) -> Seq<u32> {
        self.tables.sentence@
    }

    pub closed spec fn paragraph_chars(&self) -> Seq<u32> {
        self.tables.paragraph@
    }

    pub closed spec fn primary(&self) -> Seq<u32> {
        self.tables.primary@
    }

    pub closed spec fn secondary(&self) -> Seq<u32> {
        self.tables.secondary@
    }

    pub closed spec fn opening(&self) -> Seq<u32> {
        self.tables.opening@
    }

    pub closed spec fn closing(&self) -> Seq<u32> {
        self.tables.closing@
    }

    pub closed spec fn punctuation(&self) -> Seq<u32> {
        self.tables.punctuation@
    }

    pub closed spec fn whitespace_chars(&self) -> Seq<u32> {
        self.tables.whitespace@
    }

    pub fn new(left_window: usize, right_window: usize, tables: LegacyFeatureTables) -> (appender: Self)
        ensures
            appender.left() == left_window,
            appender.right() == right_window,
            appender.abbreviations() == scalar_strings(tables.abbreviations@),
            appender.markers() == scalar_strings(tables.list_markers@),
            appender.conjunctions() == scalar_strings(tables.list_conjunctions@),
            appender.intros() == scalar_strings(tables.list_intros@),
            appender.sentence_chars() == scalars_of(tables.terminal_sentence_chars@),
            appender.paragraph_chars() == scalars_of(tables.terminal_paragraph_chars@),
            appender.primary() == scalars_of(tables.primary_terminators@),
            appender.secondary() == scalars_of(tables.secondary_terminators@),
            appender.opening() == scalars_of(tables.opening_quotes@),
            appender.closing() == scalars_of(tables.closing_quotes@),
            appender.punctuation() == scalars_of(tables.punctuation_chars@),
            appender.whitespace_chars() == scalars_of(tables.whitespace_chars@),
    {
        let compiled = ScalarTables {
            abbreviations: strings_scalars(&tables.abbreviations),
            list_markers: strings_scalars(&tables.list_markers),
            list_conjunctions: strings_scalars(&tables.list_conjunctions),
            list_intros: strings_scalars(&tables.list_intros),
            sentence: chars_scalars(&tables.terminal_sentence_chars),
            paragraph: chars_scalars(&tables.terminal_paragraph_chars),
            primary: chars_scalars(&tables.primary_terminators),
            secondary: chars_scalars(&tables.secondary_terminators),
            opening: chars_scalars(&tables.opening_quotes),
            closing: chars_scalars(&tables.closing_quotes),
            punctuation: chars_scalars(&tables.punctuation_chars),
            whitespace: chars_scalars(&tables.whitespace_chars),
        };
        let appender = CharBoundaryLegacyAppender { left_window, right_window, tables: compiled };
        assert(appender.abbreviations() =~= scalar_strings(tables.abbreviations@));
        assert(appender.markers() =~= scalar_strings(tables.list_markers@));
        assert(appender.conjunctions() =~= scalar_strings(tables.list_conjunctions@));
        assert(appender.intros() =~= scalar_strings(tables.list_intros@));
        appender
    }

    /// Width of a row: the character window and the eight channels.
    pub open spec fn spec_width(&self) -> int {
        self.left() + self.right() + 1 + 8
    }

    pub fn block(&self) -> (block: FeatureBlock)
        requires
            self.spec_width() <= usize::MAX,
        ensures
            block.name@ == "charboundary_legacy"@,
            block.width == self.spec_width(),
            block.offset == 0,
    {
        FeatureBlock::new("charboundary_legacy", self.left_window + self.right_window + 1 + 8)
    }

    /// The code of one character in the window.
    pub open spec fn code_of(&self, c: u32) -> i64 {
        if alphabetic(c) {
            (lowercase_first(c) as int - 0x61 + 1) as i64
        } else if ascii_digit_scalar(c) {
            0i64
        } else if self.sentence_chars().contains(c) {
            -1i64
        } else if self.paragraph_chars().contains(c) {
            -2i64
        } else if self.whitespace_chars().contains(c) || white_space(c) {
            -3i64
        } else if self.punctuation().contains(c) {
            -4i64
        } else {
            -5i64
        }
    }

    /// The code at index `target` of the text; padding outside it.
    pub open spec fn window_code(&self, s: Seq<u32>, target: int) -> i64 {
        if 0 <= target < s.len() {
            self.code_of(s[target])
        } else {
            -3i64
        }
    }

    fn code(&self, c: u32) -> (code: i64)
        ensures
            code == self.code_of(c),
    {
        if scalar_is_alphabetic(c) {
            let lowered = scalar_lowercase_first(c);
            lowered as i64 - 0x61 + 1
        } else if c >= 0x30 && c <= 0x39 {
            0
        } else if in_set(&self.tables.sentence, c) {
            -1
        } else if in_set(&self.tables.paragraph, c) {
            -2
        } else if in_set(&self.tables.whitespace, c) || scalar_is_whitespace(c) {
            -3
        } else if in_set(&self.tables.punctuation, c) {
            -4
        } else {
            -5
        }
    }
}

impl CharBoundaryLegacyAppender {
    /// The candidate is a period that ends a listed abbreviation.
    pub open spec fn abbreviation_at(&self, s: Seq<u32>, pos: int) -> bool {
        &&& 0 <= pos < s.len()
        &&& s[pos] == 0x2E
        &&& self.abbreviations().contains(s.subrange(word_start(s, pos), pos + 1))
    }

    /// Quotes are balanced up to and including a quote candidate: straight
    /// quotes come in pairs and curly ones open as often as they close.
    pub open spec fn quote_balanced_at(&self, s: Seq<u32>, pos: int) -> bool {
        let e = pos + 1;
        ||| pos >= s.len()
        ||| !(self.opening().contains(s[pos]) || self.closing().contains(s[pos]))
        ||| (count_equal(s, 0, e, 0x22) % 2 == 0 && count_equal(s, 0, e, 0x201C) == count_equal(
            s,
            0,
            e,
            0x201D,
        ) && count_equal(s, 0, e, 0x27) % 2 == 0 && count_equal(s, 0, e, 0x2018) == count_equal(
            s,
            0,
            e,
            0x2019,
        ))
    }

    /// A closing quote is not followed by a lower-case letter that would
    /// continue the word.
    pub open spec fn word_complete_at(&self, s: Seq<u32>, pos: int) -> bool {
        ||| pos >= s.len()
        ||| !self.closing().contains(s[pos])
        ||| pos + 1 >= s.len()
        ||| white_space(s[pos + 1])
        ||| self.sentence_chars().contains(s[pos + 1])
        ||| self.punctuation().contains(s[pos + 1])
        ||| !lowercase(s[pos + 1])
    }

    /// The candidate looks like part of a list item: a list marker touches
    /// it, or it is list punctuation after an introduction ending in a colon,
    /// or a comma or semicolon shortly before a list conjunction.
    pub open spec fn list_item_at(&self, s: Seq<u32>, starts: Seq<BytePos>, pos: int) -> bool {
        let n = s.len() as int;
        let ch = s[pos];
        let prev = if pos > 0 {
            s[pos - 1]
        } else {
            0u32
        };
        let next = if pos + 1 < n {
            s[pos + 1]
        } else {
            0u32
        };
        let start = back_from(pos, 20);
        let end = ahead_of(pos, 20, n);
        let gate = list_item_char(ch) || (pos > 0 && pos + 1 < n && (clause_punct(ch)
            || clause_punct(prev)));
        let marker = any_marker_touches(s, self.markers(), pos);
        let near = bracket_punct(ch) || paren_punct(prev) || bracket_punct(next);
        let colon_before = pos - start >= 5 && count_equal(s, pos - 5, pos, 0x3A) > 0;
        let intro = any_in(s, start, pos, self.intros());
        let comma = ch == 0x3B || ch == 0x2C || prev == 0x3B || prev == 0x2C;
        let conj = any_conj_closes(s, starts, pos, end, self.conjunctions());
        &&& 0 <= pos < n
        &&& gate
        &&& (marker || (near && ((colon_before && intro) || (comma && conj))))
    }

    /// A semicolon with list context within fifty characters: another
    /// semicolon, a list marker, an introduction before it or a conjunction after it.
    pub open spec fn semicolon_list_at(&self, s: Seq<u32>, pos: int) -> bool {
        let n = s.len() as int;
        let start = back_from(pos, 50);
        let end = ahead_of(pos, 50, n);
        &&& 0 <= pos < n
        &&& s[pos] == 0x3B
        &&& {
            ||| count_equal(s, start, end, 0x3B) >= 2
            ||| any_in(s, start, end, self.markers())
            ||| any_in(s, start, pos, self.intros())
            ||| any_in(s, pos, end, self.conjunctions())
        }
    }

    /// A colon among the ten characters before the candidate.
    pub open spec fn near_colon_at(&self, s: Seq<u32>, pos: int) -> bool {
        count_equal(s, back_from(pos, 10), pos, 0x3A) > 0
    }

    /// Channel `j` of the row of candidate `ci`.
    pub open spec fn channel(&self, s: Seq<u32>, starts: Seq<BytePos>, ci: int, j: int) -> i64 {
        let cur = s[ci];
        if j == 0 {
            flag(self.abbreviation_at(s, ci))
        } else if j == 1 {
            if self.primary().contains(cur) {
                1i64
            } else if self.secondary().contains(cur) {
                -1i64
            } else {
                0i64
            }
        } else if j == 2 {
            flag(self.quote_balanced_at(s, ci))
        } else if j == 3 {
            flag(self.word_complete_at(s, ci))
        } else if j == 4 {
            flag(ci + 1 < s.len() && lowercase(s[ci + 1]))
        } else if j == 5 {
            flag(self.list_item_at(s, starts, ci))
        } else if j == 6 {
            flag(self.semicolon_list_at(s, ci))
        } else {
            flag(self.near_colon_at(s, ci))
        }
    }

    /// The row of the candidate at scalar index `ci`: the codes from `left`
    /// characters before to `right` after it, then the eight channels.
    pub open spec fn row_spec(&self, s: Seq<u32>, starts: Seq<BytePos>, ci: int) -> Seq<i64> {
        let ww = self.left() + self.right() + 1;
        Seq::new(
            (ww + 8) as nat,
            |k: int|
                if k < ww {
                    self.window_code(s, ci + k - self.left())
                } else {
                    self.channel(s, starts, ci, k - ww)
                },
        )
    }

    fn abbreviation(&self, s: &Vec<u32>, pos: usize) -> (r: bool)
        requires
            pos < s@.len(),
        ensures
            r == self.abbreviation_at(s@, pos as int),
    {
        let n = s.len();
        if s[pos] != 0x2E {
            return false;
        }
        let mut ws = pos;
        while ws > 0 && (scalar_is_alphabetic(s[ws - 1]) || scalar_is_numeric(s[ws - 1]) || s[ws
            - 1] == 0x2E)
            invariant
                ws <= pos < s@.len(),
                word_start(s@, ws as int) == word_start(s@, pos as int),
            decreases ws,
        {
            ws = ws - 1;
        }
        let len = pos + 1 - ws;
        let list = &self.tables.abbreviations;
        let mut k: usize = 0;
        while k < list.len()
            invariant
                k <= list@.len(),
                ws <= pos < s@.len(),
                len == pos + 1 - ws,
                word_start(s@, pos as int) == ws,
                s@[pos as int] == 0x2E,
                list == &self.tables.abbreviations,
                forall|j: int| 0 <= j < k ==> views_of(list@)[j] != s@.subrange(ws as int, pos + 1),
            decreases list@.len() - k,
        {
            if list[k].len() == len && matches_at(s, ws, &list[k]) {
                assert(views_of(list@)[k as int] == s@.subrange(ws as int, pos + 1));
                assert(self.abbreviations()[k as int] == s@.subrange(ws as int, pos + 1));
                assert(self.abbreviations().len() == list@.len());
                assert(self.abbreviations().contains(s@.subrange(ws as int, pos + 1)));
                return true;
            }
            k = k + 1;
        }
        proof {
            let sub = s@.subrange(ws as int, pos + 1);
            if self.abbreviations().contains(sub) {
                let j = choose|j: int| 0 <= j < self.abbreviations().len() && self.abbreviations()[j] == sub;
                assert(views_of(list@)[j] != sub);
            }
        }
        false
    }

    fn quote_balanced(&self, s: &Vec<u32>, pos: usize) -> (r: bool)
        requires
            pos < s@.len(),
        ensures
            r == self.quote_balanced_at(s@, pos as int),
    {
        let n = s.len();
        let ch = s[pos];
        if !in_set(&self.tables.opening, ch) && !in_set(&self.tables.closing, ch) {
            return true;
        }
        let e = pos + 1;
        count_value(s, 0, e, 0x22) % 2 == 0 && count_value(s, 0, e, 0x201C) == count_value(s, 0, e, 0x201D)
            && count_value(s, 0, e, 0x27) % 2 == 0 && count_value(s, 0, e, 0x2018) == count_value(
            s,
            0,
            e,
            0x2019,
        )
    }

    fn word_complete(&self, s: &Vec<u32>, pos: usize) -> (r: bool)
        requires
            pos < s@.len(),
        ensures
            r == self.word_complete_at(s@, pos as int),
    {
        let n = s.len();
        if !in_set(&self.tables.closing, s[pos]) {
            return true;
        }
        if pos + 1 >= n {
            return true;
        }
        let next = s[pos + 1];
        if scalar_is_whitespace(next) || in_set(&self.tables.sentence, next) || in_set(
            &self.tables.punctuation,
            next,
        ) {
            return true;
        }
        !scalar_is_lowercase(next)
    }
}

/// `ci` indexes the scalar that starts at byte `position`.
pub open spec fn scalar_index_is(starts: Seq<BytePos>, position: int, ci: int) -> bool {
    0 <= ci < starts.len() && starts[ci].0 == position
}

/// `starts` and `vals` are the scalar starts and values of the UTF-8 bytes `b`, in order.
pub open spec fn scalar_view_of(b: Seq<u8>, starts: Seq<BytePos>, vals: Seq<u32>) -> bool {
    &&& lists_exactly(starts, 0, b.len() as int, |i: int| is_scalar_start(b, i))
    &&& vals.len() == starts.len()
    &&& forall|k: int| 0 <= k < vals.len() ==> #[trigger] vals[k] == scalar_at(b, starts[k].0 as int)
}

fn is_list_item_char(c: u32) -> (r: bool)
    ensures
        r == list_item_char(c),
{
    c == 0x28 || c == 0x29 || (c >= 0x30 && c <= 0x39) || (c >= 0x61 && c <= 0x7A) || c == 0x2E || c
        == 0x2022 || c == 0xB7 || c == 0x25CB || c == 0x25CF || c == 0x25A0 || c == 0x25A1 || c
        == 0x25AA || c == 0x25AB
}

fn is_clause_punct(c: u32) -> (r: bool)
    ensures
        r == clause_punct(c),
{
    c == 0x2E || c == 0x2C || c == 0x3B || c == 0x3A
}

fn is_paren_punct(c: u32) -> (r: bool)
    ensures
        r == paren_punct(c),
{
    is_clause_punct(c) || c == 0x28 || c == 0x29
}

fn is_bracket_punct(c: u32) -> (r: bool)
    ensures
        r == bracket_punct(c),
{
    is_paren_punct(c) || c == 0x5B || c == 0x5D
}

impl CharBoundaryLegacyAppender {
    fn marker_touch(&self, s: &Vec<u32>, pos: usize) -> (r: bool)
        requires
            pos < s@.len(),
        ensures
            r == any_marker_touches(s@, self.markers(), pos as int),
    {
        let n = s.len();
        let list = &self.tables.list_markers;
        let mut k: usize = 0;
        while k < list.len()
            invariant
                k <= list@.len(),
                pos < n == s@.len(),
                list == &self.tables.list_markers,
                forall|j: int| 0 <= j < k ==> !#[trigger] marker_touches(s@, views_of(list@)[j], pos as int),
            decreases list@.len() - k,
        {
            let m = &list[k];
            let mlen = m.len();
            assert(views_of(list@)[k as int] == m@);
            if pos >= mlen && matches_at(s, pos - mlen, m) {
                assert(marker_touches(s@, self.markers()[k as int], pos as int));
                return true;
            }
            if mlen <= n - pos && matches_at(s, pos, m) {
                assert(marker_touches(s@, self.markers()[k as int], pos as int));
                return true;
            }
            k = k + 1;
        }
        false
    }

    fn conj_closes(&self, s: &Vec<u32>, starts: &Vec<BytePos>, pos: usize, end: usize) -> (r: bool)
        requires
            pos <= end <= s@.len(),
            starts@.len() == s@.len(),
        ensures
            r == any_conj_closes(s@, starts@, pos as int, end as int, self.conjunctions()),
    {
        let list = &self.tables.list_conjunctions;
        let mut k: usize = 0;
        while k < list.len()
            invariant
                k <= list@.len(),
                pos <= end <= s@.len(),
                starts@.len() == s@.len(),
                list == &self.tables.list_conjunctions,
                forall|j: int|
                    0 <= j < k ==> !#[trigger] conj_closes_item(
                        s@,
                        starts@,
                        pos as int,
                        end as int,
                        views_of(list@)[j],
                    ),
            decreases list@.len() - k,
        {
            let c = &list[k];
            assert(views_of(list@)[k as int] == c@);
            proof {
                lemma_first_in(s@, c@, pos as int, end as int);
                if c@.len() == 0 {
                    assert(s@.subrange(pos as int, pos as int) =~= c@);
                }
            }
            match find_in(s, pos, end, c) {
                Some(j) => {
                    if j > pos && (starts[j].0 as u64) < (starts[pos].0 as u64) + 5 && (s[j - 1] == 0x3B
                        || s[j - 1] == 0x2C) {
                        assert(conj_closes_item(s@, starts@, pos as int, end as int, self.conjunctions()[k as int]));
                        return true;
                    }
                },
                None => {},
            }
            k = k + 1;
        }
        false
    }

    fn list_item(&self, s: &Vec<u32>, starts: &Vec<BytePos>, pos: usize) -> (r: bool)
        requires
            pos < s@.len(),
            starts@.len() == s@.len(),
        ensures
            r == self.list_item_at(s@, starts@, pos as int),
    {
        let n = s.len();
        let ch = s[pos];
        let prev: u32 = if pos > 0 {
            s[pos - 1]
        } else {
            0
        };
        let next: u32 = if pos + 1 < n {
            s[pos + 1]
        } else {
            0
        };
        let gate = is_list_item_char(ch) || (pos > 0 && pos + 1 < n && (is_clause_punct(ch)
            || is_clause_punct(prev)));
        if !gate {
            return false;
        }
        if self.marker_touch(s, pos) {
            return true;
        }
        let near = is_bracket_punct(ch) || is_paren_punct(prev) || is_bracket_punct(next);
        if !near {
            return false;
        }
        let start = if pos > 20 {
            pos - 20
        } else {
            0
        };
        let end = if n - pos > 20 {
            pos + 20
        } else {
            n
        };
        let colon_before = pos - start >= 5 && count_value(s, pos - 5, pos, 0x3A) > 0;
        if colon_before && any_contained(s, start, pos, &self.tables.list_intros) {
            return true;
        }
        let comma = ch == 0x3B || ch == 0x2C || prev == 0x3B || prev == 0x2C;
        comma && self.conj_closes(s, starts, pos, end)
    }

    fn semicolon_list(&self, s: &Vec<u32>, pos: usize) -> (r: bool)
        requires
            pos < s@.len(),
        ensures
            r == self.semicolon_list_at(s@, pos as int),
    {
        let n = s.len();
        if s[pos] != 0x3B {
            return false;
        }
        let start = if pos > 50 {
            pos - 50
        } else {
            0
        };
        let end = if n - pos > 50 {
            pos + 50
        } else {
            n
        };
        count_value(s, start, end, 0x3B) >= 2 || any_contained(s, start, end, &self.tables.list_markers)
            || any_contained(s, start, pos, &self.tables.list_intros) || any_contained(
            s,
            pos,
            end,
            &self.tables.list_conjunctions,
        )
    }

    fn near_colon(&self, s: &Vec<u32>, pos: usize) -> (r: bool)
        requires
            pos < s@.len(),
        ensures
            r == self.near_colon_at(s@, pos as int),
    {
        let start = if pos > 10 {
            pos - 10
        } else {
            0
        };
        count_value(s, start, pos, 0x3A) > 0
    }
}

impl CharBoundaryLegacyAppender {
    fn window_codes(&self, s: &Vec<u32>, ci: usize) -> (codes: Vec<i64>)
        requires
            ci < s@.len(),
            self.spec_width() <= usize::MAX,
        ensures
            codes@.len() == self.left() + self.right() + 1,
            forall|j: int| 0 <= j < codes@.len() ==> #[trigger] codes@[j] == self.window_code(s@, ci + j - self.left()),
    {
        let n = s.len();
        let left = self.left_window;
        let ww = self.left_window + self.right_window + 1;
        let mut row: Vec<i64> = Vec::new();
        let mut k: usize = 0;
        while k < ww
            invariant
                ci < n == s@.len(),
                left == self.left(),
                ww == self.left() + self.right() + 1,
                k <= ww,
                row@.len() == k,
                forall|j: int| 0 <= j < k ==> #[trigger] row@[j] == self.window_code(s@, ci + j - self.left()),
            decreases ww - k,
        {
            let code: i64 = if k < left {
                let back = left - k;
                if back > ci {
                    -3
                } else {
                    self.code(s[ci - back])
                }
            } else {
                let forward = k - left;
                if forward < n - ci {
                    self.code(s[ci + forward])
                } else {
                    -3
                }
            };
            row.push(code);
            k = k + 1;
        }
        row
    }

    fn channels(&self, s: &Vec<u32>, starts: &Vec<BytePos>, ci: usize) -> (c: Vec<i64>)
        requires
            ci < s@.len(),
            starts@.len() == s@.len(),
        ensures
            c@ == Seq::new(8, |j: int| self.channel(s@, starts@, ci as int, j)),
    {
        let n = s.len();
        let cur = s[ci];
        let abbreviation: i64 = if self.abbreviation(s, ci) {
            1
        } else {
            0
        };
        let terminator: i64 = if in_set(&self.tables.primary, cur) {
            1
        } else if in_set(&self.tables.secondary, cur) {
            -1
        } else {
            0
        };
        let quotes: i64 = if self.quote_balanced(s, ci) {
            1
        } else {
            0
        };
        let complete: i64 = if self.word_complete(s, ci) {
            1
        } else {
            0
        };
        let lower_next: i64 = if ci + 1 < n && scalar_is_lowercase(s[ci + 1]) {
            1
        } else {
            0
        };
        let list: i64 = if self.list_item(s, starts, ci) {
            1
        } else {
            0
        };
        let semicolon: i64 = if self.semicolon_list(s, ci) {
            1
        } else {
            0
        };
        let colon: i64 = if self.near_colon(s, ci) {
            1
        } else {
            0
        };
        let c = vec![abbreviation, terminator, quotes, complete, lower_next, list, semicolon, colon];
        assert(c@ =~= Seq::new(8, |j: int| self.channel(s@, starts@, ci as int, j)));
        c
    }

    fn row_for(&self, s: &Vec<u32>, starts: &Vec<BytePos>, ci: usize) -> (row: Vec<i64>)
        requires
            ci < s@.len(),
            starts@.len() == s@.len(),
            self.spec_width() <= usize::MAX,
        ensures
            row@ == self.row_spec(s@, starts@, ci as int),
    {
        let mut row = self.window_codes(s, ci);
        let mut c = self.channels(s, starts, ci);
        row.append(&mut c);
        assert(row@ =~= self.row_spec(s@, starts@, ci as int));
        row
    }

    /// The row of the candidate at byte `position` of a decoded text; an
    /// error when no scalar starts there.
    pub fn row_at(&self, view: &Utf8ScalarView, position: usize) -> (r: Result<Vec<i64>, FeatureError>)
        requires
            strictly_increasing(view.scalar_starts@),
            view.scalar_values@.len() == view.scalar_starts@.len(),
            self.spec_width() <= usize::MAX,
        ensures
            r.is_ok() == exists|ci: int| #[trigger] scalar_index_is(view.scalar_starts@, position as int, ci),
            r matches Ok(row) ==> exists|ci: int|
                #[trigger] scalar_index_is(view.scalar_starts@, position as int, ci) && row@ == self.row_spec(
                    view.scalar_values@,
                    view.scalar_starts@,
                    ci,
                ),
            r matches Err(e) ==> e.message_view() == "candidate position is not a UTF-8 scalar start"@,
    {
        let starts = &view.scalar_starts;
        match scalar_index_at_or_before(starts.as_slice(), position) {
            Some(ci) => {
                if starts[ci].as_usize() == position {
                    let row = self.row_for(&view.scalar_values, starts, ci);
                    assert(scalar_index_is(starts@, position as int, ci as int));
                    Ok(row)
                } else {
                    proof {
                        assert forall|c: int| !#[trigger] scalar_index_is(starts@, position as int, c) by {
                            if 0 <= c < starts@.len() && c < ci {
                                assert(starts@[c].0 < starts@[ci as int].0);
                            }
                        }
                    }
                    Err(FeatureError::new("candidate position is not a UTF-8 scalar start"))
                }
            },
            None => Err(FeatureError::new("candidate position is not a UTF-8 scalar start")),
        }
    }
}

impl CharBoundaryLegacyAppender {
    /// `row` is the row of the candidate at byte `position`.
    pub open spec fn row_matches(&self, starts: Seq<BytePos>, vals: Seq<u32>, position: int, row: Seq<i64>) -> bool {
        exists|ci: int| #[trigger] scalar_index_is(starts, position, ci) && row == self.row_spec(vals, starts, ci)
    }

    /// Column `left + right + 5` of a row (channel 4) is 1 when the scalar
    /// right after the candidate exists and is lower case, and 0 otherwise.
    pub proof fn lemma_next_lower_column(&self, s: Seq<u32>, starts: Seq<BytePos>, ci: int)
        requires
            0 <= ci < s.len(),
        ensures
            ({
                let row = self.row_spec(s, starts, ci);
                let k = self.left() + self.right() + 5;
                &&& 0 <= k < row.len()
                &&& row[k] == 1 || row[k] == 0
                &&& (row[k] == 1) == (ci + 1 < s.len() && lowercase(s[ci + 1]))
            }),
    {
    }

    /// Column `left + right + 8` of a row (channel 7) is 1 when a `:` is among
    /// the (up to) ten scalars just before the candidate, and 0 otherwise.
    pub proof fn lemma_near_colon_column(&self, s: Seq<u32>, starts: Seq<BytePos>, ci: int)
        requires
            0 <= ci < s.len(),
        ensures
            ({
                let row = self.row_spec(s, starts, ci);
                let k = self.left() + self.right() + 8;
                &&& 0 <= k < row.len()
                &&& row[k] == 1 || row[k] == 0
                &&& (row[k] == 1) == exists|i: int| ci - 10 <= i < ci && 0 <= i && #[trigger] s[i] == 0x3A
            }),
    {
        lemma_count_equal_positive(s, back_from(ci, 10), ci, 0x3A);
    }

    /// In every row that `rows` gives, the column of channel 4 is 1 exactly
    /// when the scalar right after the candidate exists and is lower case.
    pub proof fn lemma_rows_flag_lower_case_next(
        &self,
        starts: Seq<BytePos>,
        vals: Seq<u32>,
        position: int,
        row: Seq<i64>,
        ci: int,
    )
        requires
            strictly_increasing(starts),
            vals.len() == starts.len(),
            self.row_matches(starts, vals, position, row),
            scalar_index_is(starts, position, ci),
        ensures
            ({
                let k = self.left() + self.right() + 5;
                &&& 0 <= k < row.len()
                &&& (row[k] == 1) == (ci + 1 < vals.len() && lowercase(vals[ci + 1]))
                &&& row[k] == 1 || row[k] == 0
            }),
    {
        let c = choose|c: int| #[trigger] scalar_index_is(starts, position, c) && row == self.row_spec(vals, starts, c);
        if c < ci {
            assert(starts[c].0 < starts[ci].0);
        } else if c > ci {
            assert(starts[ci].0 < starts[c].0);
        }
        self.lemma_next_lower_column(vals, starts, ci);
    }

    /// One row per candidate position of a UTF-8 text. Fails when the text
    /// is not UTF-8, or at the first position where no scalar starts.
    pub fn rows(&self, text: TextBytes<'_>, positions: CandidateSlice<'_>) -> (r: Result<
        Vec<Vec<i64>>,
        FeatureError,
    >)
        requires
            text@.len() <= u32::MAX,
            self.spec_width() <= usize::MAX,
        ensures
            r.is_err() == (!vstd::utf8::valid_utf8(text@) || exists|k: int|
                #![trigger positions.data@[k]]
                0 <= k < positions.data@.len() && !(positions.data@[k].0 < text@.len()
                    && is_scalar_start(text@, positions.data@[k].0 as int))),
            r matches Ok(rows) ==> exists|starts: Seq<BytePos>, vals: Seq<u32>|
                #[trigger] scalar_view_of(text@, starts, vals) && rows@.len() == positions.data@.len()
                    && forall|k: int|
                    0 <= k < rows@.len() ==> #[trigger] self.row_matches(
                        starts,
                        vals,
                        positions.data@[k].0 as int,
                        rows@[k]@,
                    ),
    {
        let t = match text.as_utf8_str() {
            Some(t) => t,
            None => {
                return Err(FeatureError::new("charboundary legacy appender requires valid UTF-8 text"));
            },
        };
        let view = Utf8ScalarView::decode(t);
        let ghost b = text@;
        let ghost starts = view.scalar_starts@;
        let ghost vals = view.scalar_values@;
        assert(scalar_view_of(b, starts, vals));
        let mut rows: Vec<Vec<i64>> = Vec::new();
        let mut k: usize = 0;
        while k < positions.data.len()
            invariant
                k <= positions.data@.len(),
                b == text@,
                starts == view.scalar_starts@,
                vals == view.scalar_values@,
                scalar_view_of(b, starts, vals),
                self.spec_width() <= usize::MAX,
                rows@.len() == k,
                forall|j: int|
                    #![trigger positions.data@[j]]
                    0 <= j < k ==> positions.data@[j].0 < b.len() && is_scalar_start(
                        b,
                        positions.data@[j].0 as int,
                    ),
                forall|j: int|
                    0 <= j < k ==> #[trigger] self.row_matches(
                        starts,
                        vals,
                        positions.data@[j].0 as int,
                        rows@[j]@,
                    ),
            decreases positions.data@.len() - k,
        {
            let p = positions.data[k];
            let row = match self.row_at(&view, p.as_usize()) {
                Ok(row) => row,
                Err(e) => {
                    proof {
                        let pk = p.0 as int;
                        if pk < b.len() && is_scalar_start(b, pk) {
                            let pred = |i: int| is_scalar_start(b, i);
                            assert(lists_exactly(starts, 0, b.len() as int, pred));
                            assert(pred(pk));
                            let c = choose|c: int| 0 <= c < starts.len() && #[trigger] starts[c].0 == pk;
                            assert(scalar_index_is(starts, pk, c));
                        }
                    }
                    return Err(e);
                },
            };
            let ghost before = rows@;
            let ghost ci = choose|ci: int|
                #[trigger] scalar_index_is(starts, p.0 as int, ci) && row@ == self.row_spec(vals, starts, ci);
            rows.push(row);
            proof {
                assert(starts[ci].0 < b.len() && is_scalar_start(b, starts[ci].0 as int));
                assert(rows@[k as int]@ == self.row_spec(vals, starts, ci));
                assert(scalar_index_is(starts, positions.data@[k as int].0 as int, ci));
                assert(self.row_matches(starts, vals, positions.data@[k as int].0 as int, rows@[k as int]@));
                assert forall|j: int| 0 <= j < k implies #[trigger] self.row_matches(
                    starts,
                    vals,
                    positions.data@[j].0 as int,
                    rows@[j]@,
                ) by {
                    assert(rows@[j] == before[j]);
                }
            }
            k = k + 1;
        }
        Ok(rows)
    }
}

} // verus!
