use vstd::prelude::*;
use vstd::string::StringSliceAdditionalSpecFns;
use vstd::utf8::*;

use crate::data::{lemma_lists_exactly_push, lists_exactly, BytePos, ScalarPos};
use crate::scalars::{
    decode_scalar_at, is_ascii_bytes, is_ascii_slice, is_scalar_start, is_valid_utf8,
    lemma_step_valid, scalar_at, scalar_width_at, tail,
};

verus! {

broadcast use vstd::utf8::encode_utf8_valid_utf8;

/// Canonical byte-oriented text view.
#[derive(Clone, Copy, Debug)]
pub struct TextBytes<'a> {
    bytes: &'a [u8],
    is_ascii: bool,
    is_utf8: bool,
}

impl<'a> View for TextBytes<'a> {
    type V = Seq<u8>;

    closed spec fn view(&self) -> Seq<u8> {
        self.bytes@
    }
}

/// Views `bytes` as UTF-8 text; `None` when the bytes are not well-formed UTF-8.
#[verifier::external_body]
fn str_from_utf8(bytes: &[u8]) -> (r: Option<&str>)
    ensures
        r.is_some() == valid_utf8(bytes@),
        r.is_some() ==> r.unwrap().spec_bytes() == bytes@,
{
    std::str::from_utf8(bytes).ok()
}

impl<'a> TextBytes<'a> {
    #[verifier::type_invariant]
    closed spec fn flags_agree(self) -> bool {
        &&& self.is_ascii == is_ascii_bytes(self.bytes@)
        &&& self.is_utf8 == valid_utf8(self.bytes@)
    }

    pub fn from_bytes(bytes: &'a [u8]) -> (text: Self)
        ensures
            text@ == bytes@,
    {
        TextBytes { bytes, is_ascii: is_ascii_slice(bytes), is_utf8: is_valid_utf8(bytes) }
    }

    pub fn from_utf8(text: &'a str) -> (t: Self)
        ensures
            t@ == text.spec_bytes(),
    {
        let bytes = text.as_bytes();
        TextBytes { bytes, is_ascii: is_ascii_slice(bytes), is_utf8: true }
    }

    pub fn bytes(self) -> (bytes: &'a [u8])
        ensures
            bytes@ == self@,
    {
        self.bytes
    }

    pub fn as_utf8_str(self) -> (s: Option<&'a str>)
        ensures
            s.is_some() == valid_utf8(self@),
            s.is_some() ==> s.unwrap().spec_bytes() == self@,
    {
        str_from_utf8(self.bytes)
    }

    pub fn len(self) -> (n: usize)
        ensures
            n == self@.len(),
    {
        self.bytes.len()
    }

    pub fn is_empty(self) -> (b: bool)
        ensures
            b == (self@.len() == 0),
    {
        self.bytes.len() == 0
    }

    pub fn is_ascii(self) -> (b: bool)
        ensures
            b == is_ascii_bytes(self@),
    {
        proof {
            use_type_invariant(self);
        }
        self.is_ascii
    }

    pub fn is_utf8(self) -> (b: bool)
        ensures
            b == valid_utf8(self@),
    {
        proof {
            use_type_invariant(self);
        }
        self.is_utf8
    }

    pub fn byte(self, index: usize) -> (b: Option<u8>)
        ensures
            b == (if index < self@.len() {
                Some(self@[index as int])
            } else {
                None
            }),
    {
        if index < self.bytes.len() {
            Some(self.bytes[index])
        } else {
            None
        }
    }

    /// The byte at `index`, or zero outside the text.
    pub fn padded_byte(self, index: isize) -> (b: u8)
        ensures
            b == padded_byte_spec(self@, index as int),
    {
        if index < 0 {
            return 0;
        }
        match self.byte(index as usize) {
            Some(b) => b,
            None => 0,
        }
    }
}

/// The byte at `index`, or zero outside `bytes`.
pub open spec fn padded_byte_spec(bytes: Seq<u8>, index: int) -> u8 {
    if 0 <= index < bytes.len() {
        bytes[index]
    } else {
        0
    }
}

/// ASCII-only execution view.
#[derive(Clone, Copy, Debug)]
pub struct AsciiByteView<'a> {
    bytes: &'a [u8],
}

impl<'a> View for AsciiByteView<'a> {
    type V = Seq<u8>;

    closed spec fn view(&self) -> Seq<u8> {
        self.bytes@
    }
}

impl<'a> AsciiByteView<'a> {
    pub fn try_new(text: TextBytes<'a>) -> (view: Option<Self>)
        ensures
            view.is_some() == is_ascii_bytes(text@),
            view.is_some() ==> view.unwrap()@ == text@,
    {
        if text.is_ascii() {
            Some(AsciiByteView { bytes: text.bytes() })
        } else {
            None
        }
    }

    pub fn bytes(self) -> (bytes: &'a [u8])
        ensures
            bytes@ == self@,
    {
        self.bytes
    }
}

/// Decoded UTF-8 scalar side table.
#[derive(Clone, Debug, Default)]
pub struct Utf8ScalarView {
    pub scalar_starts: Vec<BytePos>,
    pub scalar_values: Vec<u32>,
}

impl Utf8ScalarView {
    /// Lists the byte offset and value of every scalar of `text`, in order.
    pub fn decode(text: &str) -> (view: Self)
        requires
            text.spec_bytes().len() <= u32::MAX,
        ensures
            lists_exactly(
                view.scalar_starts@,
                0,
                text.spec_bytes().len() as int,
                |i: int| is_scalar_start(text.spec_bytes(), i),
            ),
            view.scalar_values@.len() == view.scalar_starts@.len(),
            forall|k: int|
                0 <= k < view.scalar_values@.len() ==> #[trigger] view.scalar_values@[k]
                    == scalar_at(text.spec_bytes(), view.scalar_starts@[k].0 as int),
    {
        let bytes = text.as_bytes();
        let ghost b = bytes@;
        let n = bytes.len();
        let mut scalar_starts: Vec<BytePos> = Vec::new();
        let mut scalar_values: Vec<u32> = Vec::new();
        let mut i: usize = 0;
        assert(tail(b, 0) =~= b);
        while i < n
            invariant
                n == b.len(),
                n <= u32::MAX,
                b == bytes@,
                i <= n,
                valid_utf8(tail(b, i as int)),
                i == n || is_scalar_start(b, i as int),
                lists_exactly(scalar_starts@, 0, i as int, |j: int| is_scalar_start(b, j)),
                scalar_values@.len() == scalar_starts@.len(),
                forall|k: int|
                    0 <= k < scalar_values@.len() ==> #[trigger] scalar_values@[k] == scalar_at(
                        b,
                        scalar_starts@[k].0 as int,
                    ),
            decreases n - i,
        {
            let (value, width) = decode_scalar_at(bytes, i);
            let ghost before = scalar_starts@;
            scalar_starts.push(BytePos::from_usize(i));
            scalar_values.push(value);
            proof {
                let p = |j: int| is_scalar_start(b, j);
                assert forall|j: int| i < j < i + width implies !#[trigger] p(j) by {
                    assert(is_continuation_byte(b[j]));
                }
                lemma_lists_exactly_push(before, 0, i as int, i + width, p, i as u32);
                if i + width < n {
                    lemma_step_valid(b, i + width);
                }
            }
            i = i + width;
        }
        Utf8ScalarView { scalar_starts, scalar_values }
    }
}

} // verus!

verus! {

/// Number of scalar starts among the first `j` bytes of `b`.
pub open spec fn scalars_before(b: Seq<u8>, j: int) -> int
    decreases j,
{
    if j <= 0 {
        0
    } else {
        scalars_before(b, j - 1) + if is_scalar_start(b, j - 1) {
            1int
        } else {
            0int
        }
    }
}

/// Number of scalars of `b`, taken in order from byte `i` on, whose encoding
/// ends at or before byte `j`: the `(start, char)` pairs that `char_indices`
/// yields from `i` with `start + char.len_utf8() <= j`.
pub open spec fn scalars_ended_by(b: Seq<u8>, i: int, j: int) -> int
    decreases b.len() - i,
{
    if i < 0 || i >= b.len() || scalar_width_at(b, i) < 1 || i + scalar_width_at(b, i) > b.len() {
        0
    } else if i + scalar_width_at(b, i) <= j {
        1 + scalars_ended_by(b, i + scalar_width_at(b, i), j)
    } else {
        0
    }
}

/// True when `m` maps each byte offset of `b` to the index of the scalar that
/// holds it, and the end offset to the number of scalars.
pub open spec fn maps_bytes_to_scalars(m: Seq<u32>, b: Seq<u8>) -> bool {
    &&& m.len() == b.len() + 1
    &&& forall|i: int| 0 <= i < b.len() ==> #[trigger] m[i] == scalars_before(b, i + 1) - 1
    &&& m[b.len() as int] == scalars_before(b, b.len() as int)
}

/// Inside one scalar's encoding, every offset past its first byte has one more
/// scalar start before it than the first byte has.
proof fn lemma_scalars_before_within(b: Seq<u8>, i: int, w: int, k: int)
    requires
        is_scalar_start(b, i),
        i + w <= b.len(),
        forall|q: int| i < q < i + w ==> is_continuation_byte(#[trigger] b[q]),
        i < k <= i + w,
    ensures
        scalars_before(b, k) == scalars_before(b, i) + 1,
    decreases k - i,
{
    if k > i + 1 {
        lemma_scalars_before_within(b, i, w, k - 1);
        assert(is_continuation_byte(b[k - 1]));
    }
}

proof fn lemma_scalars_ended_by_from(b: Seq<u8>, i: int, j: int)
    requires
        0 <= i <= j <= b.len(),
        valid_utf8(tail(b, i)),
    ensures
        scalars_ended_by(b, i, j) == (if j == b.len() || is_scalar_start(b, j) {
            scalars_before(b, j)
        } else {
            scalars_before(b, j) - 1
        }) - scalars_before(b, i),
    decreases b.len() - i,
{
    if i < b.len() {
        lemma_step_valid(b, i);
        let w = scalar_width_at(b, i);
        if i + w <= j {
            lemma_scalars_before_within(b, i, w, i + w);
            lemma_scalars_ended_by_from(b, i + w, j);
        } else if j > i {
            lemma_scalars_before_within(b, i, w, j);
            assert(is_continuation_byte(b[j]));
        }
    }
}

/// The map that `ByteToCharMap::from_utf8` builds gives, at every byte offset
/// up to the text length, the number of scalars that end at or before it: a
/// scalar boundary maps to the number of scalars before it, and a byte inside
/// scalar `k` maps to `k`.
pub proof fn lemma_scalar_index_counts_ended_scalars(m: Seq<u32>, b: Seq<u8>, j: int)
    requires
        valid_utf8(b),
        maps_bytes_to_scalars(m, b),
        0 <= j <= b.len(),
    ensures
        m[j] == scalars_ended_by(b, 0, j),
{
    assert(tail(b, 0) =~= b);
    lemma_scalars_ended_by_from(b, 0, j);
    if j < b.len() {
        assert(m[j] == scalars_before(b, j + 1) - 1);
    }
}

/// Byte-to-scalar index map for edge APIs that count scalars.
#[derive(Clone, Debug, Default)]
pub struct ByteToCharMap {
    byte_to_scalar: Vec<u32>,
}

impl View for ByteToCharMap {
    type V = Seq<u32>;

    closed spec fn view(&self) -> Seq<u32> {
        self.byte_to_scalar@
    }
}

impl ByteToCharMap {
    /// Maps every byte offset to the index of the scalar it belongs to, and the
    /// end offset to the number of scalars.
    pub fn from_utf8(text: &str) -> (map: Self)
        requires
            text.spec_bytes().len() <= u32::MAX,
            text.spec_bytes().len() < usize::MAX,
        ensures
            maps_bytes_to_scalars(map@, text.spec_bytes()),
            forall|j: int|
                0 <= j <= text.spec_bytes().len() ==> #[trigger] map@[j] == scalars_ended_by(
                    text.spec_bytes(),
                    0,
                    j,
                ),
            map@.len() == text.spec_bytes().len() + 1,
            forall|i: int|
                0 <= i < text.spec_bytes().len() ==> #[trigger] map@[i] == scalars_before(
                    text.spec_bytes(),
                    i + 1,
                ) - 1,
            map@[text.spec_bytes().len() as int] == scalars_before(
                text.spec_bytes(),
                text.spec_bytes().len() as int,
            ),
    {
        let bytes = text.as_bytes();
        let ghost b = bytes@;
        let n = bytes.len();
        let mut byte_to_scalar: Vec<u32> = vec![0u32; n + 1];
        let mut i: usize = 0;
        let mut count: u32 = 0;
        assert(tail(b, 0) =~= b);
        while i < n
            invariant
                n == b.len(),
                n <= u32::MAX,
                n < usize::MAX,
                b == bytes@,
                i <= n,
                valid_utf8(tail(b, i as int)),
                i == n || is_scalar_start(b, i as int),
                count == scalars_before(b, i as int),
                count <= i,
                byte_to_scalar@.len() == n + 1,
                forall|j: int| 0 <= j < i ==> #[trigger] byte_to_scalar@[j] == scalars_before(b, j + 1) - 1,
                byte_to_scalar@[i as int] == count,
            decreases n - i,
        {
            let (_value, width) = decode_scalar_at(bytes, i);
            let end = i + width;
            let mut slot = i;
            while slot < end
                invariant
                    n == b.len(),
                    b == bytes@,
                    i < end <= n,
                    i <= slot <= end,
                    end == i + width,
                    is_scalar_start(b, i as int),
                    forall|k: int| i < k < end ==> is_continuation_byte(#[trigger] b[k]),
                    count == scalars_before(b, i as int),
                    count <= i,
                    n <= u32::MAX,
                    byte_to_scalar@.len() == n + 1,
                    forall|j: int| 0 <= j < slot ==> #[trigger] byte_to_scalar@[j] == scalars_before(b, j + 1) - 1,
                    slot > i ==> scalars_before(b, slot as int) == count + 1,
                decreases end - slot,
            {
                byte_to_scalar[slot] = count;
                proof {
                    if slot > i {
                        assert(is_continuation_byte(b[slot as int]));
                    }
                    assert(scalars_before(b, slot + 1) == count + 1);
                }
                slot = slot + 1;
            }
            count = count + 1;
            byte_to_scalar[end] = count;
            proof {
                if end < n {
                    lemma_step_valid(b, end as int);
                }
            }
            i = end;
        }
        proof {
            assert(b == encode_utf8(text@));
            assert forall|j: int| 0 <= j <= b.len() implies #[trigger] byte_to_scalar@[j]
                == scalars_ended_by(b, 0, j) by {
                lemma_scalar_index_counts_ended_scalars(byte_to_scalar@, b, j);
            }
        }
        ByteToCharMap { byte_to_scalar }
    }

    pub fn scalar_index_of(&self, byte_offset: usize) -> (pos: Option<ScalarPos>)
        ensures
            pos == (if byte_offset < self@.len() {
                Some(ScalarPos(self@[byte_offset as int]))
            } else {
                None
            }),
    {
        if byte_offset < self.byte_to_scalar.len() {
            Some(ScalarPos(self.byte_to_scalar[byte_offset]))
        } else {
            None
        }
    }
}

} // verus!
