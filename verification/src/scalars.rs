use vstd::prelude::*;
use vstd::utf8::*;

verus! {

/// The bytes of `b` from offset `i` to the end.
pub open spec fn tail(b: Seq<u8>, i: int) -> Seq<u8> {
    b.subrange(i, b.len() as int)
}

/// True when byte `i` of `b` begins a scalar's encoding (it is not a continuation byte).
pub open spec fn is_scalar_start(b: Seq<u8>, i: int) -> bool {
    0 <= i < b.len() && !is_continuation_byte(b[i])
}

/// The scalar value whose encoding begins at byte `i`.
pub open spec fn scalar_at(b: Seq<u8>, i: int) -> u32 {
    decode_first_scalar(tail(b, i))
}

/// The number of bytes of the scalar whose encoding begins at byte `i`.
pub open spec fn scalar_width_at(b: Seq<u8>, i: int) -> int {
    length_of_first_scalar(tail(b, i))
}

/// True when every byte of `b` is an ASCII byte.
pub open spec fn is_ascii_bytes(b: Seq<u8>) -> bool {
    forall|i: int| 0 <= i < b.len() ==> b[i] < 128
}

/// An ASCII byte encodes the scalar with its own value.
pub proof fn lemma_scalar_at_ascii(b: Seq<u8>, i: int)
    requires
        0 <= i < b.len(),
        b[i] < 0x80,
    ensures
        scalar_at(b, i) == b[i] as u32,
{
    let x = b[i];
    assert(tail(b, i)[0] == x);
    assert((x & 0x7F) as u32 == x as u32) by (bit_vector)
        requires
            x < 0x80u8,
    ;
}

/// The bytes `E2 80 A2` encode `•` (U+2022).
pub proof fn lemma_scalar_at_bullet(b: Seq<u8>, i: int)
    requires
        0 <= i,
        i + 2 < b.len(),
        b[i] == 0xE2,
        b[i + 1] == 0x80,
        b[i + 2] == 0xA2,
    ensures
        scalar_at(b, i) == 0x2022,
{
    let t = tail(b, i);
    assert(t[0] == 0xE2u8 && t[1] == 0x80u8 && t[2] == 0xA2u8);
    let x = t[0];
    let y = t[1];
    let z = t[2];
    assert(((((x & 0x0F) as u32) << 12u32) | (((y & 0x3F) as u32) << 6u32) | ((z & 0x3F) as u32)) == 0x2022u32) by (bit_vector)
        requires
            x == 0xE2u8,
            y == 0x80u8,
            z == 0xA2u8,
    ;
}

/// Taking one scalar off a valid tail leaves a valid tail.
pub proof fn lemma_step_valid(b: Seq<u8>, i: int)
    requires
        0 <= i < b.len(),
        valid_utf8(tail(b, i)),
    ensures
        valid_first_scalar(tail(b, i)),
        1 <= scalar_width_at(b, i) <= 4,
        i + scalar_width_at(b, i) <= b.len(),
        valid_utf8(tail(b, i + scalar_width_at(b, i))),
        !is_continuation_byte(b[i]),
        forall|k: int| i < k < i + scalar_width_at(b, i) ==> is_continuation_byte(#[trigger] b[k]),
{
    let t = tail(b, i);
    assert(t.len() > 0);
    assert(valid_first_scalar(t) && valid_utf8(pop_first_scalar(t)));
    let n = length_of_first_scalar(t);
    assert(pop_first_scalar(t) =~= tail(b, i + n));
    assert(t[0] == b[i]);
    assert forall|k: int| i < k < i + n implies is_continuation_byte(#[trigger] b[k]) by {
        assert(t[k - i] == b[k]);
    }
}

/// Length of a valid scalar encoding at the front of `tail(b, i)`, if there is one.
pub fn first_scalar_width(bytes: &[u8], i: usize) -> (r: Option<usize>)
    requires
        i < bytes@.len(),
    ensures
        r.is_some() == valid_first_scalar(tail(bytes@, i as int)),
        r.is_some() ==> r.unwrap() == scalar_width_at(bytes@, i as int),
{
    let ghost t = tail(bytes@, i as int);
    let n = bytes.len();
    assert(t[0] == bytes@[i as int]);
    let b0 = bytes[i];
    if b0 <= 0x7f {
        return Some(1);
    }
    if b0 >= 0xc0 && b0 <= 0xdf {
        if n - i <= 1 {
            return None;
        }
        let b1 = bytes[i + 1];
        assert(t[1] == b1);
        if !(b1 >= 0x80 && b1 <= 0xbf) {
            return None;
        }
        let cp: u32 = ((b0 & 0x1F) as u32) << 6 | ((b1 & 0x3F) as u32);
        assert(cp == decode_first_codepoint(t));
        if cp < 0x80 {
            return None;
        }
        if cp >= 0xD800 && cp <= 0xDFFF {
            return None;
        }
        return Some(2);
    }
    if b0 >= 0xe0 && b0 <= 0xef {
        if n - i <= 2 {
            return None;
        }
        let b1 = bytes[i + 1];
        let b2 = bytes[i + 2];
        assert(t[1] == b1 && t[2] == b2);
        if !(b1 >= 0x80 && b1 <= 0xbf) || !(b2 >= 0x80 && b2 <= 0xbf) {
            return None;
        }
        let cp: u32 = ((b0 & 0x0F) as u32) << 12 | ((b1 & 0x3F) as u32) << 6 | ((b2 & 0x3F) as u32);
        assert(cp == decode_first_codepoint(t));
        if cp < 0x800 {
            return None;
        }
        if cp >= 0xD800 && cp <= 0xDFFF {
            return None;
        }
        return Some(3);
    }
    if b0 >= 0xf0 && b0 <= 0xf7 {
        if n - i <= 3 {
            return None;
        }
        let b1 = bytes[i + 1];
        let b2 = bytes[i + 2];
        let b3 = bytes[i + 3];
        assert(t[1] == b1 && t[2] == b2 && t[3] == b3);
        if !(b1 >= 0x80 && b1 <= 0xbf) || !(b2 >= 0x80 && b2 <= 0xbf) || !(b3 >= 0x80 && b3 <= 0xbf) {
            return None;
        }
        let cp: u32 = ((b0 & 0x07) as u32) << 18 | ((b1 & 0x3F) as u32) << 12 | ((b2 & 0x3F) as u32) << 6
            | ((b3 & 0x3F) as u32);
        assert(cp == decode_first_codepoint(t));
        if cp < 0x10000 || cp > 0x10ffff {
            return None;
        }
        if cp >= 0xD800 && cp <= 0xDFFF {
            return None;
        }
        return Some(4);
    }
    None
}

/// Decodes the scalar whose encoding begins at byte `i` of valid UTF-8.
pub fn decode_scalar_at(bytes: &[u8], i: usize) -> (r: (u32, usize))
    requires
        i < bytes@.len(),
        valid_utf8(tail(bytes@, i as int)),
    ensures
        r.0 == scalar_at(bytes@, i as int),
        r.1 == scalar_width_at(bytes@, i as int),
        1 <= r.1 <= 4,
        i + r.1 <= bytes@.len(),
        valid_utf8(tail(bytes@, i + r.1)),
        !is_continuation_byte(bytes@[i as int]),
        forall|k: int| i < k < i + r.1 ==> is_continuation_byte(#[trigger] bytes@[k]),
{
    proof {
        lemma_step_valid(bytes@, i as int);
    }
    let ghost t = tail(bytes@, i as int);
    assert(t[0] == bytes@[i as int]);
    let b0 = bytes[i];
    if b0 <= 0x7f {
        ((b0 & 0x7F) as u32, 1)
    } else if b0 <= 0xdf {
        let b1 = bytes[i + 1];
        assert(t[1] == b1);
        (((b0 & 0x1F) as u32) << 6 | ((b1 & 0x3F) as u32), 2)
    } else if b0 <= 0xef {
        let b1 = bytes[i + 1];
        let b2 = bytes[i + 2];
        assert(t[1] == b1 && t[2] == b2);
        (((b0 & 0x0F) as u32) << 12 | ((b1 & 0x3F) as u32) << 6 | ((b2 & 0x3F) as u32), 3)
    } else {
        let b1 = bytes[i + 1];
        let b2 = bytes[i + 2];
        let b3 = bytes[i + 3];
        assert(t[1] == b1 && t[2] == b2 && t[3] == b3);
        (((b0 & 0x07) as u32) << 18 | ((b1 & 0x3F) as u32) << 12 | ((b2 & 0x3F) as u32) << 6
            | ((b3 & 0x3F) as u32), 4)
    }
}

/// Checks whether `bytes` is well-formed UTF-8.
pub fn is_valid_utf8(bytes: &[u8]) -> (ok: bool)
    ensures
        ok == valid_utf8(bytes@),
{
    let n = bytes.len();
    let mut i: usize = 0;
    assert(tail(bytes@, 0) =~= bytes@);
    while i < n
        invariant
            n == bytes@.len(),
            i <= n,
            valid_utf8(bytes@) == valid_utf8(tail(bytes@, i as int)),
        decreases n - i,
    {
        let w = first_scalar_width(bytes, i);
        match w {
            None => {
                assert(tail(bytes@, i as int).len() > 0);
                return false;
            },
            Some(k) => {
                let ghost t = tail(bytes@, i as int);
                assert(pop_first_scalar(t) =~= tail(bytes@, i + k));
                i = i + k;
            },
        }
    }
    assert(tail(bytes@, i as int).len() == 0);
    true
}

/// Checks whether every byte is ASCII.
pub fn is_ascii_slice(bytes: &[u8]) -> (ok: bool)
    ensures
        ok == is_ascii_bytes(bytes@),
{
    let n = bytes.len();
    let mut i: usize = 0;
    while i < n
        invariant
            n == bytes@.len(),
            i <= n,
            forall|j: int| 0 <= j < i ==> bytes@[j] < 128,
        decreases n - i,
    {
        if bytes[i] >= 128 {
            return false;
        }
        i = i + 1;
    }
    true
}

} // verus!
