use vstd::prelude::*;

verus! {

/// `s` with every repeated byte removed, keeping first occurrences in order.
pub open spec fn dedup_first(s: Seq<u8>) -> Seq<u8>
    decreases s.len(),
{
    if s.len() == 0 {
        Seq::empty()
    } else {
        let prefix = dedup_first(s.drop_last());
        if prefix.contains(s.last()) {
            prefix
        } else {
            prefix.push(s.last())
        }
    }
}

/// Reusable 256-byte membership table.
#[derive(Debug)]
pub struct ByteSet256 {
    table: [u8; 256],
    members: Vec<u8>,
}

impl View for ByteSet256 {
    type V = Seq<u8>;

    /// The distinct member bytes, in the order they were first given.
    closed spec fn view(&self) -> Seq<u8> {
        self.members@
    }
}

impl ByteSet256 {
    #[verifier::type_invariant]
    closed spec fn table_matches_members(self) -> bool {
        &&& forall|b: u8| (#[trigger] self.table@[b as int] != 0) == self.members@.contains(b)
        &&& self.members@.no_duplicates()
    }

    pub fn from_bytes(bytes: &[u8]) -> (set: Self)
        ensures
            set@ == dedup_first(bytes@),
    {
        let mut table = [0u8; 256];
        let mut members: Vec<u8> = Vec::new();
        let n = bytes.len();
        let mut i: usize = 0;
        assert(bytes@.subrange(0, 0) =~= Seq::<u8>::empty());
        while i < n
            invariant
                n == bytes@.len(),
                i <= n,
                members@ == dedup_first(bytes@.subrange(0, i as int)),
                forall|b: u8| (#[trigger] table@[b as int] != 0) == members@.contains(b),
                members@.no_duplicates(),
            decreases n - i,
        {
            let byte = bytes[i];
            let ghost prefix = bytes@.subrange(0, i as int);
            assert(bytes@.subrange(0, i + 1).drop_last() =~= prefix);
            assert(bytes@.subrange(0, i + 1).last() == byte);
            if table[byte as usize] == 0 {
                let ghost old_table = table@;
                let ghost old_members = members@;
                table[byte as usize] = 1;
                members.push(byte);
                assert(members@ == old_members.push(byte));
                assert forall|b: u8| (#[trigger] table@[b as int] != 0) == members@.contains(b) by {
                    assert(table@[b as int] == if b == byte { 1u8 } else { old_table[b as int] });
                    if members@.contains(b) && b != byte {
                        let k = choose|k: int| 0 <= k < members@.len() && members@[k] == b;
                        assert(k < old_members.len());
                        assert(old_members[k] == b);
                    }
                    if old_members.contains(b) {
                        let k = choose|k: int| 0 <= k < old_members.len() && old_members[k] == b;
                        assert(members@[k] == b);
                    }
                    if b == byte {
                        assert(members@[members@.len() - 1] == b);
                    }
                }
            }
            i = i + 1;
        }
        assert(bytes@.subrange(0, n as int) =~= bytes@);
        ByteSet256 { table, members }
    }

    pub fn contains(&self, byte: u8) -> (b: bool)
        ensures
            b == self@.contains(byte),
    {
        proof {
            use_type_invariant(self);
        }
        self.table[byte as usize] != 0
    }

    pub fn members(&self) -> (m: &[u8])
        ensures
            m@ == self@,
            m@.no_duplicates(),
    {
        proof {
            use_type_invariant(self);
        }
        self.members.as_slice()
    }
}

pub open spec fn is_ascii_whitespace_byte(b: u8) -> bool {
    b == 0x20 || b == 0x09 || b == 0x0A || b == 0x0C || b == 0x0D
}

pub open spec fn is_ascii_upper_byte(b: u8) -> bool {
    0x41 <= b <= 0x5A
}

pub open spec fn is_ascii_lower_byte(b: u8) -> bool {
    0x61 <= b <= 0x7A
}

pub open spec fn is_ascii_digit_byte(b: u8) -> bool {
    0x30 <= b <= 0x39
}

pub open spec fn is_ascii_punct_byte(b: u8) -> bool {
    (0x21 <= b <= 0x2F) || (0x3A <= b <= 0x40) || (0x5B <= b <= 0x60) || (0x7B <= b <= 0x7E)
}

/// The class bits recorded for `b`: whitespace 1, upper 2, lower 4, digit 8, punctuation 16.
pub open spec fn class_flags(b: u8) -> u8 {
    ((if is_ascii_whitespace_byte(b) { 1u8 } else { 0u8 }) | (if is_ascii_upper_byte(b) {
        2u8
    } else {
        0u8
    }) | (if is_ascii_lower_byte(b) { 4u8 } else { 0u8 }) | (if is_ascii_digit_byte(b) {
        8u8
    } else {
        0u8
    }) | (if is_ascii_punct_byte(b) { 16u8 } else { 0u8 }))
}

proof fn lemma_flag_bits(ws: bool, up: bool, lo: bool, di: bool, pu: bool)
    ensures
        ({
            let f = ((if ws { 1u8 } else { 0u8 }) | (if up { 2u8 } else { 0u8 }) | (if lo {
                4u8
            } else {
                0u8
            }) | (if di { 8u8 } else { 0u8 }) | (if pu { 16u8 } else { 0u8 }));
            &&& (f & 1u8 != 0) == ws
            &&& (f & 2u8 != 0) == up
            &&& (f & 4u8 != 0) == lo
            &&& (f & 8u8 != 0) == di
            &&& (f & 16u8 != 0) == pu
            &&& (f & 6u8 != 0) == (up || lo)
            &&& (f & 14u8 != 0) == (up || lo || di)
        }),
{
    let a: u8 = if ws { 1u8 } else { 0u8 };
    let b: u8 = if up { 2u8 } else { 0u8 };
    let c: u8 = if lo { 4u8 } else { 0u8 };
    let d: u8 = if di { 8u8 } else { 0u8 };
    let e: u8 = if pu { 16u8 } else { 0u8 };
    assert(((a == 0u8 || a == 1u8) && (b == 0u8 || b == 2u8) && (c == 0u8 || c == 4u8) && (d == 0u8
        || d == 8u8) && (e == 0u8 || e == 16u8)) ==> {
        let f = a | b | c | d | e;
        &&& (f & 1u8 != 0) == (a != 0u8)
        &&& (f & 2u8 != 0) == (b != 0u8)
        &&& (f & 4u8 != 0) == (c != 0u8)
        &&& (f & 8u8 != 0) == (d != 0u8)
        &&& (f & 16u8 != 0) == (e != 0u8)
        &&& (f & 6u8 != 0) == (b != 0u8 || c != 0u8)
        &&& (f & 14u8 != 0) == (b != 0u8 || c != 0u8 || d != 0u8)
    }) by (bit_vector);
}

/// Cheap ASCII byte-class table used by feature appenders.
#[derive(Debug)]
pub struct AsciiClassTable {
    table: [u8; 256],
}

impl View for AsciiClassTable {
    type V = Seq<u8>;

    /// The class bits of every byte value.
    closed spec fn view(&self) -> Seq<u8> {
        self.table@
    }
}

impl AsciiClassTable {
    #[verifier::type_invariant]
    closed spec fn table_holds_flags(self) -> bool {
        forall|b: u8| #[trigger] self.table@[b as int] == class_flags(b)
    }

    fn flags_of(byte: u8) -> (f: u8)
        ensures
            f == class_flags(byte),
    {
        let ws = byte == 0x20 || byte == 0x09 || byte == 0x0A || byte == 0x0C || byte == 0x0D;
        let up = byte >= 0x41 && byte <= 0x5A;
        let lo = byte >= 0x61 && byte <= 0x7A;
        let di = byte >= 0x30 && byte <= 0x39;
        let pu = (byte >= 0x21 && byte <= 0x2F) || (byte >= 0x3A && byte <= 0x40) || (byte >= 0x5B
            && byte <= 0x60) || (byte >= 0x7B && byte <= 0x7E);
        (if ws { 1u8 } else { 0u8 }) | (if up { 2u8 } else { 0u8 }) | (if lo { 4u8 } else { 0u8 })
            | (if di { 8u8 } else { 0u8 }) | (if pu { 16u8 } else { 0u8 })
    }

    pub fn is_space(&self, byte: u8) -> (b: bool)
        ensures
            b == is_ascii_whitespace_byte(byte),
    {
        proof {
            use_type_invariant(self);
            lemma_flag_bits(is_ascii_whitespace_byte(byte), is_ascii_upper_byte(byte), is_ascii_lower_byte(byte), is_ascii_digit_byte(byte), is_ascii_punct_byte(byte));
        }
        self.table[byte as usize] & 1u8 != 0
    }

    pub fn is_upper(&self, byte: u8) -> (b: bool)
        ensures
            b == is_ascii_upper_byte(byte),
    {
        proof {
            use_type_invariant(self);
            lemma_flag_bits(is_ascii_whitespace_byte(byte), is_ascii_upper_byte(byte), is_ascii_lower_byte(byte), is_ascii_digit_byte(byte), is_ascii_punct_byte(byte));
        }
        self.table[byte as usize] & 2u8 != 0
    }

    pub fn is_lower(&self, byte: u8) -> (b: bool)
        ensures
            b == is_ascii_lower_byte(byte),
    {
        proof {
            use_type_invariant(self);
            lemma_flag_bits(is_ascii_whitespace_byte(byte), is_ascii_upper_byte(byte), is_ascii_lower_byte(byte), is_ascii_digit_byte(byte), is_ascii_punct_byte(byte));
        }
        self.table[byte as usize] & 4u8 != 0
    }

    pub fn is_digit(&self, byte: u8) -> (b: bool)
        ensures
            b == is_ascii_digit_byte(byte),
    {
        proof {
            use_type_invariant(self);
            lemma_flag_bits(is_ascii_whitespace_byte(byte), is_ascii_upper_byte(byte), is_ascii_lower_byte(byte), is_ascii_digit_byte(byte), is_ascii_punct_byte(byte));
        }
        self.table[byte as usize] & 8u8 != 0
    }

    pub fn is_alpha(&self, byte: u8) -> (b: bool)
        ensures
            b == (is_ascii_upper_byte(byte) || is_ascii_lower_byte(byte)),
    {
        proof {
            use_type_invariant(self);
            lemma_flag_bits(is_ascii_whitespace_byte(byte), is_ascii_upper_byte(byte), is_ascii_lower_byte(byte), is_ascii_digit_byte(byte), is_ascii_punct_byte(byte));
        }
        self.table[byte as usize] & 6u8 != 0
    }

    pub fn is_alnum(&self, byte: u8) -> (b: bool)
        ensures
            b == (is_ascii_upper_byte(byte) || is_ascii_lower_byte(byte) || is_ascii_digit_byte(
                byte,
            )),
    {
        proof {
            use_type_invariant(self);
            lemma_flag_bits(is_ascii_whitespace_byte(byte), is_ascii_upper_byte(byte), is_ascii_lower_byte(byte), is_ascii_digit_byte(byte), is_ascii_punct_byte(byte));
        }
        self.table[byte as usize] & 14u8 != 0
    }

    pub fn is_punct(&self, byte: u8) -> (b: bool)
        ensures
            b == is_ascii_punct_byte(byte),
    {
        proof {
            use_type_invariant(self);
            lemma_flag_bits(is_ascii_whitespace_byte(byte), is_ascii_upper_byte(byte), is_ascii_lower_byte(byte), is_ascii_digit_byte(byte), is_ascii_punct_byte(byte));
        }
        self.table[byte as usize] & 16u8 != 0
    }
}

impl Clone for ByteSet256 {
    fn clone(&self) -> (c: Self)
        ensures
            c@ == self@,
    {
        proof {
            use_type_invariant(self);
        }
        let members = self.members.clone();
        assert(members@ =~= self.members@);
        ByteSet256 { table: self.table, members }
    }
}

impl Clone for AsciiClassTable {
    fn clone(&self) -> (c: Self)
        ensures
            c@ == self@,
    {
        proof {
            use_type_invariant(self);
        }
        AsciiClassTable { table: self.table }
    }
}

impl Default for AsciiClassTable {
    fn default() -> (t: Self)
        ensures
            forall|b: u8| #[trigger] t@[b as int] == class_flags(b),
    {
        let mut table = [0u8; 256];
        let mut i: usize = 0;
        while i < 256
            invariant
                i <= 256,
                forall|b: u8| (b as int) < i ==> #[trigger] table@[b as int] == class_flags(b),
            decreases 256 - i,
        {
            table[i] = Self::flags_of(i as u8);
            i = i + 1;
        }
        AsciiClassTable { table }
    }
}

} // verus!
