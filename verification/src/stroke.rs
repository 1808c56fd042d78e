//! Steno strokes on the English layout (#STKPWHRAO*EUFRPBLGTSDZ).
use crate::text::string_push;
use vstd::prelude::*;

verus! {

/// Number of keys on the English layout.
pub const KEY_COUNT: usize = 23;

/// Human readable key for each bit position, starting with the most significant bit.
pub open spec fn spec_keymap(index: int) -> char {
    if index == 0 { '#' }
    else if index == 1 { 'S' }
    else if index == 2 { 'T' }
    else if index == 3 { 'K' }
    else if index == 4 { 'P' }
    else if index == 5 { 'W' }
    else if index == 6 { 'H' }
    else if index == 7 { 'R' }
    else if index == 8 { 'A' }
    else if index == 9 { 'O' }
    else if index == 10 { '*' }
    else if index == 11 { 'E' }
    else if index == 12 { 'U' }
    else if index == 13 { 'F' }
    else if index == 14 { 'R' }
    else if index == 15 { 'P' }
    else if index == 16 { 'B' }
    else if index == 17 { 'L' }
    else if index == 18 { 'G' }
    else if index == 19 { 'T' }
    else if index == 20 { 'S' }
    else if index == 21 { 'D' }
    else { 'Z' }
}

fn keymap(index: usize) -> (c: char)
    requires
        index < KEY_COUNT,
    ensures
        c == spec_keymap(index as int),
{
    match index {
        0 => '#',
        1 => 'S',
        2 => 'T',
        3 => 'K',
        4 => 'P',
        5 => 'W',
        6 => 'H',
        7 => 'R',
        8 => 'A',
        9 => 'O',
        10 => '*',
        11 => 'E',
        12 => 'U',
        13 => 'F',
        14 => 'R',
        15 => 'P',
        16 => 'B',
        17 => 'L',
        18 => 'G',
        19 => 'T',
        20 => 'S',
        21 => 'D',
        _ => 'Z',
    }
}

/// Number of set bits in a byte.
pub open spec fn popcount(b: u8) -> nat {
    popcount_below(b, 8)
}

/// Number of set bits among the `n` least significant bits of `b`.
pub open spec fn popcount_below(b: u8, n: nat) -> nat
    decreases n,
{
    if n == 0 {
        0
    } else {
        popcount_below(b, (n - 1) as nat) + (if (b >> ((n - 1) as u8)) & 1 == 1 { 1nat } else { 0nat })
    }
}

/// Sum of multiple key-presses which occurred simultaneously.
///
/// The 23 keys occupy the 23 most significant bits of the three bytes, in layout order;
/// the least significant bit of the last byte is unused.
#[derive(Clone, Copy, PartialEq, Eq, Hash, Debug)]
pub struct EnglishStroke(pub [u8; 3]);

/// Whether the key with the given layout index is pressed in the given bytes.
pub open spec fn bytes_key(bytes: [u8; 3], index: int) -> bool {
    (bytes[index / 8] >> ((7 - index % 8) as u8)) & 1 == 1
}

impl EnglishStroke {
    /// Whether the key with the given layout index (0 = `#`, 22 = `-Z`) is pressed.
    pub open spec fn key(self, index: int) -> bool {
        bytes_key(self.0, index)
    }

    /// The stroke contains one of the keys `A O * E U`.
    pub open spec fn spec_contains_vowel(self) -> bool {
        self.0[1] & 0b11111000 != 0
    }

    /// The unused trailing bit is clear.
    pub open spec fn is_well_formed(self) -> bool {
        self.0[2] & 1 == 0
    }

    /// What the key at `index` contributes to the human readable form.
    pub open spec fn text_piece(self, index: int) -> Seq<char> {
        let dash = if !self.spec_contains_vowel() && index == 13 { seq!['-'] } else { Seq::empty() };
        let key = if index < 23 && self.key(index) { seq![spec_keymap(index)] } else { Seq::empty() };
        dash + key
    }

    /// Human readable form of the keys `0..n`.
    pub open spec fn text_upto(self, n: nat) -> Seq<char>
        decreases n,
    {
        if n == 0 {
            Seq::empty()
        } else {
            self.text_upto((n - 1) as nat) + self.text_piece(n - 1)
        }
    }

    /// Human readable form of the stroke, such as `H-P` or `STOP`.
    pub open spec fn text(self) -> Seq<char> {
        self.text_upto(24)
    }

    /// Bitwise union of two strokes.
    pub open spec fn spec_union(self, rhs: Self) -> Self {
        EnglishStroke([self.0[0] | rhs.0[0], self.0[1] | rhs.0[1], self.0[2] | rhs.0[2]])
    }

    /// Number of keys held down in this stroke.
    pub fn pressed_key_count(&self) -> (r: u32)
        ensures
            r == popcount(self.0[0]) + popcount(self.0[1]) + popcount(self.0[2]),
    {
        let a = count_ones(self.0[0]);
        let b = count_ones(self.0[1]);
        let c = count_ones(self.0[2]);
        a + b + c
    }

    /// No key is pressed.
    pub fn is_empty(&self) -> (r: bool)
        ensures
            r == (self.0[0] == 0 && self.0[1] == 0 && self.0[2] == 0),
    {
        self.0[0] == 0 && self.0[1] == 0 && self.0[2] == 0
    }

    pub fn as_bytes(&self) -> (r: &[u8; 3])
        ensures
            *r == self.0,
    {
        &self.0
    }

    pub fn into_bytes(self) -> (r: [u8; 3])
        ensures
            r == self.0,
    {
        self.0
    }

    fn contains_vowel(&self) -> (r: bool)
        ensures
            r == self.spec_contains_vowel(),
    {
        (self.0[1] & 0b11111000) > 0
    }

    /// Converts from a u32 where the stroke data is left-aligned within the last 24 bits (one trailing zero bit).
    pub fn from(input: u32) -> (r: Self)
        requires
            input & 1 == 0,
        ensures
            r.0[0] == ((input >> 16u32) & 0xff) as u8,
            r.0[1] == ((input >> 8u32) & 0xff) as u8,
            r.0[2] == (input & 0xff) as u8,
            r.is_well_formed(),
    {
        let r = EnglishStroke([((input >> 16) & 0xff) as u8, ((input >> 8) & 0xff) as u8, (input & 0xff) as u8]);
        assert(((input & 0xff) as u8) & 1 == 0) by (bit_vector)
            requires
                input & 1 == 0,
        ;
        r
    }

    /// Converts from a u32 where the stroke data is right-aligned and covers the last 23 bits.
    pub fn from_right_aligned(input: u32) -> (r: Self)
        ensures
            r.0[0] == ((input >> 15u32) & 0xff) as u8,
            r.0[1] == ((input >> 7u32) & 0xff) as u8,
            r.0[2] == ((input << 1u32) & 0xff) as u8,
            r.is_well_formed(),
    {
        let shifted = input << 1;
        assert(shifted & 1 == 0 && (shifted >> 16u32) & 0xff == (input >> 15u32) & 0xff
            && (shifted >> 8u32) & 0xff == (input >> 7u32) & 0xff) by (bit_vector)
            requires
                shifted == input << 1,
        ;
        Self::from(shifted)
    }

    /// Bitwise union of the pressed keys of both strokes.
    pub fn add(self, rhs: Self) -> (r: Self)
        ensures
            r == self.spec_union(rhs),
    {
        let bytes = self.into_bytes();
        let rhs_bytes = rhs.into_bytes();
        EnglishStroke([bytes[0] | rhs_bytes[0], bytes[1] | rhs_bytes[1], bytes[2] | rhs_bytes[2]])
    }

    /// In-place version of [`add`](EnglishStroke::add).
    pub fn add_assign(&mut self, rhs: Self)
        ensures
            *final(self) == old(self).spec_union(rhs),
    {
        let rhs_bytes = rhs.into_bytes();
        let a = self.0[0] | rhs_bytes[0];
        let b = self.0[1] | rhs_bytes[1];
        let c = self.0[2] | rhs_bytes[2];
        self.0 = [a, b, c];
    }

    /// Human readable representation of the stroke, inserting `-` to disambiguate right-hand keys
    /// when no vowel is present.
    pub fn to_string(&self) -> (r: String)
        requires
            self.is_well_formed(),
        ensures
            r@ == self.text(),
    {
        let contains_vowel = self.contains_vowel();
        let mut out = String::new();
        let mut byte_index: usize = 0;
        assert(out@ == self.text_upto(0));
        while byte_index < 3
            invariant
                byte_index <= 3,
                contains_vowel == self.spec_contains_vowel(),
                self.is_well_formed(),
                out@ == self.text_upto((byte_index * 8) as nat),
            decreases 3 - byte_index,
        {
            let byte = self.0[byte_index];
            let mut bit_index: usize = 0;
            while bit_index < 8
                invariant
                    byte_index < 3,
                    bit_index <= 8,
                    byte == self.0[byte_index as int],
                    contains_vowel == self.spec_contains_vowel(),
                    self.is_well_formed(),
                    out@ == self.text_upto((byte_index * 8 + bit_index) as nat),
                decreases 8 - bit_index,
            {
                let index: usize = byte_index * 8 + bit_index;
                let ghost before = out@;
                if !contains_vowel && index == 13 {
                    string_push(&mut out, '-');
                }
                let ghost mid = out@;
                let shift: u8 = (7 - bit_index) as u8;
                let mask: u8 = 1u8 << shift;
                proof {
                    lemma_mask_bit(byte, shift);
                    assert(index / 8 == byte_index as int);
                    assert(index % 8 == bit_index as int);
                }
                if (byte & mask) > 0 {
                    if index == 23 {
                        proof {
                            lemma_low_bit(byte);
                        }
                        assert(false);
                    }
                    let c = keymap(index);
                    string_push(&mut out, c);
                }
                assert(out@ == before + self.text_piece(index as int));
                bit_index += 1;
            }
            byte_index += 1;
        }
        out
    }
}

proof fn lemma_mask_bit(b: u8, k: u8)
    requires
        k < 8,
    ensures
        ((b & (1u8 << k)) > 0) == ((b >> k) & 1 == 1),
{
    assert(((b & (1u8 << k)) > 0) == ((b >> k) & 1 == 1)) by (bit_vector)
        requires
            k < 8,
    ;
}

proof fn lemma_low_bit(b: u8)
    ensures
        ((b >> 0u8) & 1 == 1) == (b & 1 == 1),
{
    assert(((b >> 0u8) & 1 == 1) == (b & 1 == 1)) by (bit_vector);
}

/// Counts the set bits of a byte.
fn count_ones(b: u8) -> (r: u32)
    ensures
        r == popcount(b),
        r <= 8,
{
    let mut count: u32 = 0;
    let mut i: u8 = 0;
    while i < 8
        invariant
            i <= 8,
            count == popcount_below(b, i as nat),
            count <= i,
        decreases 8 - i,
    {
        if (b >> i) & 1 == 1 {
            count += 1;
        }
        i += 1;
    }
    count
}

} // verus!
