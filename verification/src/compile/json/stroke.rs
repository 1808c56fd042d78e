//! Parser for strokes written in steno order, e.g. `STKPW`, `H-P`, `-FRPBLG` or `1234`.
//!
//! The keys are matched in layout order: `# S T K P W H R`, `A O`, an optional hyphen,
//! `* E U`, `F R P B L G T S D Z`. Keys that have a number (`S`=1, `T`=2, `P`=3, `H`=4,
//! `A`=5, `O`=0, `F`=6, `P`=7, `L`=8, `T`=9) may be written as that number, which also
//! presses the number key `#`.
use crate::stroke::EnglishStroke;
use vstd::prelude::*;

verus! {

/// Number of parsing steps: 23 keys and the hyphen.
pub const KEY_STEPS: usize = 24;

/// Character of the key at the given step in layout order (step 10 is the hyphen).
pub open spec fn key_letter(step: int) -> char {
    if step == 0 { '#' }
    else if step == 1 { 'S' } else if step == 2 { 'T' } else if step == 3 { 'K' }
    else if step == 4 { 'P' } else if step == 5 { 'W' } else if step == 6 { 'H' }
    else if step == 7 { 'R' } else if step == 8 { 'A' } else if step == 9 { 'O' }
    else if step == 10 { '-' } else if step == 11 { '*' } else if step == 12 { 'E' }
    else if step == 13 { 'U' } else if step == 14 { 'F' } else if step == 15 { 'R' }
    else if step == 16 { 'P' } else if step == 17 { 'B' } else if step == 18 { 'L' }
    else if step == 19 { 'G' } else if step == 20 { 'T' } else if step == 21 { 'S' }
    else if step == 22 { 'D' } else { 'Z' }
}

/// Number that may replace the key at the given step.
pub open spec fn key_number(step: int) -> Option<char> {
    if step == 1 { Some('1') } else if step == 2 { Some('2') } else if step == 4 { Some('3') }
    else if step == 6 { Some('4') } else if step == 8 { Some('5') } else if step == 9 { Some('0') }
    else if step == 14 { Some('6') } else if step == 16 { Some('7') } else if step == 18 { Some('8') }
    else if step == 20 { Some('9') } else { None }
}

/// Bit of the key at the given step in the raw stroke value. The number key (step 0) is
/// accounted for separately and the hyphen has no bit.
pub open spec fn key_value(step: int) -> u32 {
    if 1 <= step <= 9 {
        (1u32 << ((23 - step) as u32)) as u32
    } else if 11 <= step <= 23 {
        (1u32 << ((24 - step) as u32)) as u32
    } else {
        0
    }
}

/// Bit of the number key in a raw stroke value.
pub const NUMBER_KEY_BIT: u32 = 0x80_0000;

/// The character at `pos` is the number written in place of the key at `step`.
pub open spec fn number_at(input: Seq<char>, pos: int, step: int) -> bool {
    0 <= pos < input.len() && key_number(step) == Some(input[pos])
}

/// The character at `pos` presses the key at `step`.
pub open spec fn key_at(input: Seq<char>, pos: int, step: int) -> bool {
    0 <= pos < input.len() && (input[pos] == key_letter(step) || number_at(input, pos, step))
}

/// Matches the keys from `step` on, starting at `pos`. Returns the sum of the bits of the
/// pressed keys, whether the number key is pressed (written as `#` or implied by a number)
/// and the position after the last consumed character.
pub open spec fn parse_keys(input: Seq<char>, pos: int, step: int) -> (int, bool, int)
    decreases 24 - step,
{
    if step < 0 || step >= 24 {
        (0, false, pos)
    } else {
        let pressed = key_at(input, pos, step);
        let rest = parse_keys(input, if pressed { pos + 1 } else { pos }, step + 1);
        (
            rest.0 + if pressed { key_value(step) as int } else { 0 },
            rest.1 || (pressed && (step == 0 || number_at(input, pos, step))),
            rest.2,
        )
    }
}

/// Raw value of the stroke starting at `pos` (bits 23 to 1 in layout order) and the
/// position after it. Every position starts a stroke, possibly an empty one.
pub open spec fn spec_raw_stroke(input: Seq<char>, pos: int) -> (u32, int) {
    let keys = parse_keys(input, pos, 0);
    ((keys.0 + if keys.1 { NUMBER_KEY_BIT as int } else { 0 }) as u32, keys.2)
}

/// The stroke holds the three low-order bytes of the raw value.
pub open spec fn stroke_of_value(stroke: EnglishStroke, value: u32) -> bool {
    &&& stroke.0[0] == ((value >> 16u32) & 0xff) as u8
    &&& stroke.0[1] == ((value >> 8u32) & 0xff) as u8
    &&& stroke.0[2] == (value & 0xff) as u8
}

fn letter_for(step: usize) -> (r: char)
    requires
        step < KEY_STEPS,
    ensures
        r == key_letter(step as int),
{
    match step {
        0 => '#', 1 => 'S', 2 => 'T', 3 => 'K', 4 => 'P', 5 => 'W', 6 => 'H', 7 => 'R',
        8 => 'A', 9 => 'O', 10 => '-', 11 => '*', 12 => 'E', 13 => 'U', 14 => 'F', 15 => 'R',
        16 => 'P', 17 => 'B', 18 => 'L', 19 => 'G', 20 => 'T', 21 => 'S', 22 => 'D', _ => 'Z',
    }
}

fn number_for(step: usize) -> (r: Option<char>)
    requires
        step < KEY_STEPS,
    ensures
        r == key_number(step as int),
{
    match step {
        1 => Some('1'), 2 => Some('2'), 4 => Some('3'), 6 => Some('4'), 8 => Some('5'),
        9 => Some('0'), 14 => Some('6'), 16 => Some('7'), 18 => Some('8'), 20 => Some('9'),
        _ => None,
    }
}

fn value_for(step: usize) -> (r: u32)
    requires
        step < KEY_STEPS,
    ensures
        r == key_value(step as int),
        r % 2 == 0,
        r <= 0x40_0000,
{
    if 1 <= step && step <= 9 {
        let shift = (23 - step) as u32;
        assert(14 <= shift <= 22);
        assert(1u32 << shift <= 0x40_0000 && (1u32 << shift) % 2 == 0) by (bit_vector)
            requires
                14 <= shift <= 22,
        ;
        1u32 << shift
    } else if 11 <= step && step <= 23 {
        let shift = (24 - step) as u32;
        assert(1 <= shift <= 13);
        assert(1u32 << shift <= 0x40_0000 && (1u32 << shift) % 2 == 0) by (bit_vector)
            requires
                1 <= shift <= 13,
        ;
        1u32 << shift
    } else {
        0
    }
}

/// Parses the raw value of the stroke starting at `pos`; returns it with the position after it.
pub fn raw_stroke(input: &Vec<char>, pos: usize) -> (r: (u32, usize))
    requires
        pos <= input@.len(),
    ensures
        (r.0, r.1 as int) == spec_raw_stroke(input@, pos as int),
        r.0 % 2 == 0,
        pos <= r.1 <= input@.len(),
{
    let mut position = pos;
    let mut sum: u64 = 0;
    let mut number = false;
    let mut step: usize = 0;
    let ghost total = parse_keys(input@, pos as int, 0);
    while step < KEY_STEPS
        invariant
            step <= KEY_STEPS,
            pos <= position <= input@.len(),
            position - pos <= step,
            sum <= step * 0x40_0000,
            sum % 2 == 0,
            total == parse_keys(input@, pos as int, 0),
            ({
                let rest = parse_keys(input@, position as int, step as int);
                total == (sum + rest.0, number || rest.1, rest.2)
            }),
        decreases KEY_STEPS - step,
    {
        let letter = letter_for(step);
        let replacement = number_for(step);
        let mut pressed = false;
        let mut by_number = false;
        if position < input.len() {
            let c = input[position];
            if c == letter {
                pressed = true;
            } else {
                match replacement {
                    Some(n) => {
                        if c == n {
                            pressed = true;
                            by_number = true;
                        }
                    },
                    None => {},
                }
            }
        }
        assert(pressed == key_at(input@, position as int, step as int));
        assert(pressed && by_number ==> number_at(input@, position as int, step as int));
        assert(pressed && !by_number ==> !number_at(input@, position as int, step as int));
        if pressed {
            let value = value_for(step);
            sum = sum + value as u64;
            if step == 0 || by_number {
                number = true;
            }
            position = position + 1;
        }
        step = step + 1;
    }
    let flag: u64 = if number { NUMBER_KEY_BIT as u64 } else { 0 };
    let value = sum + flag;
    assert(value % 2 == 0);
    assert(value <= 0x7FFF_FFFF);
    (value as u32, position)
}

/// Parses the stroke starting at `pos`; returns it with its raw value and the position after it.
pub fn stroke(input: &Vec<char>, pos: usize) -> (r: (EnglishStroke, u32, usize))
    requires
        pos <= input@.len(),
    ensures
        (r.1, r.2 as int) == spec_raw_stroke(input@, pos as int),
        stroke_of_value(r.0, r.1),
        r.0.is_well_formed(),
        pos <= r.2 <= input@.len(),
{
    let (value, end) = raw_stroke(input, pos);
    assert(value & 1 == 0) by (bit_vector)
        requires
            value % 2 == 0,
    ;
    (EnglishStroke::from(value), value, end)
}

} // verus!
