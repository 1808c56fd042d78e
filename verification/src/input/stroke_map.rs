//! Turning a keyboard state into a stroke.
//!
//! A stroke map lists, for each key of the stroke layout in order (`#` first), the key
//! positions that press it. A stroke key is pressed when one of its positions is pressed.
use super::position::{KeyColumn, KeyPosition, KeyRow};
use super::state::InputState;
use crate::stroke::EnglishStroke;
use vstd::prelude::*;

verus! {

/// Bit `q` of a value is set.
pub open spec fn bit_set(value: u32, q: u32) -> bool {
    (value >> q) & 1 == 1
}

/// The key position is present and pressed.
pub open spec fn position_pressed(input: InputState, key: Option<KeyPosition>) -> bool {
    match key {
        Some(key) => input.pressed(key),
        None => false,
    }
}

/// One of the key positions is present and pressed.
pub open spec fn entry_active(input: InputState, keys: Seq<Option<KeyPosition>>) -> bool {
    exists|j: int| 0 <= j < keys.len() && position_pressed(input, #[trigger] keys[j])
}

/// Bit `q` (counted from the least significant) of the right-aligned stroke state for a
/// stroke map: the first entry of the map gives the most significant bit.
pub open spec fn stroke_bit(input: InputState, map: Seq<Vec<Option<KeyPosition>>>, q: int) -> bool {
    0 <= q < map.len() && entry_active(input, map[map.len() - 1 - q]@)
}

proof fn lemma_set_bit(x: u32, p: u32, q: u32)
    requires
        p < 32,
        q < 32,
    ensures
        bit_set(x | (1u32 << p), q) == (p == q || bit_set(x, q)),
{
    assert(((x | (1u32 << p)) >> q) & 1 == 1 <==> (p == q || (x >> q) & 1 == 1)) by (bit_vector)
        requires
            p < 32,
            q < 32,
    ;
}

/// Whether one of the key positions is pressed.
fn any_pressed(input: &InputState, keys: &Vec<Option<KeyPosition>>) -> (r: bool)
    ensures
        r == entry_active(*input, keys@),
{
    let mut j: usize = 0;
    while j < keys.len()
        invariant
            j <= keys@.len(),
            forall|k: int| 0 <= k < j ==> !position_pressed(*input, #[trigger] keys@[k]),
        decreases keys@.len() - j,
    {
        if let Some(key) = keys[j] {
            if input.is_set(key) {
                assert(position_pressed(*input, keys@[j as int]));
                return true;
            }
        }
        j += 1;
    }
    false
}

/// Right-aligned stroke state: entry `i` of the map sets bit `len - 1 - i` when one of its
/// key positions is pressed.
pub fn stroke_state(input: &InputState, map: &Vec<Vec<Option<KeyPosition>>>) -> (r: u32)
    requires
        map@.len() <= 32,
    ensures
        forall|q: u32| q < 32 ==> bit_set(r, q) == stroke_bit(*input, map@, q as int),
{
    let mut state: u32 = 0;
    let mut i: usize = 0;
    assert forall|q: u32| q < 32 implies !bit_set(0u32, q) by {
        assert((0u32 >> q) & 1 == 0) by (bit_vector);
    }
    while i < map.len()
        invariant
            i <= map@.len() <= 32,
            forall|q: u32| q < 32 ==> #[trigger] bit_set(state, q) == (
                map@.len() - i <= q < map@.len() && entry_active(*input, map@[map@.len() - 1 - q]@)
            ),
        decreases map@.len() - i,
    {
        let position = (map.len() - 1 - i) as u32;
        if any_pressed(input, &map[i]) {
            proof {
                assert forall|q: u32| q < 32 implies #[trigger] bit_set(state | (1u32 << position), q) == (
                    map@.len() - (i + 1) <= q < map@.len() && entry_active(*input, map@[map@.len() - 1 - q]@)
                ) by {
                    lemma_set_bit(state, position, q);
                }
            }
            state = state | (1u32 << position);
        }
        i += 1;
    }
    state
}

proof fn lemma_stroke_bytes(state: u32, k: u32)
    requires
        k < 8,
    ensures
        ((((state >> 15u32) & 0xff) as u8 >> (7 - k) as u8) & 1 == 1) == bit_set(state, (22 - k) as u32),
        ((((state >> 7u32) & 0xff) as u8 >> (7 - k) as u8) & 1 == 1) == bit_set(state, (14 - k) as u32),
        k < 7 ==> (((((state << 1u32) & 0xff) as u8 >> (7 - k) as u8) & 1 == 1) == bit_set(state, (6 - k) as u32)),
{
    assert(((((state >> 15u32) & 0xff) as u8 >> (7 - k) as u8) & 1 == 1) == ((state >> (22 - k) as u32) & 1 == 1)) by (bit_vector)
        requires
            k < 8,
    ;
    assert(((((state >> 7u32) & 0xff) as u8 >> (7 - k) as u8) & 1 == 1) == ((state >> (14 - k) as u32) & 1 == 1)) by (bit_vector)
        requires
            k < 8,
    ;
    assert(k < 7 ==> (((((state << 1u32) & 0xff) as u8 >> (7 - k) as u8) & 1 == 1) == ((state >> (6 - k) as u32) & 1 == 1))) by (bit_vector)
        requires
            k < 8,
    ;
}

/// The stroke for a keyboard state: key `i` of the layout is pressed when one of the key
/// positions of entry `i` of a map with 23 entries is pressed. With fewer entries the map
/// covers the last keys of the layout.
pub fn stroke_from_input(input: &InputState, map: &Vec<Vec<Option<KeyPosition>>>) -> (r: EnglishStroke)
    requires
        map@.len() <= 32,
    ensures
        forall|i: int| 0 <= i < 23 ==> #[trigger] r.key(i) == stroke_bit(*input, map@, 22 - i),
        r.is_well_formed(),
{
    let state = stroke_state(input, map);
    let r = EnglishStroke::from_right_aligned(state);
    assert forall|i: int| 0 <= i < 23 implies #[trigger] r.key(i) == stroke_bit(*input, map@, 22 - i) by {
        let k = (i % 8) as u32;
        lemma_stroke_bytes(state, k);
        assert(bit_set(state, (22 - i) as u32) == stroke_bit(*input, map@, 22 - i));
    }
    r
}

/// Stroke map of the keyboard: for each key of the stroke layout, `#` first, the key positions
/// that press it.
pub open spec fn english_stroke_map() -> Seq<Seq<Option<KeyPosition>>> {
    seq![
        seq![Some(KeyPosition::Left(KeyColumn::Middle, KeyRow::Below)), Some(KeyPosition::Right(KeyColumn::Middle, KeyRow::Below))],  // #
        seq![Some(KeyPosition::Left(KeyColumn::Pinky, KeyRow::Top)), Some(KeyPosition::Left(KeyColumn::Pinky, KeyRow::Bottom))],  // S-
        seq![Some(KeyPosition::Left(KeyColumn::Ring, KeyRow::Top))],  // T-
        seq![Some(KeyPosition::Left(KeyColumn::Ring, KeyRow::Bottom))],  // K-
        seq![Some(KeyPosition::Left(KeyColumn::Middle, KeyRow::Top))],  // P-
        seq![Some(KeyPosition::Left(KeyColumn::Middle, KeyRow::Bottom))],  // W-
        seq![Some(KeyPosition::Left(KeyColumn::Index, KeyRow::Top))],  // H-
        seq![Some(KeyPosition::Left(KeyColumn::Index, KeyRow::Bottom))],  // R-
        seq![Some(KeyPosition::Left(KeyColumn::Index, KeyRow::Below))],  // A
        seq![Some(KeyPosition::Left(KeyColumn::ExtraTrailing, KeyRow::Below))],  // O
        seq![Some(KeyPosition::Left(KeyColumn::ExtraTrailing, KeyRow::Top)), Some(KeyPosition::Left(KeyColumn::ExtraTrailing, KeyRow::Bottom)), Some(KeyPosition::Right(KeyColumn::ExtraLeading, KeyRow::Top)), Some(KeyPosition::Right(KeyColumn::ExtraLeading, KeyRow::Bottom))],  // *
        seq![Some(KeyPosition::Right(KeyColumn::ExtraLeading, KeyRow::Below))],  // E
        seq![Some(KeyPosition::Right(KeyColumn::Index, KeyRow::Below))],  // U
        seq![Some(KeyPosition::Right(KeyColumn::Index, KeyRow::Top))],  // -F
        seq![Some(KeyPosition::Right(KeyColumn::Index, KeyRow::Bottom))],  // -R
        seq![Some(KeyPosition::Right(KeyColumn::Middle, KeyRow::Top))],  // -P
        seq![Some(KeyPosition::Right(KeyColumn::Middle, KeyRow::Bottom))],  // -B
        seq![Some(KeyPosition::Right(KeyColumn::Ring, KeyRow::Top))],  // -L
        seq![Some(KeyPosition::Right(KeyColumn::Ring, KeyRow::Bottom))],  // -G
        seq![Some(KeyPosition::Right(KeyColumn::Pinky, KeyRow::Top))],  // -T
        seq![Some(KeyPosition::Right(KeyColumn::Pinky, KeyRow::Bottom))],  // -S
        seq![Some(KeyPosition::Right(KeyColumn::ExtraTrailing, KeyRow::Top))],  // -D
        seq![Some(KeyPosition::Right(KeyColumn::ExtraTrailing, KeyRow::Bottom))],  // -Z
    ]
}

/// Key positions of the left matrix, row by row, six columns each (`None` where no key is).
pub open spec fn left_keymap() -> Seq<Option<KeyPosition>> {
    seq![
        None,
        Some(KeyPosition::Left(KeyColumn::Pinky, KeyRow::Top)),
        Some(KeyPosition::Left(KeyColumn::Ring, KeyRow::Top)),
        Some(KeyPosition::Left(KeyColumn::Middle, KeyRow::Top)),
        Some(KeyPosition::Left(KeyColumn::Index, KeyRow::Top)),
        Some(KeyPosition::Left(KeyColumn::ExtraTrailing, KeyRow::Top)),
        None,
        Some(KeyPosition::Left(KeyColumn::Pinky, KeyRow::Bottom)),
        Some(KeyPosition::Left(KeyColumn::Ring, KeyRow::Bottom)),
        Some(KeyPosition::Left(KeyColumn::Middle, KeyRow::Bottom)),
        Some(KeyPosition::Left(KeyColumn::Index, KeyRow::Bottom)),
        Some(KeyPosition::Left(KeyColumn::ExtraTrailing, KeyRow::Bottom)),
        None,
        None,
        None,
        Some(KeyPosition::Left(KeyColumn::Middle, KeyRow::Below)),
        Some(KeyPosition::Left(KeyColumn::Index, KeyRow::Below)),
        Some(KeyPosition::Left(KeyColumn::ExtraTrailing, KeyRow::Below)),
    ]
}

/// Key positions of the right matrix, row by row, six columns each (`None` where no key is).
pub open spec fn right_keymap() -> Seq<Option<KeyPosition>> {
    seq![
        Some(KeyPosition::Right(KeyColumn::ExtraLeading, KeyRow::Top)),
        Some(KeyPosition::Right(KeyColumn::Index, KeyRow::Top)),
        Some(KeyPosition::Right(KeyColumn::Middle, KeyRow::Top)),
        Some(KeyPosition::Right(KeyColumn::Ring, KeyRow::Top)),
        Some(KeyPosition::Right(KeyColumn::Pinky, KeyRow::Top)),
        Some(KeyPosition::Right(KeyColumn::ExtraTrailing, KeyRow::Top)),
        Some(KeyPosition::Right(KeyColumn::ExtraLeading, KeyRow::Bottom)),
        Some(KeyPosition::Right(KeyColumn::Index, KeyRow::Bottom)),
        Some(KeyPosition::Right(KeyColumn::Middle, KeyRow::Bottom)),
        Some(KeyPosition::Right(KeyColumn::Ring, KeyRow::Bottom)),
        Some(KeyPosition::Right(KeyColumn::Pinky, KeyRow::Bottom)),
        Some(KeyPosition::Right(KeyColumn::ExtraTrailing, KeyRow::Bottom)),
        Some(KeyPosition::Right(KeyColumn::ExtraLeading, KeyRow::Below)),
        Some(KeyPosition::Right(KeyColumn::Index, KeyRow::Below)),
        Some(KeyPosition::Right(KeyColumn::Middle, KeyRow::Below)),
        None,
        None,
        None,
    ]
}

/// Key `i` of the stroke layout (`#` being key 0) is pressed under the map.
pub open spec fn layout_key_pressed(input: InputState, map: Seq<Vec<Option<KeyPosition>>>, i: int) -> bool {
    stroke_bit(input, map, map.len() - 1 - i)
}

proof fn lemma_entry_active_one(input: InputState, a: Option<KeyPosition>)
    ensures
        entry_active(input, seq![a]) == position_pressed(input, a),
{
    if position_pressed(input, a) {
        assert(position_pressed(input, seq![a][0]));
    }
}

proof fn lemma_entry_active_two(input: InputState, a: Option<KeyPosition>, b: Option<KeyPosition>)
    ensures
        entry_active(input, seq![a, b]) == (position_pressed(input, a) || position_pressed(input, b)),
{
    let s = seq![a, b];
    if position_pressed(input, a) {
        assert(position_pressed(input, s[0]));
    }
    if position_pressed(input, b) {
        assert(position_pressed(input, s[1]));
    }
}

proof fn lemma_entry_active_four(
    input: InputState,
    a: Option<KeyPosition>,
    b: Option<KeyPosition>,
    c: Option<KeyPosition>,
    d: Option<KeyPosition>,
)
    ensures
        entry_active(input, seq![a, b, c, d]) == (position_pressed(input, a) || position_pressed(input, b)
            || position_pressed(input, c) || position_pressed(input, d)),
{
    let s = seq![a, b, c, d];
    if position_pressed(input, a) {
        assert(position_pressed(input, s[0]));
    }
    if position_pressed(input, b) {
        assert(position_pressed(input, s[1]));
    }
    if position_pressed(input, c) {
        assert(position_pressed(input, s[2]));
    }
    if position_pressed(input, d) {
        assert(position_pressed(input, s[3]));
    }
}

/// The keyboard's stroke map (as `keyboard_stroke_map` gives it) presses each key of the stroke
/// layout from the key positions printed with it: `#` from the middle thumb keys of either half,
/// `S-` from either left pinky key, `*` from the four keys between the halves, and every other
/// key from one position; on the far right the top key is `-D` and the bottom key `-Z`.
pub proof fn lemma_keyboard_stroke_keys(input: InputState, map: Seq<Vec<Option<KeyPosition>>>)
    requires
        map.len() == english_stroke_map().len(),
        forall|i: int| 0 <= i < map.len() ==> (#[trigger] map[i])@ == english_stroke_map()[i],
    ensures
        map.len() == 23,
        // #
        layout_key_pressed(input, map, 0) == (input.pressed(KeyPosition::Left(KeyColumn::Middle, KeyRow::Below)) || input.pressed(KeyPosition::Right(KeyColumn::Middle, KeyRow::Below))),
        // S-
        layout_key_pressed(input, map, 1) == (input.pressed(KeyPosition::Left(KeyColumn::Pinky, KeyRow::Top)) || input.pressed(KeyPosition::Left(KeyColumn::Pinky, KeyRow::Bottom))),
        // T-
        layout_key_pressed(input, map, 2) == (input.pressed(KeyPosition::Left(KeyColumn::Ring, KeyRow::Top))),
        // K-
        layout_key_pressed(input, map, 3) == (input.pressed(KeyPosition::Left(KeyColumn::Ring, KeyRow::Bottom))),
        // P-
        layout_key_pressed(input, map, 4) == (input.pressed(KeyPosition::Left(KeyColumn::Middle, KeyRow::Top))),
        // W-
        layout_key_pressed(input, map, 5) == (input.pressed(KeyPosition::Left(KeyColumn::Middle, KeyRow::Bottom))),
        // H-
        layout_key_pressed(input, map, 6) == (input.pressed(KeyPosition::Left(KeyColumn::Index, KeyRow::Top))),
        // R-
        layout_key_pressed(input, map, 7) == (input.pressed(KeyPosition::Left(KeyColumn::Index, KeyRow::Bottom))),
        // A
        layout_key_pressed(input, map, 8) == (input.pressed(KeyPosition::Left(KeyColumn::Index, KeyRow::Below))),
        // O
        layout_key_pressed(input, map, 9) == (input.pressed(KeyPosition::Left(KeyColumn::ExtraTrailing, KeyRow::Below))),
        // *
        layout_key_pressed(input, map, 10) == (input.pressed(KeyPosition::Left(KeyColumn::ExtraTrailing, KeyRow::Top)) || input.pressed(KeyPosition::Left(KeyColumn::ExtraTrailing, KeyRow::Bottom)) || input.pressed(KeyPosition::Right(KeyColumn::ExtraLeading, KeyRow::Top)) || input.pressed(KeyPosition::Right(KeyColumn::ExtraLeading, KeyRow::Bottom))),
        // E
        layout_key_pressed(input, map, 11) == (input.pressed(KeyPosition::Right(KeyColumn::ExtraLeading, KeyRow::Below))),
        // U
        layout_key_pressed(input, map, 12) == (input.pressed(KeyPosition::Right(KeyColumn::Index, KeyRow::Below))),
        // -F
        layout_key_pressed(input, map, 13) == (input.pressed(KeyPosition::Right(KeyColumn::Index, KeyRow::Top))),
        // -R
        layout_key_pressed(input, map, 14) == (input.pressed(KeyPosition::Right(KeyColumn::Index, KeyRow::Bottom))),
        // -P
        layout_key_pressed(input, map, 15) == (input.pressed(KeyPosition::Right(KeyColumn::Middle, KeyRow::Top))),
        // -B
        layout_key_pressed(input, map, 16) == (input.pressed(KeyPosition::Right(KeyColumn::Middle, KeyRow::Bottom))),
        // -L
        layout_key_pressed(input, map, 17) == (input.pressed(KeyPosition::Right(KeyColumn::Ring, KeyRow::Top))),
        // -G
        layout_key_pressed(input, map, 18) == (input.pressed(KeyPosition::Right(KeyColumn::Ring, KeyRow::Bottom))),
        // -T
        layout_key_pressed(input, map, 19) == (input.pressed(KeyPosition::Right(KeyColumn::Pinky, KeyRow::Top))),
        // -S
        layout_key_pressed(input, map, 20) == (input.pressed(KeyPosition::Right(KeyColumn::Pinky, KeyRow::Bottom))),
        // -D
        layout_key_pressed(input, map, 21) == (input.pressed(KeyPosition::Right(KeyColumn::ExtraTrailing, KeyRow::Top))),
        // -Z
        layout_key_pressed(input, map, 22) == (input.pressed(KeyPosition::Right(KeyColumn::ExtraTrailing, KeyRow::Bottom))),
{
    let m = english_stroke_map();
    assert(m.len() == 23);
    assert forall|i: int| 0 <= i < 23 implies layout_key_pressed(input, map, i) == entry_active(input, #[trigger] m[i]) by {
        assert(map[i]@ == m[i]);
    }
    lemma_entry_active_two(input, Some(KeyPosition::Left(KeyColumn::Middle, KeyRow::Below)), Some(KeyPosition::Right(KeyColumn::Middle, KeyRow::Below)));
    assert(layout_key_pressed(input, map, 0) == entry_active(input, m[0]));
    lemma_entry_active_two(input, Some(KeyPosition::Left(KeyColumn::Pinky, KeyRow::Top)), Some(KeyPosition::Left(KeyColumn::Pinky, KeyRow::Bottom)));
    assert(layout_key_pressed(input, map, 1) == entry_active(input, m[1]));
    lemma_entry_active_one(input, Some(KeyPosition::Left(KeyColumn::Ring, KeyRow::Top)));
    assert(layout_key_pressed(input, map, 2) == entry_active(input, m[2]));
    lemma_entry_active_one(input, Some(KeyPosition::Left(KeyColumn::Ring, KeyRow::Bottom)));
    assert(layout_key_pressed(input, map, 3) == entry_active(input, m[3]));
    lemma_entry_active_one(input, Some(KeyPosition::Left(KeyColumn::Middle, KeyRow::Top)));
    assert(layout_key_pressed(input, map, 4) == entry_active(input, m[4]));
    lemma_entry_active_one(input, Some(KeyPosition::Left(KeyColumn::Middle, KeyRow::Bottom)));
    assert(layout_key_pressed(input, map, 5) == entry_active(input, m[5]));
    lemma_entry_active_one(input, Some(KeyPosition::Left(KeyColumn::Index, KeyRow::Top)));
    assert(layout_key_pressed(input, map, 6) == entry_active(input, m[6]));
    lemma_entry_active_one(input, Some(KeyPosition::Left(KeyColumn::Index, KeyRow::Bottom)));
    assert(layout_key_pressed(input, map, 7) == entry_active(input, m[7]));
    lemma_entry_active_one(input, Some(KeyPosition::Left(KeyColumn::Index, KeyRow::Below)));
    assert(layout_key_pressed(input, map, 8) == entry_active(input, m[8]));
    lemma_entry_active_one(input, Some(KeyPosition::Left(KeyColumn::ExtraTrailing, KeyRow::Below)));
    assert(layout_key_pressed(input, map, 9) == entry_active(input, m[9]));
    lemma_entry_active_four(input, Some(KeyPosition::Left(KeyColumn::ExtraTrailing, KeyRow::Top)), Some(KeyPosition::Left(KeyColumn::ExtraTrailing, KeyRow::Bottom)), Some(KeyPosition::Right(KeyColumn::ExtraLeading, KeyRow::Top)), Some(KeyPosition::Right(KeyColumn::ExtraLeading, KeyRow::Bottom)));
    assert(layout_key_pressed(input, map, 10) == entry_active(input, m[10]));
    lemma_entry_active_one(input, Some(KeyPosition::Right(KeyColumn::ExtraLeading, KeyRow::Below)));
    assert(layout_key_pressed(input, map, 11) == entry_active(input, m[11]));
    lemma_entry_active_one(input, Some(KeyPosition::Right(KeyColumn::Index, KeyRow::Below)));
    assert(layout_key_pressed(input, map, 12) == entry_active(input, m[12]));
    lemma_entry_active_one(input, Some(KeyPosition::Right(KeyColumn::Index, KeyRow::Top)));
    assert(layout_key_pressed(input, map, 13) == entry_active(input, m[13]));
    lemma_entry_active_one(input, Some(KeyPosition::Right(KeyColumn::Index, KeyRow::Bottom)));
    assert(layout_key_pressed(input, map, 14) == entry_active(input, m[14]));
    lemma_entry_active_one(input, Some(KeyPosition::Right(KeyColumn::Middle, KeyRow::Top)));
    assert(layout_key_pressed(input, map, 15) == entry_active(input, m[15]));
    lemma_entry_active_one(input, Some(KeyPosition::Right(KeyColumn::Middle, KeyRow::Bottom)));
    assert(layout_key_pressed(input, map, 16) == entry_active(input, m[16]));
    lemma_entry_active_one(input, Some(KeyPosition::Right(KeyColumn::Ring, KeyRow::Top)));
    assert(layout_key_pressed(input, map, 17) == entry_active(input, m[17]));
    lemma_entry_active_one(input, Some(KeyPosition::Right(KeyColumn::Ring, KeyRow::Bottom)));
    assert(layout_key_pressed(input, map, 18) == entry_active(input, m[18]));
    lemma_entry_active_one(input, Some(KeyPosition::Right(KeyColumn::Pinky, KeyRow::Top)));
    assert(layout_key_pressed(input, map, 19) == entry_active(input, m[19]));
    lemma_entry_active_one(input, Some(KeyPosition::Right(KeyColumn::Pinky, KeyRow::Bottom)));
    assert(layout_key_pressed(input, map, 20) == entry_active(input, m[20]));
    lemma_entry_active_one(input, Some(KeyPosition::Right(KeyColumn::ExtraTrailing, KeyRow::Top)));
    assert(layout_key_pressed(input, map, 21) == entry_active(input, m[21]));
    lemma_entry_active_one(input, Some(KeyPosition::Right(KeyColumn::ExtraTrailing, KeyRow::Bottom)));
    assert(layout_key_pressed(input, map, 22) == entry_active(input, m[22]));

}

/// The keyboard's stroke map.
pub fn keyboard_stroke_map() -> (r: Vec<Vec<Option<KeyPosition>>>)
    ensures
        r@.len() == english_stroke_map().len(),
        forall|i: int| 0 <= i < r@.len() ==> (#[trigger] r@[i])@ == english_stroke_map()[i],
{
    let r = vec![
        vec![Some(KeyPosition::Left(KeyColumn::Middle, KeyRow::Below)), Some(KeyPosition::Right(KeyColumn::Middle, KeyRow::Below))],
        vec![Some(KeyPosition::Left(KeyColumn::Pinky, KeyRow::Top)), Some(KeyPosition::Left(KeyColumn::Pinky, KeyRow::Bottom))],
        vec![Some(KeyPosition::Left(KeyColumn::Ring, KeyRow::Top))],
        vec![Some(KeyPosition::Left(KeyColumn::Ring, KeyRow::Bottom))],
        vec![Some(KeyPosition::Left(KeyColumn::Middle, KeyRow::Top))],
        vec![Some(KeyPosition::Left(KeyColumn::Middle, KeyRow::Bottom))],
        vec![Some(KeyPosition::Left(KeyColumn::Index, KeyRow::Top))],
        vec![Some(KeyPosition::Left(KeyColumn::Index, KeyRow::Bottom))],
        vec![Some(KeyPosition::Left(KeyColumn::Index, KeyRow::Below))],
        vec![Some(KeyPosition::Left(KeyColumn::ExtraTrailing, KeyRow::Below))],
        vec![Some(KeyPosition::Left(KeyColumn::ExtraTrailing, KeyRow::Top)), Some(KeyPosition::Left(KeyColumn::ExtraTrailing, KeyRow::Bottom)), Some(KeyPosition::Right(KeyColumn::ExtraLeading, KeyRow::Top)), Some(KeyPosition::Right(KeyColumn::ExtraLeading, KeyRow::Bottom))],
        vec![Some(KeyPosition::Right(KeyColumn::ExtraLeading, KeyRow::Below))],
        vec![Some(KeyPosition::Right(KeyColumn::Index, KeyRow::Below))],
        vec![Some(KeyPosition::Right(KeyColumn::Index, KeyRow::Top))],
        vec![Some(KeyPosition::Right(KeyColumn::Index, KeyRow::Bottom))],
        vec![Some(KeyPosition::Right(KeyColumn::Middle, KeyRow::Top))],
        vec![Some(KeyPosition::Right(KeyColumn::Middle, KeyRow::Bottom))],
        vec![Some(KeyPosition::Right(KeyColumn::Ring, KeyRow::Top))],
        vec![Some(KeyPosition::Right(KeyColumn::Ring, KeyRow::Bottom))],
        vec![Some(KeyPosition::Right(KeyColumn::Pinky, KeyRow::Top))],
        vec![Some(KeyPosition::Right(KeyColumn::Pinky, KeyRow::Bottom))],
        vec![Some(KeyPosition::Right(KeyColumn::ExtraTrailing, KeyRow::Top))],
        vec![Some(KeyPosition::Right(KeyColumn::ExtraTrailing, KeyRow::Bottom))],
    ];
    assert(r@.len() == english_stroke_map().len());
    r
}

/// The keyboard's left key map.
pub fn keymap_left() -> (r: Vec<Option<KeyPosition>>)
    ensures
        r@ == left_keymap(),
{
    let r = vec![None, Some(KeyPosition::Left(KeyColumn::Pinky, KeyRow::Top)), Some(KeyPosition::Left(KeyColumn::Ring, KeyRow::Top)), Some(KeyPosition::Left(KeyColumn::Middle, KeyRow::Top)), Some(KeyPosition::Left(KeyColumn::Index, KeyRow::Top)), Some(KeyPosition::Left(KeyColumn::ExtraTrailing, KeyRow::Top)), None, Some(KeyPosition::Left(KeyColumn::Pinky, KeyRow::Bottom)), Some(KeyPosition::Left(KeyColumn::Ring, KeyRow::Bottom)), Some(KeyPosition::Left(KeyColumn::Middle, KeyRow::Bottom)), Some(KeyPosition::Left(KeyColumn::Index, KeyRow::Bottom)), Some(KeyPosition::Left(KeyColumn::ExtraTrailing, KeyRow::Bottom)), None, None, None, Some(KeyPosition::Left(KeyColumn::Middle, KeyRow::Below)), Some(KeyPosition::Left(KeyColumn::Index, KeyRow::Below)), Some(KeyPosition::Left(KeyColumn::ExtraTrailing, KeyRow::Below))];
    assert(r@ =~= left_keymap());
    r
}

/// The keyboard's right key map.
pub fn keymap_right() -> (r: Vec<Option<KeyPosition>>)
    ensures
        r@ == right_keymap(),
{
    let r = vec![Some(KeyPosition::Right(KeyColumn::ExtraLeading, KeyRow::Top)), Some(KeyPosition::Right(KeyColumn::Index, KeyRow::Top)), Some(KeyPosition::Right(KeyColumn::Middle, KeyRow::Top)), Some(KeyPosition::Right(KeyColumn::Ring, KeyRow::Top)), Some(KeyPosition::Right(KeyColumn::Pinky, KeyRow::Top)), Some(KeyPosition::Right(KeyColumn::ExtraTrailing, KeyRow::Top)), Some(KeyPosition::Right(KeyColumn::ExtraLeading, KeyRow::Bottom)), Some(KeyPosition::Right(KeyColumn::Index, KeyRow::Bottom)), Some(KeyPosition::Right(KeyColumn::Middle, KeyRow::Bottom)), Some(KeyPosition::Right(KeyColumn::Ring, KeyRow::Bottom)), Some(KeyPosition::Right(KeyColumn::Pinky, KeyRow::Bottom)), Some(KeyPosition::Right(KeyColumn::ExtraTrailing, KeyRow::Bottom)), Some(KeyPosition::Right(KeyColumn::ExtraLeading, KeyRow::Below)), Some(KeyPosition::Right(KeyColumn::Index, KeyRow::Below)), Some(KeyPosition::Right(KeyColumn::Middle, KeyRow::Below)), None, None, None];
    assert(r@ =~= right_keymap());
    r
}

} // verus!
