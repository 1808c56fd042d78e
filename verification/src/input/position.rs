//! Physical key positions: a side, a column and a row.
use vstd::prelude::*;

verus! {

#[derive(PartialEq, Eq, Clone, Copy, Debug, Structural)]
pub enum KeyColumn {
    Pinky,
    Ring,
    Middle,
    Index,
    Thumb,
    ExtraLeading,
    ExtraTrailing,
}

#[derive(PartialEq, Eq, Clone, Copy, Debug, Structural)]
pub enum KeyRow {
    Above,
    Top,
    Bottom,
    Below,
}

#[derive(PartialEq, Eq, Clone, Copy, Debug, Structural)]
pub enum KeyPosition {
    Left(KeyColumn, KeyRow),
    Right(KeyColumn, KeyRow),
}

/// Index of a column, from the pinky outwards.
pub open spec fn column_index(column: KeyColumn) -> nat {
    match column {
        KeyColumn::Pinky => 0,
        KeyColumn::Ring => 1,
        KeyColumn::Middle => 2,
        KeyColumn::Index => 3,
        KeyColumn::Thumb => 4,
        KeyColumn::ExtraLeading => 5,
        KeyColumn::ExtraTrailing => 6,
    }
}

/// Index of a row, from the top.
pub open spec fn row_index(row: KeyRow) -> nat {
    match row {
        KeyRow::Above => 0,
        KeyRow::Top => 1,
        KeyRow::Bottom => 2,
        KeyRow::Below => 3,
    }
}

/// Number of key positions.
pub const KEY_POSITION_COUNT: usize = 56;

/// Index of a key position: the left side first, then the right side, each by column, each
/// column by row.
pub open spec fn key_index(key: KeyPosition) -> nat {
    match key {
        KeyPosition::Left(column, row) => column_index(column) * 4 + row_index(row),
        KeyPosition::Right(column, row) => 28 + column_index(column) * 4 + row_index(row),
    }
}

/// Key position with the given index (below the number of positions).
pub open spec fn position_at(index: nat) -> KeyPosition {
    let side = if index < 28 { index } else { (index - 28) as nat };
    let column = if side / 4 == 0 { KeyColumn::Pinky } else if side / 4 == 1 { KeyColumn::Ring } else if side / 4 == 2 {
        KeyColumn::Middle
    } else if side / 4 == 3 { KeyColumn::Index } else if side / 4 == 4 { KeyColumn::Thumb } else if side / 4 == 5 {
        KeyColumn::ExtraLeading
    } else { KeyColumn::ExtraTrailing };
    let row = if side % 4 == 0 { KeyRow::Above } else if side % 4 == 1 { KeyRow::Top } else if side % 4 == 2 {
        KeyRow::Bottom
    } else { KeyRow::Below };
    if index < 28 { KeyPosition::Left(column, row) } else { KeyPosition::Right(column, row) }
}

fn column_of(index: usize) -> (r: KeyColumn)
    requires
        index < 7,
    ensures
        column_index(r) == index,
{
    match index {
        0 => KeyColumn::Pinky,
        1 => KeyColumn::Ring,
        2 => KeyColumn::Middle,
        3 => KeyColumn::Index,
        4 => KeyColumn::Thumb,
        5 => KeyColumn::ExtraLeading,
        _ => KeyColumn::ExtraTrailing,
    }
}

fn row_of(index: usize) -> (r: KeyRow)
    requires
        index < 4,
    ensures
        row_index(r) == index,
{
    match index {
        0 => KeyRow::Above,
        1 => KeyRow::Top,
        2 => KeyRow::Bottom,
        _ => KeyRow::Below,
    }
}

impl KeyPosition {
    /// Index of the key position.
    pub fn index(self) -> (r: usize)
        ensures
            r == key_index(self),
            r < KEY_POSITION_COUNT,
    {
        let (side, column, row) = match self {
            KeyPosition::Left(column, row) => (0usize, column, row),
            KeyPosition::Right(column, row) => (28usize, column, row),
        };
        let c: usize = match column {
            KeyColumn::Pinky => 0,
            KeyColumn::Ring => 1,
            KeyColumn::Middle => 2,
            KeyColumn::Index => 3,
            KeyColumn::Thumb => 4,
            KeyColumn::ExtraLeading => 5,
            KeyColumn::ExtraTrailing => 6,
        };
        let r: usize = match row {
            KeyRow::Above => 0,
            KeyRow::Top => 1,
            KeyRow::Bottom => 2,
            KeyRow::Below => 3,
        };
        side + c * 4 + r
    }

    /// Key position with the given index.
    pub fn at(index: usize) -> (r: KeyPosition)
        requires
            index < KEY_POSITION_COUNT,
        ensures
            key_index(r) == index,
            r == position_at(index as nat),
    {
        if index < 28 {
            KeyPosition::Left(column_of(index / 4), row_of(index % 4))
        } else {
            KeyPosition::Right(column_of((index - 28) / 4), row_of((index - 28) % 4))
        }
    }
}

/// Different key positions have different indices, and every index names the position with
/// that index.
/// The position at an index has that index.
pub proof fn lemma_position_index(index: nat)
    requires
        index < KEY_POSITION_COUNT,
    ensures
        key_index(position_at(index)) == index,
{
}

pub proof fn lemma_key_index_injective(a: KeyPosition, b: KeyPosition)
    ensures
        key_index(a) < KEY_POSITION_COUNT,
        key_index(a) == key_index(b) ==> a == b,
        position_at(key_index(a)) == a,
{
}

} // verus!
