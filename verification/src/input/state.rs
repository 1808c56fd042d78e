//! Keyboard input state: which key positions are pressed, one bit per position.
use super::position::{key_index, position_at, KeyPosition, KEY_POSITION_COUNT};
use vstd::prelude::*;

verus! {

#[derive(PartialEq, Eq, Clone, Copy, Debug, Structural)]
pub enum KeyEvent {
    Up,
    Down,
}

/// Intermediate representation of keyboard input state
#[derive(Clone, Copy, PartialEq, Eq, Debug, Structural)]
pub struct InputState(u64);

/// Bit of a key position.
pub open spec fn key_bit(key: KeyPosition) -> u64 {
    1u64 << (key_index(key) as u64)
}

/// Setting a bit sets it and leaves the others; clearing a bit clears it and leaves the others.
proof fn lemma_bits(a: u64, i: u64, j: u64)
    requires
        i < 64,
        j < 64,
    ensures
        (a | (1u64 << i)) & (1u64 << i) != 0,
        (a & !(1u64 << i)) & (1u64 << i) == 0,
        i != j ==> (((a | (1u64 << i)) & (1u64 << j) != 0) == (a & (1u64 << j) != 0)),
        i != j ==> (((a & !(1u64 << i)) & (1u64 << j) != 0) == (a & (1u64 << j) != 0)),
{
    assert((a | (1u64 << i)) & (1u64 << i) != 0) by (bit_vector)
        requires
            i < 64,
    ;
    assert((a & !(1u64 << i)) & (1u64 << i) == 0) by (bit_vector)
        requires
            i < 64,
    ;
    assert(i != j ==> (((a | (1u64 << i)) & (1u64 << j) != 0) == (a & (1u64 << j) != 0))) by (bit_vector)
        requires
            i < 64,
            j < 64,
    ;
    assert(i != j ==> (((a & !(1u64 << i)) & (1u64 << j) != 0) == (a & (1u64 << j) != 0))) by (bit_vector)
        requires
            i < 64,
            j < 64,
    ;
}

/// A value below `2^n` whose low `n` bits are all clear is zero.
proof fn lemma_clear_low_bits(a: u64, n: u64)
    requires
        n <= 56,
        a < (1u64 << n),
        forall|j: u64| j < n ==> a & (1u64 << j) == 0,
    ensures
        a == 0,
    decreases n,
{
    if n == 0 {
        assert((1u64 << 0u64) == 1) by (bit_vector);
    } else {
        let m = (n - 1) as u64;
        assert(a & (1u64 << m) == 0);
        assert(a < (1u64 << m)) by (bit_vector)
            requires
                a < (1u64 << n),
                a & (1u64 << m) == 0,
                m + 1 == n,
                n <= 56,
        ;
        lemma_clear_low_bits(a, m);
    }
}

/// Union and difference act bit by bit.
proof fn lemma_combine_bits(a: u64, b: u64, j: u64)
    requires
        j < 64,
    ensures
        ((a | b) & (1u64 << j) != 0) == ((a & (1u64 << j) != 0) || (b & (1u64 << j) != 0)),
        ((a & !b) & (1u64 << j) != 0) == ((a & (1u64 << j) != 0) && !(b & (1u64 << j) != 0)),
        (0u64 & (1u64 << j)) == 0,
{
    assert(((a | b) & (1u64 << j) != 0) == ((a & (1u64 << j) != 0) || (b & (1u64 << j) != 0))) by (bit_vector)
        requires
            j < 64,
    ;
    assert(((a & !b) & (1u64 << j) != 0) == ((a & (1u64 << j) != 0) && !(b & (1u64 << j) != 0))) by (bit_vector)
        requires
            j < 64,
    ;
    assert((0u64 & (1u64 << j)) == 0) by (bit_vector);
}

impl InputState {
    /// Bits of the pressed key positions.
    pub closed spec fn bits(self) -> u64 {
        self.0
    }

    /// States with the same bits are the same.
    pub proof fn lemma_bits_determine(a: InputState, b: InputState)
        requires
            a.bits() == b.bits(),
        ensures
            a == b,
    {
    }

    /// Only bits of key positions are set.
    #[verifier::type_invariant]
    spec fn only_key_bits(self) -> bool {
        self.0 < 0x100_0000_0000_0000u64
    }

    /// The key position is pressed.
    pub open spec fn pressed(self, key: KeyPosition) -> bool {
        self.bits() & key_bit(key) != 0
    }

    /// No key is pressed.
    pub fn new() -> (r: Self)
        ensures
            r.bits() == 0,
            forall|key: KeyPosition| !r.pressed(key),
    {
        let r = InputState(0);
        proof {
            assert forall|key: KeyPosition| !r.pressed(key) by {
                lemma_combine_bits(0, 0, key_index(key) as u64);
            }
        }
        r
    }

    fn bit_index(key: KeyPosition) -> (r: u64)
        ensures
            r == key_index(key),
            r < 56,
    {
        key.index() as u64
    }

    /// Marks a key as pressed; returns the new state.
    pub fn set(&mut self, key: KeyPosition) -> (r: Self)
        ensures
            r == *final(self),
            final(self).pressed(key),
            forall|other: KeyPosition| other != key ==> final(self).pressed(other) == old(self).pressed(other),
            final(self).bits() == old(self).bits() | key_bit(key),
    {
        let index = Self::bit_index(key);
        proof {
            use_type_invariant(&*self);
            let a = self.0;
            assert(a | (1u64 << index) < 0x100_0000_0000_0000u64) by (bit_vector)
                requires
                    a < 0x100_0000_0000_0000u64,
                    index < 56,
            ;
            assert forall|other: KeyPosition| other != key implies (self.0 | (1u64 << index)) & key_bit(other) != 0 == old(
                self,
            ).pressed(other) by {
                super::position::lemma_key_index_injective(key, other);
                lemma_bits(self.0, index, key_index(other) as u64);
            }
            lemma_bits(self.0, index, index);
        }
        self.0 = self.0 | (1u64 << index);
        InputState(self.0)
    }

    /// Marks a key as released; returns the new state.
    pub fn unset(&mut self, key: KeyPosition) -> (r: Self)
        ensures
            r == *final(self),
            !final(self).pressed(key),
            forall|other: KeyPosition| other != key ==> final(self).pressed(other) == old(self).pressed(other),
            final(self).bits() == old(self).bits() & !key_bit(key),
    {
        let index = Self::bit_index(key);
        proof {
            use_type_invariant(&*self);
            let a = self.0;
            assert(a & !(1u64 << index) <= a) by (bit_vector);
            assert forall|other: KeyPosition| other != key implies (self.0 & !(1u64 << index)) & key_bit(other) != 0 == old(
                self,
            ).pressed(other) by {
                super::position::lemma_key_index_injective(key, other);
                lemma_bits(self.0, index, key_index(other) as u64);
            }
            lemma_bits(self.0, index, index);
        }
        self.0 = self.0 & !(1u64 << index);
        InputState(self.0)
    }

    /// The key is pressed.
    pub fn is_set(&self, key: KeyPosition) -> (r: bool)
        ensures
            r == self.pressed(key),
    {
        (self.0 & (1u64 << Self::bit_index(key))) > 0
    }

    /// No key is pressed.
    pub fn is_empty(&self) -> (r: bool)
        ensures
            r == (self.bits() == 0),
            r == forall|key: KeyPosition| !self.pressed(key),
    {
        proof {
            use_type_invariant(self);
            assert forall|key: KeyPosition| self.0 == 0 implies !self.pressed(key) by {
                lemma_combine_bits(0, 0, key_index(key) as u64);
            }
            if forall|key: KeyPosition| !self.pressed(key) {
                assert forall|j: u64| j < 56 implies self.0 & (1u64 << j) == 0 by {
                    super::position::lemma_position_index(j as nat);
                    assert(!self.pressed(position_at(j as nat)));
                }
                assert((1u64 << 56u64) == 0x100_0000_0000_0000u64) by (bit_vector);
                lemma_clear_low_bits(self.0, 56);
            }
        }
        self.0 == 0
    }

    /// Keys pressed in either state.
    pub fn add(self, rhs: Self) -> (r: Self)
        ensures
            forall|key: KeyPosition| r.pressed(key) == (self.pressed(key) || rhs.pressed(key)),
    {
        proof {
            use_type_invariant(&self);
            use_type_invariant(&rhs);
            let a = self.0;
            let b = rhs.0;
            assert(a | b < 0x100_0000_0000_0000u64) by (bit_vector)
                requires
                    a < 0x100_0000_0000_0000u64,
                    b < 0x100_0000_0000_0000u64,
            ;
            assert forall|key: KeyPosition| (self.0 | rhs.0) & key_bit(key) != 0 == (self.pressed(key) || rhs.pressed(key)) by {
                lemma_combine_bits(self.0, rhs.0, key_index(key) as u64);
            }
        }
        InputState(self.0 | rhs.0)
    }

    /// Keys pressed in this state but not in the other.
    pub fn sub(self, rhs: Self) -> (r: Self)
        ensures
            forall|key: KeyPosition| r.pressed(key) == (self.pressed(key) && !rhs.pressed(key)),
    {
        proof {
            use_type_invariant(&self);
            let a = self.0;
            let b = rhs.0;
            assert(a & !b <= a) by (bit_vector);
            assert forall|key: KeyPosition| (self.0 & !rhs.0) & key_bit(key) != 0 == (self.pressed(key) && !rhs.pressed(key)) by {
                lemma_combine_bits(self.0, rhs.0, key_index(key) as u64);
            }
        }
        InputState(self.0 & !rhs.0)
    }

    /// Adds the keys pressed in the other state.
    pub fn add_assign(&mut self, rhs: Self)
        ensures
            forall|key: KeyPosition| final(self).pressed(key) == (old(self).pressed(key) || rhs.pressed(key)),
    {
        *self = self.add(rhs);
    }

    /// Every key position in order with whether it is pressed.
    pub fn keys(&self) -> (r: Vec<(KeyPosition, bool)>)
        ensures
            r@.len() == KEY_POSITION_COUNT,
            forall|i: int| 0 <= i < KEY_POSITION_COUNT ==> (#[trigger] r@[i]) == (position_at(i as nat), self.pressed(
                position_at(i as nat),
            )),
    {
        let mut out: Vec<(KeyPosition, bool)> = Vec::new();
        let mut i: usize = 0;
        while i < KEY_POSITION_COUNT
            invariant
                i <= KEY_POSITION_COUNT,
                out@.len() == i,
                forall|j: int| 0 <= j < i ==> (#[trigger] out@[j]) == (position_at(j as nat), self.pressed(position_at(j as nat))),
            decreases KEY_POSITION_COUNT - i,
        {
            let key = KeyPosition::at(i);
            out.push((key, self.is_set(key)));
            i += 1;
        }
        out
    }

    /// Keys whose state differs in the next state, in order, with the change.
    pub fn edges_toward(&self, next: Self) -> (r: Vec<(KeyPosition, KeyEvent)>)
        ensures
            r@ == edges(*self, next, KEY_POSITION_COUNT as nat),
    {
        let mut out: Vec<(KeyPosition, KeyEvent)> = Vec::new();
        let mut i: usize = 0;
        while i < KEY_POSITION_COUNT
            invariant
                i <= KEY_POSITION_COUNT,
                out@ == edges(*self, next, i as nat),
            decreases KEY_POSITION_COUNT - i,
        {
            let key = KeyPosition::at(i);
            let before = self.is_set(key);
            let after = next.is_set(key);
            if !before && after {
                out.push((key, KeyEvent::Down));
            } else if before && !after {
                out.push((key, KeyEvent::Up));
            }
            i += 1;
        }
        out
    }
}

/// Changes from one state to the next for the first `n` key positions, in order.
pub open spec fn edges(previous: InputState, next: InputState, n: nat) -> Seq<(KeyPosition, KeyEvent)>
    decreases n,
{
    if n == 0 {
        Seq::empty()
    } else {
        let rest = edges(previous, next, (n - 1) as nat);
        let key = position_at((n - 1) as nat);
        if !previous.pressed(key) && next.pressed(key) {
            rest.push((key, KeyEvent::Down))
        } else if previous.pressed(key) && !next.pressed(key) {
            rest.push((key, KeyEvent::Up))
        } else {
            rest
        }
    }
}

/// Pressing a released key and releasing it again gives back the same state.
pub proof fn lemma_set_then_unset_restores(state: InputState, key: KeyPosition, set: InputState, unset: InputState)
    requires
        !state.pressed(key),
        set.bits() == state.bits() | key_bit(key),
        unset.bits() == set.bits() & !key_bit(key),
    ensures
        unset == state,
{
    let a = state.bits();
    let m = key_bit(key);
    assert((a | m) & !m == a) by (bit_vector)
        requires
            a & m == 0,
    ;
    InputState::lemma_bits_determine(state, unset);
}

/// Setting a key then releasing it leaves every other key as it was.
pub proof fn lemma_set_unset(state: InputState, key: KeyPosition, other: KeyPosition, set: InputState, unset: InputState)
    requires
        set.pressed(key),
        forall|k: KeyPosition| k != key ==> set.pressed(k) == state.pressed(k),
        !unset.pressed(key),
        forall|k: KeyPosition| k != key ==> unset.pressed(k) == set.pressed(k),
        other != key,
    ensures
        unset.pressed(other) == state.pressed(other),
{
}

} // verus!
