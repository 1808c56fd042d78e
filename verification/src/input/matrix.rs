//! Scanning a key matrix.
//!
//! Each column is driven in turn while the rows are read; the keymap names the key position of
//! every (row, column) pair, row by row, or nothing where no key is wired. While no key is
//! pressed the scanner sleeps until a press wakes it up, otherwise it scans at a fixed
//! interval. Only states that differ from the previous one are passed on.
use super::position::KeyPosition;
use super::state::InputState;
use vstd::prelude::*;

verus! {

/// Some pair whose reading is high maps to the key position.
pub open spec fn read_pressed(readings: Seq<bool>, keymap: Seq<Option<KeyPosition>>, key: KeyPosition) -> bool {
    exists|i: int| 0 <= i < readings.len() && readings[i] && #[trigger] keymap[i] == Some(key)
}

/// Keyboard state from the readings of every (row, column) pair of a matrix, in the order of
/// the keymap: the positions of the pairs read high are pressed.
pub fn state_from_readings(readings: &Vec<bool>, keymap: &Vec<Option<KeyPosition>>) -> (r: InputState)
    requires
        readings@.len() == keymap@.len(),
    ensures
        forall|key: KeyPosition| #[trigger] r.pressed(key) == read_pressed(readings@, keymap@, key),
{
    let mut state = InputState::new();
    let mut i: usize = 0;
    while i < readings.len()
        invariant
            i <= readings@.len() == keymap@.len(),
            forall|key: KeyPosition| #[trigger] state.pressed(key) == read_pressed(readings@.take(i as int), keymap@, key),
        decreases readings@.len() - i,
    {
        let ghost before = state;
        if readings[i] {
            if let Some(position) = keymap[i] {
                state.set(position);
            }
        }
        proof {
            let taken = readings@.take(i + 1);
            assert forall|key: KeyPosition| #[trigger] state.pressed(key) == read_pressed(taken, keymap@, key) by {
                if read_pressed(taken, keymap@, key) {
                    let j = choose|j: int| 0 <= j < taken.len() && taken[j] && #[trigger] keymap@[j] == Some(key);
                    if j < i {
                        assert(readings@.take(i as int)[j] == taken[j]);
                    }
                }
                if read_pressed(readings@.take(i as int), keymap@, key) {
                    let j = choose|j: int| 0 <= j < i && readings@.take(i as int)[j] && #[trigger] keymap@[j] == Some(key);
                    assert(taken[j] == readings@.take(i as int)[j]);
                }
            }
        }
        i += 1;
    }
    assert(readings@.take(readings@.len() as int) =~= readings@);
    state
}

/// What the scanner remembers between scans: whether it sleeps until a key is pressed, and
/// the state it passed on last.
pub struct MatrixScanState {
    sleeping: bool,
    previous: Option<InputState>,
}

impl MatrixScanState {
    pub closed spec fn spec_sleeping(&self) -> bool {
        self.sleeping
    }

    pub closed spec fn spec_previous(&self) -> Option<InputState> {
        self.previous
    }

    /// Starts scanning at the interval, with nothing passed on yet.
    pub fn new() -> (r: Self)
        ensures
            !r.spec_sleeping(),
            r.spec_previous() is None,
    {
        Self { sleeping: false, previous: None }
    }

    /// The next scan waits for a key press rather than for the scan interval.
    pub fn waits_for_press(&self) -> (r: bool)
        ensures
            r == self.spec_sleeping(),
    {
        self.sleeping
    }

    /// Takes the state of a scan: the scanner sleeps while nothing is pressed, and the state is
    /// passed on when it differs from the previous one.
    pub fn after_scan(&mut self, data: InputState) -> (r: Option<InputState>)
        ensures
            final(self).spec_sleeping() == (data.bits() == 0),
            final(self).spec_previous() == Some(data),
            r == if old(self).spec_previous() == Some(data) { None } else { Some(data) },
    {
        self.sleeping = data.is_empty();
        let included = match self.previous {
            Some(previous) => previous != data,
            None => true,
        };
        self.previous = Some(data);
        if included {
            Some(data)
        } else {
            None
        }
    }
}

} // verus!
