//! Grouping of keyboard states into strokes.
//!
//! With `LastUp`, a stroke holds every key pressed since the previous stroke and is emitted
//! once all keys are released. With `FirstUp`, releasing a key that was not part of an
//! emitted stroke emits the keys that were held just before; those keys are flagged and
//! releasing them does not emit again until they are pressed anew.
use super::state::KeyEvent;
use vstd::prelude::*;

verus! {

#[derive(PartialEq, Eq, Clone, Copy, Debug, Structural)]
pub enum GroupingMode {
    FirstUp,
    LastUp,
}

/// Some key is pressed, or there are no keys at all.
pub open spec fn any_pressed(state: Seq<bool>) -> bool {
    state.len() == 0 || exists|i: int| 0 <= i < state.len() && state[i]
}

/// Keys pressed in either state.
pub open spec fn union(a: Seq<bool>, b: Seq<bool>) -> Seq<bool> {
    Seq::new(a.len(), |i: int| a[i] || b[i])
}

/// Flags after processing the changes of the first `n` keys from `previous` to `next` with
/// `FirstUp` grouping, and whether a stroke was emitted.
pub open spec fn first_up_flags(previous: Seq<bool>, next: Seq<bool>, flagged: Seq<bool>, n: nat) -> (Seq<bool>, bool)
    decreases n,
{
    if n == 0 {
        (flagged, false)
    } else {
        let (flags, emitted) = first_up_flags(previous, next, flagged, (n - 1) as nat);
        let i = n - 1;
        if !flags[i] && previous[i] && !next[i] {
            (union(flags, previous), true)
        } else if flags[i] && !previous[i] && next[i] {
            (flags.update(i, false), emitted)
        } else {
            (flags, emitted)
        }
    }
}

/// Changes between the first `n` entries of two keyboard states, in order of the keys: the
/// index of each key whose state differs, with `Down` for a press and `Up` for a release.
pub open spec fn key_edges(previous: Seq<bool>, next: Seq<bool>, n: nat) -> Seq<(usize, KeyEvent)>
    decreases n,
{
    if n == 0 {
        Seq::empty()
    } else {
        let rest = key_edges(previous, next, (n - 1) as nat);
        let i = (n - 1) as int;
        if !previous[i] && next[i] {
            rest.push(((n - 1) as usize, KeyEvent::Down))
        } else if previous[i] && !next[i] {
            rest.push(((n - 1) as usize, KeyEvent::Up))
        } else {
            rest
        }
    }
}

pub struct KeypressGrouper<const KEY_COUNT: usize> {
    mode: GroupingMode,
    flagged: Vec<bool>,
    previous: Vec<bool>,
}

impl<const KEY_COUNT: usize> KeypressGrouper<KEY_COUNT> {
    /// Grouping mode.
    pub closed spec fn spec_mode(&self) -> GroupingMode {
        self.mode
    }

    /// Flagged keys (`FirstUp`) or keys accumulated for the next stroke (`LastUp`).
    pub closed spec fn flags(&self) -> Seq<bool> {
        self.flagged@
    }

    /// The previous keyboard state.
    pub closed spec fn previous_state(&self) -> Seq<bool> {
        self.previous@
    }

    /// Both states have one entry per key.
    pub closed spec fn wf(&self) -> bool {
        self.flagged@.len() == KEY_COUNT && self.previous@.len() == KEY_COUNT
    }

    /// The stroke that pushing `state` emits, if any.
    pub open spec fn emission(&self, state: Seq<bool>) -> Option<Seq<bool>> {
        match self.spec_mode() {
            GroupingMode::LastUp => if !any_pressed(state) && any_pressed(self.flags()) {
                Some(self.flags())
            } else {
                None
            },
            GroupingMode::FirstUp => if first_up_flags(self.previous_state(), state, self.flags(), KEY_COUNT as nat).1 {
                Some(self.previous_state())
            } else {
                None
            },
        }
    }

    /// The flags after pushing `state`.
    pub open spec fn next_flags(&self, state: Seq<bool>) -> Seq<bool> {
        match self.spec_mode() {
            GroupingMode::LastUp => if !any_pressed(state) && any_pressed(self.flags()) {
                Seq::new(KEY_COUNT as nat, |i: int| false)
            } else {
                union(self.flags(), state)
            },
            GroupingMode::FirstUp => first_up_flags(self.previous_state(), state, self.flags(), KEY_COUNT as nat).0,
        }
    }

    /// The previous state after pushing `state`.
    pub open spec fn next_previous(&self, state: Seq<bool>) -> Seq<bool> {
        match self.spec_mode() {
            GroupingMode::LastUp => self.previous_state(),
            GroupingMode::FirstUp => state,
        }
    }

    pub fn new(mode: GroupingMode) -> (r: Self)
        ensures
            r.wf(),
            r.spec_mode() == mode,
            r.flags() == Seq::new(KEY_COUNT as nat, |i: int| false),
            r.previous_state() == Seq::new(KEY_COUNT as nat, |i: int| false),
    {
        let r = Self { mode, flagged: vec![false; KEY_COUNT], previous: vec![false; KEY_COUNT] };
        assert(r.flagged@ =~= Seq::new(KEY_COUNT as nat, |i: int| false));
        r
    }

    /// Adds a keyboard state to the grouper and optionally emits a state if the grouping
    /// criterion is fulfilled.
    pub fn push(&mut self, state: Vec<bool>) -> (r: Option<Vec<bool>>)
        requires
            old(self).wf(),
            state@.len() == KEY_COUNT,
        ensures
            final(self).wf(),
            final(self).spec_mode() == old(self).spec_mode(),
            match r {
                Some(stroke) => old(self).emission(state@) == Some(stroke@),
                None => old(self).emission(state@) is None,
            },
            final(self).flags() == old(self).next_flags(state@),
            final(self).previous_state() == old(self).next_previous(state@),
            old(self).spec_mode() == GroupingMode::LastUp ==> {
                if !any_pressed(state@) && any_pressed(old(self).flags()) {
                    &&& r matches Some(stroke) && stroke@ == old(self).flags()
                    &&& final(self).flags() == Seq::new(KEY_COUNT as nat, |i: int| false)
                } else {
                    &&& r is None
                    &&& final(self).flags() == union(old(self).flags(), state@)
                }
            },
            old(self).spec_mode() == GroupingMode::FirstUp ==> {
                let (flags, emitted) = first_up_flags(old(self).previous_state(), state@, old(self).flags(), KEY_COUNT as nat);
                &&& final(self).flags() == flags
                &&& final(self).previous_state() == state@
                &&& if emitted {
                    r matches Some(stroke) && stroke@ == old(self).previous_state()
                } else {
                    r is None
                }
            },
    {
        match self.mode {
            GroupingMode::FirstUp => self.push_first_up(state),
            GroupingMode::LastUp => self.push_last_up(state),
        }
    }

    /// Keys whose state differs between two keyboard states, with the kind of change, in
    /// order of the keys.
    pub fn edges_between(&self, previous: &Vec<bool>, next: &Vec<bool>) -> (r: Vec<(usize, KeyEvent)>)
        requires
            previous@.len() == next@.len(),
        ensures
            r@ == key_edges(previous@, next@, previous@.len()),
    {
        let mut edges: Vec<(usize, KeyEvent)> = Vec::new();
        let mut i: usize = 0;
        while i < previous.len()
            invariant
                i <= previous@.len() == next@.len(),
                edges@ == key_edges(previous@, next@, i as nat),
            decreases previous@.len() - i,
        {
            if !previous[i] && next[i] {
                edges.push((i, KeyEvent::Down));
            } else if previous[i] && !next[i] {
                edges.push((i, KeyEvent::Up));
            }
            i += 1;
        }
        edges
    }

    /// Whether some key is pressed (true if there are no keys).
    fn any(state: &Vec<bool>) -> (r: bool)
        ensures
            r == any_pressed(state@),
    {
        if state.len() == 0 {
            return true;
        }
        let mut i: usize = 0;
        while i < state.len()
            invariant
                i <= state@.len(),
                forall|j: int| 0 <= j < i ==> !state@[j],
            decreases state@.len() - i,
        {
            if state[i] {
                return true;
            }
            i += 1;
        }
        false
    }

    // This function repurposes the `flagged` state as an accumulator for keys until the last one is released
    fn push_last_up(&mut self, state: Vec<bool>) -> (r: Option<Vec<bool>>)
        requires
            old(self).wf(),
            state@.len() == KEY_COUNT,
        ensures
            final(self).wf(),
            final(self).spec_mode() == old(self).spec_mode(),
            final(self).previous_state() == old(self).previous_state(),
            if !any_pressed(state@) && any_pressed(old(self).flags()) {
                &&& r matches Some(stroke) && stroke@ == old(self).flags()
                &&& final(self).flags() == Seq::new(KEY_COUNT as nat, |i: int| false)
            } else {
                &&& r is None
                &&& final(self).flags() == union(old(self).flags(), state@)
            },
    {
        let nothing_pressed = !Self::any(&state);
        let accumulator_filled = Self::any(&self.flagged);
        if nothing_pressed && accumulator_filled {
            let mut accumulated = vec![false; KEY_COUNT];
            core::mem::swap(&mut self.flagged, &mut accumulated);
            assert(self.flagged@ =~= Seq::new(KEY_COUNT as nat, |i: int| false));
            Some(accumulated)
        } else {
            let mut i: usize = 0;
            while i < state.len()
                invariant
                    i <= state@.len() == KEY_COUNT,
                    self.flagged@.len() == KEY_COUNT,
                    old(self).flagged@.len() == KEY_COUNT,
                    self.previous@ == old(self).previous@,
                    self.mode == old(self).mode,
                    forall|j: int| 0 <= j < i ==> #[trigger] self.flagged@[j] == (old(self).flagged@[j] || state@[j]),
                    forall|j: int| i <= j < KEY_COUNT ==> #[trigger] self.flagged@[j] == old(self).flagged@[j],
                decreases state@.len() - i,
            {
                let ghost before = self.flagged@;
                if state[i] {
                    self.flagged.set(i, true);
                }
                assert forall|j: int| 0 <= j < i + 1 implies self.flagged@[j] == (old(self).flagged@[j] || state@[j]) by {
                    if j < i {
                        assert(self.flagged@[j] == before[j]);
                    }
                }
                i += 1;
            }
            assert(self.flagged@ =~= union(old(self).flags(), state@));
            None
        }
    }

    fn push_first_up(&mut self, state: Vec<bool>) -> (r: Option<Vec<bool>>)
        requires
            old(self).wf(),
            state@.len() == KEY_COUNT,
        ensures
            final(self).wf(),
            final(self).spec_mode() == old(self).spec_mode(),
            ({
                let (flags, emitted) = first_up_flags(old(self).previous_state(), state@, old(self).flags(), KEY_COUNT as nat);
                &&& final(self).flags() == flags
                &&& final(self).previous_state() == state@
                &&& if emitted {
                    r matches Some(stroke) && stroke@ == old(self).previous_state()
                } else {
                    r is None
                }
            }),
    {
        let mut emit = false;
        let mut i: usize = 0;
        let ghost previous = self.previous@;
        let ghost start = self.flagged@;
        while i < state.len()
            invariant
                i <= state@.len() == KEY_COUNT,
                self.flagged@.len() == KEY_COUNT,
                self.previous@ == previous,
                previous.len() == KEY_COUNT,
                start == old(self).flagged@,
                start.len() == KEY_COUNT,
                self.mode == old(self).mode,
                (self.flagged@, emit) == first_up_flags(previous, state@, start, i as nat),
            decreases state@.len() - i,
        {
            proof {
                lemma_first_up_len(previous, state@, start, i as nat);
            }
            let was = self.previous[i];
            let now = state[i];
            if !self.flagged[i] && was && !now {
                // Whenever a non-flagged key is released, emit a stroke containing all previously pressed keys.
                emit = true;
                // Flag all emitted keys
                let mut j: usize = 0;
                let ghost before = self.flagged@;
                while j < self.previous.len()
                    invariant
                        j <= KEY_COUNT,
                        self.previous@ == previous,
                        previous.len() == KEY_COUNT,
                        self.mode == old(self).mode,
                        before.len() == KEY_COUNT,
                        self.flagged@.len() == KEY_COUNT,
                        forall|k: int| 0 <= k < j ==> self.flagged@[k] == (before[k] || previous[k]),
                        forall|k: int| j <= k < KEY_COUNT ==> self.flagged@[k] == before[k],
                    decreases KEY_COUNT - j,
                {
                    if self.previous[j] {
                        self.flagged.set(j, true);
                    }
                    j += 1;
                }
                assert(self.flagged@ =~= union(before, previous));
            } else if self.flagged[i] && !was && now {
                // When pressing a flagged key, remove any flag
                self.flagged.set(i, false);
            }
            i += 1;
        }
        let mut next = state;
        core::mem::swap(&mut self.previous, &mut next);
        if emit {
            Some(next)
        } else {
            None
        }
    }
}

proof fn lemma_first_up_len(previous: Seq<bool>, next: Seq<bool>, flagged: Seq<bool>, n: nat)
    requires
        previous.len() == flagged.len(),
        n <= flagged.len(),
    ensures
        first_up_flags(previous, next, flagged, n).0.len() == flagged.len(),
    decreases n,
{
    if n > 0 {
        lemma_first_up_len(previous, next, flagged, (n - 1) as nat);
        let flags = first_up_flags(previous, next, flagged, (n - 1) as nat).0;
        assert(union(flags, previous).len() == flags.len());
        assert(flags.update(n - 1, false).len() == flags.len());
    }
}

} // verus!
