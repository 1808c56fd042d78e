//! Stenography state machine for resolving strokes into outlines
use vstd::prelude::*;

pub mod entry;
pub mod mutator;
pub mod resolver;
pub mod state;

pub use entry::{HistoryEntry, OutlineInformation};
pub use resolver::TrailingOutline;
use mutator::StateMutator;
use resolver::StateResolver;
use state::State;

verus! {

/// Wrapper around the stroke history, the mutator and the resolver.
pub struct OutlineMatcher<Stroke, const HISTORY_SIZE: usize> {
    state: State<Stroke, HISTORY_SIZE>,
    mutator: StateMutator,
    resolver: StateResolver,
}

impl<Stroke, const HISTORY_SIZE: usize> OutlineMatcher<Stroke, HISTORY_SIZE> {
    /// Stroke history of the matcher.
    pub closed spec fn history(&self) -> State<Stroke, HISTORY_SIZE> {
        self.state
    }

    /// Longest outline that is matched.
    pub closed spec fn longest_outline_length(&self) -> nat {
        self.mutator.longest_outline_length as nat
    }

    pub open spec fn wf(&self) -> bool {
        self.history().wf()
    }

    pub fn new(longest_outline_length: usize) -> (r: Self)
        ensures
            r.wf(),
            r.history().entries() == Seq::<HistoryEntry<Stroke>>::empty(),
            r.history().uncommitted_count == 0,
            r.longest_outline_length() == longest_outline_length,
    {
        Self {
            state: State::new(),
            mutator: StateMutator::new(longest_outline_length),
            resolver: StateResolver::new(),
        }
    }

    /// Adds a stroke; see [`StateMutator::add`].
    pub fn add(&mut self, stroke: Stroke)
        requires
            old(self).wf(),
            HISTORY_SIZE > 0,
            old(self).longest_outline_length() > 0,
        ensures
            final(self).wf(),
            final(self).longest_outline_length() == old(self).longest_outline_length(),
            final(self).history().entries() == mutator::pushed(
                old(self).history().entries(),
                HistoryEntry { stroke, outline: None },
                HISTORY_SIZE as nat,
            ),
            final(self).history().uncommitted_count == vstd::math::max(
                old(self).history().uncommitted_count as int,
                mutator::uncommitted_boundary(
                    final(self).history().entries(),
                    vstd::math::min(
                        old(self).longest_outline_length() as int,
                        final(self).history().entries().len() as int,
                    ),
                ),
            ),
            state::outlines_fit(old(self).history().entries()) ==> state::outlines_fit(
                final(self).history().entries(),
            ),
    {
        self.mutator.add(stroke, &mut self.state)
    }

    /// Removes the newest stroke; see [`StateMutator::pop`].
    pub fn pop(&mut self) -> (r: Option<OutlineInformation>)
        requires
            old(self).wf(),
        ensures
            final(self).wf(),
            final(self).longest_outline_length() == old(self).longest_outline_length(),
            old(self).history().entries().len() == 0 ==> r is None && final(self).history()
                == old(self).history(),
            old(self).history().entries().len() > 0 ==> final(self).history().entries().len()
                == old(self).history().entries().len() - 1,
            old(self).history().entries().len() > 0 ==> ({
                let removed = old(self).history().entries().last();
                let rest = old(self).history().entries().drop_last();
                let count = if old(self).history().uncommitted_count > 0 {
                    old(self).history().uncommitted_count - 1
                } else {
                    0
                };
                let o = state::first_outline_from(rest, 0);
                if removed.outline is Some {
                    r == removed.outline && final(self).history().entries() == rest
                        && final(self).history().uncommitted_count == count
                } else if o < rest.len() && state::entry_from_back(rest, o).outline->0.length == o + 2 {
                    r == state::entry_from_back(rest, o).outline && final(self).history().entries() == rest.update(
                        rest.len() - 1 - o,
                        HistoryEntry { stroke: state::entry_from_back(rest, o).stroke, outline: None },
                    ) && final(self).history().uncommitted_count == vstd::math::max(count, o)
                } else {
                    r is None && final(self).history().entries() == rest && final(self).history().uncommitted_count
                        == count
                }
            }),
            state::outlines_fit(old(self).history().entries()) && state::newest_covered_properly(
                old(self).history().entries(),
            ) ==> state::outlines_fit(final(self).history().entries()),
    {
        self.mutator.pop(&mut self.state)
    }

    /// Commits an outline; see [`StateResolver::commit`].
    pub fn commit(&mut self, prefix_length: u8, command_count: u8) -> (r: Result<(), TrailingOutline>)
        requires
            old(self).wf(),
            state::trailing_outline_fits(old(self).history().entries(), old(self).history().uncommitted_count as int),
            0 < prefix_length <= old(self).history().uncommitted_count,
        ensures
            final(self).wf(),
            final(self).longest_outline_length() == old(self).longest_outline_length(),
            state::outlines_fit(old(self).history().entries()) ==> state::outlines_fit(final(self).history().entries()),
            ({
                let entries = old(self).history().entries();
                let count = old(self).history().uncommitted_count;
                let oldest = state::entry_from_back(entries, count - 1);
                let trailing = state::first_outline_from(entries, 0);
                if oldest.outline is Some && oldest.outline->0.length == prefix_length {
                    r is Ok && final(self).history().entries() == entries && final(self).history().uncommitted_count
                        == count - prefix_length
                } else if trailing < count {
                    r is Err && r->Err_0.start() == trailing + 1 - state::entry_from_back(
                        entries,
                        trailing,
                    ).outline->0.length && r->Err_0.end() == trailing + 1 && r->Err_0.is_in(
                        &final(self).history(),
                    ) && final(self).history() == old(self).history()
                } else {
                    r is Ok && final(self).history().entries() == entries.update(
                        entries.len() - count,
                        HistoryEntry {
                            stroke: oldest.stroke,
                            outline: Some(OutlineInformation { length: prefix_length, commands: command_count }),
                        },
                    ) && final(self).history().uncommitted_count == count - prefix_length
                }
            }),
    {
        self.resolver.commit(prefix_length, command_count, &mut self.state)
    }

    /// Information about a trailing outline returned by [`commit`](OutlineMatcher::commit).
    pub fn trailing_outline(&self, trailing: &TrailingOutline) -> (r: &OutlineInformation)
        requires
            trailing.is_in(&self.history()),
        ensures
            Some(*r) == state::entry_from_back(self.history().entries(), trailing.end() - 1).outline,
    {
        trailing.outline(&self.state)
    }

    /// Strokes of a trailing outline returned by [`commit`](OutlineMatcher::commit), oldest first.
    pub fn trailing_strokes(&self, trailing: &TrailingOutline) -> (r: Vec<&Stroke>)
        requires
            trailing.is_in(&self.history()),
        ensures
            r@.len() == trailing.end() - trailing.start(),
            forall|j: int|
                0 <= j < r@.len() ==> *#[trigger] r@[j] == state::entry_from_back(
                    self.history().entries(),
                    trailing.end() - 1 - j,
                ).stroke,
    {
        trailing.strokes(&self.state)
    }

    /// Removes a trailing outline returned by [`commit`](OutlineMatcher::commit) from the history.
    pub fn remove_trailing_outline(&mut self, trailing: TrailingOutline)
        requires
            trailing.is_in(&old(self).history()),
        ensures
            final(self).wf(),
            final(self).longest_outline_length() == old(self).longest_outline_length(),
            final(self).history().uncommitted_count == old(self).history().uncommitted_count,
            final(self).history().entries() == old(self).history().entries().update(
                old(self).history().entries().len() - trailing.end(),
                HistoryEntry {
                    stroke: state::entry_from_back(old(self).history().entries(), trailing.end() - 1).stroke,
                    outline: None,
                },
            ),
            state::outlines_fit(old(self).history().entries()) ==> state::outlines_fit(
                final(self).history().entries(),
            ),
    {
        trailing.remove(&mut self.state)
    }

    /// The newest outline among the uncommitted strokes, if any, only covers its own stroke and
    /// newer ones: what [`commit`](OutlineMatcher::commit) requires.
    pub fn can_commit(&self) -> (r: bool)
        requires
            self.wf(),
        ensures
            r == state::trailing_outline_fits(self.history().entries(), self.history().uncommitted_count as int),
    {
        let ghost entries = self.state.entries();
        proof {
            state::lemma_first_outline(entries);
        }
        let mut offset: usize = 0;
        while offset < self.state.uncommitted_count
            invariant
                self.wf(),
                entries == self.state.entries(),
                offset <= self.state.uncommitted_count,
                offset <= state::first_outline_from(entries, 0),
                state::first_outline_from(entries, 0) <= entries.len(),
                state::first_outline_from(entries, 0) < entries.len() ==> state::entry_from_back(
                    entries,
                    state::first_outline_from(entries, 0),
                ).outline is Some,
                forall|o: int|
                    0 <= o < state::first_outline_from(entries, 0) ==> (#[trigger] state::entry_from_back(entries, o)).outline
                        is None,
            decreases self.state.uncommitted_count - offset,
        {
            let entry = self.state.strokes.index(offset);
            assert(*entry == state::entry_from_back(entries, offset as int));
            if let Some(outline) = &entry.outline {
                assert(state::first_outline_from(entries, 0) == offset);
                return (outline.length as usize) <= offset + 1;
            }
            offset += 1;
        }
        true
    }

    /// Number of uncommitted strokes.
    pub fn uncommitted_count(&self) -> (r: usize)
        ensures
            r == self.history().uncommitted_count,
    {
        self.state.uncommitted_count
    }

    /// Uncommitted strokes, oldest first.
    pub fn uncommitted_strokes(&self) -> (r: Vec<&Stroke>)
        requires
            self.wf(),
        ensures
            r@.len() == self.history().uncommitted_count,
            forall|j: int|
                0 <= j < r@.len() ==> *#[trigger] r@[j] == self.history().entries()[self.history().entries().len()
                    - self.history().uncommitted_count + j].stroke,
    {
        self.state.uncommitted_strokes()
    }

    /// Committed history entries, oldest first.
    pub fn committed_strokes(&self) -> (r: Vec<&HistoryEntry<Stroke>>)
        requires
            self.wf(),
        ensures
            r@.len() == self.history().entries().len() - self.history().uncommitted_count,
            forall|j: int| 0 <= j < r@.len() ==> *#[trigger] r@[j] == self.history().entries()[j],
    {
        self.state.committed_strokes()
    }
}

} // verus!
