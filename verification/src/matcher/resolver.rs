//! Committing matched outlines into the history.
use super::entry::{HistoryEntry, OutlineInformation};
use super::state::{entry_from_back, first_outline_from, lemma_first_outline, outlines_fit, trailing_outline_fits, State};
use vstd::prelude::*;

verus! {

/// Outline at the end of the history stack which has to be undone before new outlines can be committed.
/// It covers the entries at the offsets `start..end` from the back; its information is stored at offset `end - 1`.
pub struct TrailingOutline {
    range: core::ops::Range<usize>,
}

impl TrailingOutline {
    pub closed spec fn start(&self) -> int {
        self.range.start as int
    }

    pub closed spec fn end(&self) -> int {
        self.range.end as int
    }

    /// The trailing outline describes an outline stored in the given history.
    pub open spec fn is_in<Stroke, const HISTORY_SIZE: usize>(&self, state: &State<Stroke, HISTORY_SIZE>) -> bool {
        &&& state.wf()
        &&& 0 <= self.start() <= self.end()
        &&& 1 <= self.end() <= state.entries().len()
        &&& entry_from_back(state.entries(), self.end() - 1).outline is Some
    }

    /// Consumes the trailing outline, removing its information from the history.
    /// Usually this function is called when you have undone the side-effects caused when this outline was initially committed.
    pub fn remove<Stroke, const HISTORY_SIZE: usize>(self, state: &mut State<Stroke, HISTORY_SIZE>)
        requires
            self.is_in(old(state)),
        ensures
            final(state).wf(),
            final(state).uncommitted_count == old(state).uncommitted_count,
            final(state).entries() == old(state).entries().update(
                old(state).entries().len() - self.end(),
                HistoryEntry {
                    stroke: entry_from_back(old(state).entries(), self.end() - 1).stroke,
                    outline: None,
                },
            ),
            outlines_fit(old(state).entries()) ==> outlines_fit(final(state).entries()),
    {
        let ghost old_entries = state.entries();
        match state.stroke_from_back(self.range.end - 1) {
            Some(entry) => {
                entry.outline = None;
            },
            None => {},
        }
        proof {
            let now = state.entries();
            if outlines_fit(old_entries) {
                assert forall|o: int|
                    0 <= o < now.len() && (#[trigger] entry_from_back(now, o)).outline is Some
                        implies entry_from_back(now, o).outline->0.length <= o + 1 by {
                    assert(entry_from_back(now, o) == entry_from_back(old_entries, o));
                }
            }
        }
    }

    /// Information about the outline itself.
    pub fn outline<'a, Stroke, const HISTORY_SIZE: usize>(&self, state: &'a State<Stroke, HISTORY_SIZE>) -> (r: &'a OutlineInformation)
        requires
            self.is_in(state),
        ensures
            Some(*r) == entry_from_back(state.entries(), self.end() - 1).outline,
    {
        state.strokes.index(self.range.end - 1).outline.as_ref().unwrap()
    }

    /// Strokes contained within the outline, oldest first.
    pub fn strokes<'a, Stroke, const HISTORY_SIZE: usize>(&self, state: &'a State<Stroke, HISTORY_SIZE>) -> (r: Vec<&'a Stroke>)
        requires
            self.is_in(state),
        ensures
            r@.len() == self.end() - self.start(),
            forall|j: int|
                0 <= j < r@.len() ==> *#[trigger] r@[j] == entry_from_back(
                    state.entries(),
                    self.end() - 1 - j,
                ).stroke,
    {
        let mut out: Vec<&Stroke> = Vec::new();
        let mut i = self.range.end;
        while i > self.range.start
            invariant
                self.is_in(state),
                self.start() <= i <= self.end(),
                out@.len() == self.end() - i,
                forall|j: int|
                    0 <= j < out@.len() ==> *#[trigger] out@[j] == entry_from_back(
                        state.entries(),
                        self.end() - 1 - j,
                    ).stroke,
            decreases i,
        {
            i -= 1;
            out.push(&state.strokes.index(i).stroke);
        }
        out
    }
}

/// Tool to drive the [`State`](super::state::State) into a resolved state with all strokes matched.
pub struct StateResolver;

impl StateResolver {
    pub fn new() -> (r: Self) {
        Self {}
    }

    /// Attempts to commit an outline given by a number of strokes forming a prefix of the
    /// uncommitted stroke list of the given state (counted from the oldest uncommitted stroke).
    ///
    /// If the oldest uncommitted stroke already starts an outline of the same length, it is kept.
    /// Otherwise an outline stored within the uncommitted strokes has to be removed first and
    /// is returned as an error; without one, the outline is stored and its strokes are committed.
    pub fn commit<Stroke, const HISTORY_SIZE: usize>(
        &self,
        prefix_length: u8,
        command_count: u8,
        state: &mut State<Stroke, HISTORY_SIZE>,
    ) -> (r: Result<(), TrailingOutline>)
        requires
            old(state).wf(),
            trailing_outline_fits(old(state).entries(), old(state).uncommitted_count as int),
            0 < prefix_length <= old(state).uncommitted_count,
        ensures
            final(state).wf(),
            outlines_fit(old(state).entries()) ==> outlines_fit(final(state).entries()),
            ({
                let entries = old(state).entries();
                let count = old(state).uncommitted_count;
                let oldest = entry_from_back(entries, count - 1);
                let trailing = first_outline_from(entries, 0);
                if oldest.outline is Some && oldest.outline->0.length == prefix_length {
                    r is Ok && final(state).entries() == entries && final(state).uncommitted_count
                        == count - prefix_length
                } else if trailing < count {
                    r is Err && r->Err_0.start() == trailing + 1 - entry_from_back(
                        entries,
                        trailing,
                    ).outline->0.length && r->Err_0.end() == trailing + 1 && r->Err_0.is_in(
                        final(state),
                    ) && *final(state) == *old(state)
                } else {
                    r is Ok && final(state).entries() == entries.update(
                        entries.len() - count,
                        HistoryEntry {
                            stroke: oldest.stroke,
                            outline: Some(OutlineInformation { length: prefix_length, commands: command_count }),
                        },
                    ) && final(state).uncommitted_count == count - prefix_length
                }
            }),
    {
        let ghost entries = state.entries();
        let count = state.uncommitted_count;
        proof {
            lemma_first_outline(entries);
        }

        // Check if the prefix length matches an already present outline exactly and commit it if applicable.
        // This allows commits that will not change the outline information even with trailing outlines present,
        // optimizing an undo-redo cycle away that would otherwise occur.
        let oldest = state.strokes.index(count - 1);
        assert(*oldest == entry_from_back(entries, count - 1));
        let matches = match &oldest.outline {
            Some(outline) => outline.length == prefix_length,
            None => false,
        };
        if matches {
            state.uncommitted_count = count - prefix_length as usize;
            return Ok(());
        }

        // Bail if we have a trailing outline that has to be removed first
        if let Some(range) = self.find_trailing_outline(state) {
            return Err(TrailingOutline { range });
        }

        // Apply the commit by storing the outline information and adjusting the uncommitted count
        let outline = OutlineInformation { length: prefix_length, commands: command_count };
        match state.stroke_from_back(count - 1) {
            Some(entry) => {
                entry.outline = Some(outline);
            },
            None => {},
        }
        state.uncommitted_count = count - prefix_length as usize;
        proof {
            let now = state.entries();
            if outlines_fit(entries) {
            assert forall|o: int|
                0 <= o < now.len() && (#[trigger] entry_from_back(now, o)).outline is Some
                    implies entry_from_back(now, o).outline->0.length <= o + 1 by {
                if o != count - 1 {
                    assert(entry_from_back(now, o) == entry_from_back(entries, o));
                }
            }
            }
        }
        Ok(())
    }

    /// Finds the newest outline in the uncommitted section of the history. Such outlines are present when a stroke has been added after a previously committed outline.
    /// Since the stroke might alter the outline, its strokes will be included in the "uncommitted" section of the buffer and resolving new outlines requires the old one to be undone first.
    fn find_trailing_outline<Stroke, const HISTORY_SIZE: usize>(
        &self,
        state: &State<Stroke, HISTORY_SIZE>,
    ) -> (r: Option<core::ops::Range<usize>>)
        requires
            state.wf(),
            trailing_outline_fits(state.entries(), state.uncommitted_count as int),
        ensures
            ({
                let trailing = first_outline_from(state.entries(), 0);
                if trailing < state.uncommitted_count {
                    r is Some && r->0.start == trailing + 1 - entry_from_back(
                        state.entries(),
                        trailing,
                    ).outline->0.length && r->0.end == trailing + 1
                } else {
                    r is None
                }
            }),
    {
        let ghost entries = state.entries();
        proof {
            lemma_first_outline(entries);
        }
        let mut offset: usize = 0;
        while offset < state.uncommitted_count
            invariant
                state.wf(),
                trailing_outline_fits(entries, state.uncommitted_count as int),
                entries == state.entries(),
                offset <= state.uncommitted_count,
                offset <= first_outline_from(entries, 0),
                first_outline_from(entries, 0) <= entries.len(),
                first_outline_from(entries, 0) < entries.len() ==> entry_from_back(
                    entries,
                    first_outline_from(entries, 0),
                ).outline is Some,
                forall|o: int|
                    0 <= o < first_outline_from(entries, 0) ==> (#[trigger] entry_from_back(
                        entries,
                        o,
                    )).outline is None,
            decreases state.uncommitted_count - offset,
        {
            let entry = state.strokes.index(offset);
            assert(*entry == entry_from_back(entries, offset as int));
            if let Some(outline) = &entry.outline {
                let length = outline.length as usize;
                assert(first_outline_from(entries, 0) == offset);
                return Some(offset + 1 - length..offset + 1);
            }
            offset += 1;
        }
        None
    }
}

} // verus!
