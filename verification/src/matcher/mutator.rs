//! Adding and removing strokes from the history.
use super::entry::{HistoryEntry, OutlineInformation};
use super::state::{
    entry_from_back, first_outline_from, lemma_first_outline, newest_covered_properly, outlines_fit,
    State,
};
use vstd::prelude::*;

verus! {

/// Tool to modify the [`State`](super::state::State) by adding/removing strokes
pub struct StateMutator {
    pub longest_outline_length: usize,
}

/// Number of newest strokes that have to be rematched after a stroke was added: starting with
/// `count`, strokes are included up to and including the next entry that starts an outline,
/// limited by the history length.
pub open spec fn uncommitted_boundary<S>(entries: Seq<HistoryEntry<S>>, count: int) -> int
    decreases entries.len() - count,
{
    if count >= entries.len() {
        entries.len() as int
    } else if count >= 1 && entry_from_back(entries, count - 1).outline is Some {
        count
    } else {
        uncommitted_boundary(entries, count + 1)
    }
}

proof fn lemma_boundary_range<S>(entries: Seq<HistoryEntry<S>>, count: int)
    requires
        0 <= count,
    ensures
        count <= entries.len() ==> count <= uncommitted_boundary(entries, count),
        uncommitted_boundary(entries, count) <= entries.len(),
        count > entries.len() ==> uncommitted_boundary(entries, count) == entries.len(),
    decreases entries.len() - count,
{
    if count < entries.len() && !(count >= 1 && entry_from_back(entries, count - 1).outline is Some) {
        lemma_boundary_range(entries, count + 1);
    }
}

/// History after pushing a new entry into a history of capacity `capacity`.
pub open spec fn pushed<S>(entries: Seq<HistoryEntry<S>>, entry: HistoryEntry<S>, capacity: nat) -> Seq<HistoryEntry<S>> {
    if entries.len() < capacity {
        entries.push(entry)
    } else {
        entries.drop_first().push(entry)
    }
}

impl StateMutator {
    pub fn new(longest_outline_length: usize) -> (r: Self)
        ensures
            r.longest_outline_length == longest_outline_length,
    {
        Self { longest_outline_length }
    }

    /// Adds a stroke to the history and marks the strokes which have to be (re-)matched as uncommitted:
    /// at least the newest `longest_outline_length` strokes and any strokes up to the next outline border.
    pub fn add<Stroke, const HISTORY_SIZE: usize>(
        &self,
        stroke: Stroke,
        state: &mut State<Stroke, HISTORY_SIZE>,
    )
        requires
            old(state).wf(),
            HISTORY_SIZE > 0,
            self.longest_outline_length > 0,
        ensures
            final(state).wf(),
            final(state).entries() == pushed(
                old(state).entries(),
                HistoryEntry { stroke, outline: None },
                HISTORY_SIZE as nat,
            ),
            final(state).uncommitted_count == vstd::math::max(
                old(state).uncommitted_count as int,
                uncommitted_boundary(
                    final(state).entries(),
                    vstd::math::min(
                        self.longest_outline_length as int,
                        final(state).entries().len() as int,
                    ),
                ),
            ),
            outlines_fit(old(state).entries()) ==> outlines_fit(final(state).entries()),
    {
        let ghost old_entries = state.entries();
        let _ = state.strokes.len();
        let entry = HistoryEntry::new(stroke);
        assert(entry == HistoryEntry { stroke, outline: None });
        state.strokes.push(entry);
        let ghost entries = state.entries();
        assert(entries == pushed(old_entries, HistoryEntry { stroke, outline: None }, HISTORY_SIZE as nat));
        let len = state.strokes.len();

        // Mark all strokes from the back up to the longest possible outline length as uncommitted.
        let mut uncommitted_count = if self.longest_outline_length < len {
            self.longest_outline_length
        } else {
            len
        };
        let ghost start = uncommitted_count as int;
        proof {
            lemma_boundary_range(entries, start);
        }

        // Include any strokes up to the next outline border so future matching does not consume strokes 'bound' by another outline
        while uncommitted_count < len
            invariant
                state.wf(),
                state.entries() == entries,
                len == entries.len(),
                1 <= uncommitted_count <= len,
                uncommitted_boundary(entries, start) == uncommitted_boundary(
                    entries,
                    uncommitted_count as int,
                ),
            ensures
                1 <= uncommitted_count <= len,
                uncommitted_boundary(entries, start) == uncommitted_count,
            decreases len - uncommitted_count,
        {
            let entry = state.strokes.index(uncommitted_count - 1);
            if entry.outline.is_some() {
                assert(entry_from_back(entries, uncommitted_count - 1) == *entry);
                break;
            }
            uncommitted_count += 1;
        }
        proof {
            lemma_boundary_range(entries, uncommitted_count as int);
        }
        if state.uncommitted_count < uncommitted_count {
            state.uncommitted_count = uncommitted_count;
        }
        proof {
            if outlines_fit(old_entries) {
                assert forall|o: int|
                    0 <= o < entries.len() && (#[trigger] entry_from_back(entries, o)).outline is Some
                        implies entry_from_back(entries, o).outline->0.length <= o + 1 by {
                    if o > 0 {
                        assert(entry_from_back(entries, o) == entry_from_back(old_entries, o - 1));
                    }
                }
            }
        }
    }

    /// Removes the newest stroke. Returns the outline the stroke was part of (which is removed as
    /// well), if any, and marks the strokes of a removed outline as uncommitted.
    pub fn pop<Stroke, const HISTORY_SIZE: usize>(
        &self,
        state: &mut State<Stroke, HISTORY_SIZE>,
    ) -> (r: Option<OutlineInformation>)
        requires
            old(state).wf(),
        ensures
            final(state).wf(),
            old(state).entries().len() == 0 ==> r is None && *final(state) == *old(state),
            old(state).entries().len() > 0 ==> final(state).entries().len() == old(state).entries().len() - 1,
            old(state).entries().len() > 0 ==> ({
                let removed = old(state).entries().last();
                let rest = old(state).entries().drop_last();
                let count = if old(state).uncommitted_count > 0 {
                    old(state).uncommitted_count - 1
                } else {
                    0
                };
                let o = first_outline_from(rest, 0);
                if removed.outline is Some {
                    r == removed.outline && final(state).entries() == rest
                        && final(state).uncommitted_count == count
                } else if o < rest.len() && entry_from_back(rest, o).outline->0.length == o + 2 {
                    r == entry_from_back(rest, o).outline && final(state).entries() == rest.update(
                        rest.len() - 1 - o,
                        HistoryEntry { stroke: entry_from_back(rest, o).stroke, outline: None },
                    ) && final(state).uncommitted_count == vstd::math::max(count, o)
                } else {
                    r is None && final(state).entries() == rest && final(state).uncommitted_count
                        == count
                }
            }),
            outlines_fit(old(state).entries()) && newest_covered_properly(old(state).entries())
                ==> outlines_fit(final(state).entries()),
    {
        let ghost old_entries = state.entries();
        let ghost valid = outlines_fit(old_entries) && newest_covered_properly(old_entries);
        match state.strokes.pop() {
            Some(stroke) => {
                // Since we removed an item, we have to decrement the uncommitted count by one
                if state.uncommitted_count > 0 {
                    state.uncommitted_count -= 1;
                }
                if state.uncommitted_count > state.strokes.len() {
                    state.uncommitted_count = state.strokes.len();
                }
                // If we removed a stroke and it started an outline, it can not be part of another outline started earlier.
                if let Some(outline) = stroke.outline {
                    proof {
                        if valid {
                            let rest = state.entries();
                            assert(entry_from_back(old_entries, 0) == stroke);
                            assert forall|o: int|
                                0 <= o < rest.len() && (#[trigger] entry_from_back(rest, o)).outline is Some
                                    implies entry_from_back(rest, o).outline->0.length <= o + 1 by {
                                assert(entry_from_back(rest, o) == entry_from_back(old_entries, o + 1));
                                if entry_from_back(rest, o).outline->0.length == o + 2 {
                                    assert(entry_from_back(old_entries, 0).outline is None);
                                }
                            }
                        }
                    }
                    return Some(outline);
                }
            },
            // If there is nothing to remove, our work is done here
            None => return None,
        }

        // The removed stroke could be part of an outline started earlier, thus we travel backwards
        // to find the most recent outline and then check whether the removed stroke was part of it.
        let ghost rest = state.entries();
        proof {
            lemma_first_outline(rest);
            assert(rest == old_entries.drop_last());
            assert(forall|o: int| 0 <= o < rest.len() ==> #[trigger] entry_from_back(rest, o) == entry_from_back(old_entries, o + 1));
        }
        let len = state.strokes.len();
        let mut offset: usize = 0;
        while offset < len
            invariant
                state.wf(),
                state.entries() == rest,
                len == rest.len(),
                offset <= len,
                forall|o: int| 0 <= o < offset ==> (#[trigger] entry_from_back(rest, o)).outline is None,
                first_outline_from(rest, 0) >= offset,
                first_outline_from(rest, 0) < rest.len() ==> entry_from_back(
                    rest,
                    first_outline_from(rest, 0),
                ).outline is Some,
                forall|o: int| 0 <= o < first_outline_from(rest, 0) ==> (#[trigger] entry_from_back(rest, o)).outline is None,
                rest == old_entries.drop_last(),
                old_entries == old(state).entries(),
                old_entries.len() == rest.len() + 1,
                forall|o: int| 0 <= o < rest.len() ==> #[trigger] entry_from_back(rest, o) == entry_from_back(old_entries, o + 1),
                entry_from_back(old_entries, 0).outline is None,
                valid == (outlines_fit(old_entries) && newest_covered_properly(old_entries)),
                state.uncommitted_count == (if old(state).uncommitted_count > 0 {
                    old(state).uncommitted_count - 1
                } else {
                    0
                }),
            decreases len - offset,
        {
            let entry = state.strokes.index(offset);
            assert(entry_from_back(rest, offset as int) == *entry);
            match entry.outline {
                Some(outline) => {
                    // The expected length of the outline is `offset` (number of strokes travelled before
                    // encountering the outline boundary) plus one for the stroke we are currently
                    // looking at plus one for the stroke we removed.
                    assert(first_outline_from(rest, 0) == offset);
                    let length = outline.length as usize;
                    if length >= 2 && length - 2 == offset {
                        let count = state.uncommitted_count;
                        let removed = match state.stroke_from_back(offset) {
                            Some(entry) => entry.outline.take(),
                            None => None,
                        };
                        if count < offset {
                            state.uncommitted_count = offset;
                        }
                        proof {
                            let now = state.entries();
                            assert(now == rest.update(
                                rest.len() - 1 - offset,
                                HistoryEntry { stroke: entry_from_back(rest, offset as int).stroke, outline: None },
                            ));
                            if valid {
                                assert forall|o: int|
                                    0 <= o < now.len() && (#[trigger] entry_from_back(now, o)).outline is Some
                                        implies entry_from_back(now, o).outline->0.length <= o + 1 by {
                                    assert(o != offset);
                                    assert(entry_from_back(now, o) == entry_from_back(rest, o));
                                    assert(entry_from_back(rest, o) == entry_from_back(old_entries, o + 1));
                                    if entry_from_back(rest, o).outline->0.length == o + 2 {
                                        assert(entry_from_back(old_entries, offset + 1) == entry_from_back(rest, offset as int));
                                    }
                                }
                            }
                        }
                        return removed;
                    } else {
                        // Since it was not part of any outline, there is nothing left to do.
                        proof {
                            if valid {
                                assert forall|o: int|
                                    0 <= o < rest.len() && (#[trigger] entry_from_back(rest, o)).outline is Some
                                        implies entry_from_back(rest, o).outline->0.length <= o + 1 by {
                                    assert(entry_from_back(rest, o) == entry_from_back(old_entries, o + 1));
                                    if o > offset && entry_from_back(rest, o).outline->0.length == o + 2 {
                                        assert(entry_from_back(old_entries, offset + 1) == entry_from_back(rest, offset as int));
                                    }
                                }
                            }
                        }
                        return None;
                    }
                },
                None => {},
            }
            offset += 1;
        }
        proof {
            assert forall|o: int|
                0 <= o < rest.len() implies (#[trigger] entry_from_back(rest, o)).outline is None by {
            }
        }
        None
    }
}

} // verus!
