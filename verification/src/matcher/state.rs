//! Stroke history defining the state of the outline matcher.
use super::entry::HistoryEntry;
use crate::buffer::HistoryBuffer;
use vstd::prelude::*;

verus! {

/// Stroke history: the newest `uncommitted_count` strokes are not yet bound to an outline.
pub struct State<Stroke, const HISTORY_SIZE: usize> {
    pub strokes: HistoryBuffer<HistoryEntry<Stroke>, HISTORY_SIZE>,
    pub uncommitted_count: usize,
}

/// Entry at the given offset from the back (offset zero is the newest entry).
pub open spec fn entry_from_back<S>(entries: Seq<HistoryEntry<S>>, offset: int) -> HistoryEntry<S> {
    entries[entries.len() - 1 - offset]
}

/// Every recorded outline only covers the entry it starts at and newer entries.
pub open spec fn outlines_fit<S>(entries: Seq<HistoryEntry<S>>) -> bool {
    forall|o: int|
        0 <= o < entries.len() && (#[trigger] entry_from_back(entries, o)).outline is Some
            ==> entry_from_back(entries, o).outline->0.length <= o + 1
}

/// The newest outline among the `count` newest entries, if any, only covers the entry it starts
/// at and newer entries.
pub open spec fn trailing_outline_fits<S>(entries: Seq<HistoryEntry<S>>, count: int) -> bool {
    let t = first_outline_from(entries, 0);
    t < count && t < entries.len() ==> entry_from_back(entries, t).outline->0.length <= t + 1
}

/// Any outline which covers the newest entry is the most recent outline: no other outline
/// starts between its first stroke and the newest entry.
pub open spec fn newest_covered_properly<S>(entries: Seq<HistoryEntry<S>>) -> bool {
    forall|p: int, q: int|
        0 <= q < p < entries.len() && (#[trigger] entry_from_back(entries, p)).outline is Some
            && entry_from_back(entries, p).outline->0.length == p + 1 ==> (#[trigger] entry_from_back(
            entries,
            q,
        )).outline is None
}

/// Smallest offset at or after `offset` whose entry starts an outline, or the history length if there is none.
pub open spec fn first_outline_from<S>(entries: Seq<HistoryEntry<S>>, offset: int) -> int
    decreases entries.len() - offset,
{
    if offset < 0 || offset >= entries.len() {
        entries.len() as int
    } else if entry_from_back(entries, offset).outline is Some {
        offset
    } else {
        first_outline_from(entries, offset + 1)
    }
}

proof fn lemma_first_outline_from<S>(entries: Seq<HistoryEntry<S>>, offset: int)
    requires
        0 <= offset <= entries.len(),
    ensures
        offset <= first_outline_from(entries, offset) <= entries.len(),
        first_outline_from(entries, offset) < entries.len() ==> entry_from_back(
            entries,
            first_outline_from(entries, offset),
        ).outline is Some,
        forall|o: int|
            offset <= o < first_outline_from(entries, offset) ==> (#[trigger] entry_from_back(
                entries,
                o,
            )).outline is None,
    decreases entries.len() - offset,
{
    if offset < entries.len() && entry_from_back(entries, offset).outline is None {
        lemma_first_outline_from(entries, offset + 1);
    }
}

pub proof fn lemma_first_outline<S>(entries: Seq<HistoryEntry<S>>)
    ensures
        0 <= first_outline_from(entries, 0) <= entries.len(),
        first_outline_from(entries, 0) < entries.len() ==> entry_from_back(
            entries,
            first_outline_from(entries, 0),
        ).outline is Some,
        forall|o: int|
            0 <= o < first_outline_from(entries, 0) ==> (#[trigger] entry_from_back(
                entries,
                o,
            )).outline is None,
{
    lemma_first_outline_from(entries, 0);
}

impl<Stroke, const HISTORY_SIZE: usize> State<Stroke, HISTORY_SIZE> {
    /// Entries of the history, oldest first.
    pub open spec fn entries(&self) -> Seq<HistoryEntry<Stroke>> {
        self.strokes.view()
    }

    /// The history is consistent and no more strokes are uncommitted than are present.
    pub open spec fn wf(&self) -> bool {
        &&& self.strokes.wf()
        &&& self.uncommitted_count <= self.entries().len()
    }

    /// Creates an empty history.
    pub fn new() -> (r: Self)
        ensures
            r.wf(),
            r.entries() == Seq::<HistoryEntry<Stroke>>::empty(),
            r.uncommitted_count == 0,
    {
        Self { strokes: HistoryBuffer::new(), uncommitted_count: 0 }
    }

    /// References to the uncommitted strokes, oldest first.
    // No outline information is exposed because it may be invalid
    pub fn uncommitted_strokes(&self) -> (r: Vec<&Stroke>)
        requires
            self.wf(),
        ensures
            r@.len() == self.uncommitted_count,
            forall|j: int|
                0 <= j < r@.len() ==> *#[trigger] r@[j] == self.entries()[self.entries().len()
                    - self.uncommitted_count + j].stroke,
    {
        let mut out: Vec<&Stroke> = Vec::new();
        let mut i = self.uncommitted_count;
        while i > 0
            invariant
                self.wf(),
                i <= self.uncommitted_count,
                out@.len() == self.uncommitted_count - i,
                forall|j: int|
                    0 <= j < out@.len() ==> *#[trigger] out@[j] == self.entries()[self.entries().len()
                        - self.uncommitted_count + j].stroke,
            decreases i,
        {
            i -= 1;
            out.push(&self.strokes.index(i).stroke);
        }
        out
    }

    /// References to the committed entries, oldest first.
    pub fn committed_strokes(&self) -> (r: Vec<&HistoryEntry<Stroke>>)
        requires
            self.wf(),
        ensures
            r@.len() == self.entries().len() - self.uncommitted_count,
            forall|j: int| 0 <= j < r@.len() ==> *#[trigger] r@[j] == self.entries()[j],
    {
        let mut out: Vec<&HistoryEntry<Stroke>> = Vec::new();
        let mut i = self.strokes.len();
        while i > self.uncommitted_count
            invariant
                self.wf(),
                self.uncommitted_count <= i <= self.entries().len(),
                out@.len() == self.entries().len() - i,
                forall|j: int| 0 <= j < out@.len() ==> *#[trigger] out@[j] == self.entries()[j],
            decreases i,
        {
            i -= 1;
            out.push(self.strokes.index(i));
        }
        out
    }

    /// Returns the `offset`th stroke from the back of history where an offset of zero returns the newest stroke.
    /// Note that the outline information present might not be accurate if the stroke is uncommitted.
    pub fn stroke_from_back(&mut self, offset: usize) -> (r: Option<&mut HistoryEntry<Stroke>>)
        requires
            old(self).wf(),
        ensures
            offset >= old(self).entries().len() ==> r is None && *final(self) == *old(self),
            offset < old(self).entries().len() ==> r is Some && *r->0 == entry_from_back(
                old(self).entries(),
                offset as int,
            ) && final(self).wf() && final(self).uncommitted_count == old(self).uncommitted_count
                && final(self).entries() == old(self).entries().update(
                old(self).entries().len() - 1 - offset,
                *final(r->0),
            ),
    {
        self.strokes.peek_back_mut(offset)
    }
}

} // verus!
