//! Entries of the stroke history.
use vstd::prelude::*;

verus! {

/// Outline which starts at a history entry.
#[derive(Debug, PartialEq, Eq, Clone, Copy)]
pub struct OutlineInformation {
    /// Number of strokes in outline
    pub length: u8,
    /// Number of commands associated with outline
    pub commands: u8,
}

/// Stroke in the history together with the outline starting at it, if any.
#[derive(Debug, PartialEq, Eq)]
pub struct HistoryEntry<Stroke> {
    pub stroke: Stroke,
    /// Information about the outline starting at this stroke, if applicable
    pub outline: Option<OutlineInformation>,
}

impl<Stroke> HistoryEntry<Stroke> {
    /// Entry which does not start an outline.
    pub fn new(stroke: Stroke) -> (r: Self)
        ensures
            r.stroke == stroke,
            r.outline is None,
    {
        Self { stroke, outline: None }
    }

    /// Entry which starts the given outline.
    pub fn with_outline(stroke: Stroke, outline: OutlineInformation) -> (r: Self)
        ensures
            r.stroke == stroke,
            r.outline == Some(outline),
    {
        Self { stroke, outline: Some(outline) }
    }
}

} // verus!
