//! Embeddable stenography engine: stroke handling, outline matching, text formatting,
//! compiled radix tree dictionaries and the firmware communication protocol.
use vstd::prelude::*;

pub mod buffer;
pub mod cofit;
pub mod compile;
pub mod dict;
pub mod flash;
pub mod formatter;
pub mod input;
pub mod matcher;
pub mod messaging;
pub mod output;
pub mod stroke;
pub mod text;

pub use stroke::EnglishStroke as Stroke;

verus! {

} // verus!
