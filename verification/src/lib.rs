//! Core of an Arabic/Syriac complex text shaper: contextual joining via a
//! finite-state machine, OpenType feature planning, `stch` stretch
//! realization, and TR53 mark reordering.

pub mod action;
pub mod buffer;
pub mod joining;
pub mod plan;
pub mod reorder;
pub mod stretch;
pub mod unicode;
