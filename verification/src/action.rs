//! The per-glyph shaping action byte: either a contextual join form chosen by
//! the state machine, or a stretch tag written by the stretch recorder.

use vstd::prelude::*;

verus! {

/// Shaping action stored in each glyph record. The first eight variants are
/// join actions; the two stretch tags reuse the same slot and are written
/// only after the joining pass has completed.
#[derive(Clone, Copy, PartialEq, Eq, Structural, Debug)]
pub enum Action {
    Isol,
    Fina,
    Fin2,
    Fin3,
    Medi,
    Med2,
    Init,
    NoAction,
    StretchingFixed,
    StretchingRepeating,
}

impl Action {
    /// Index of a join action into the plan's mask array. `NoAction` maps to
    /// the trailing all-zero entry; stretch tags share it so that an
    /// out-of-phase lookup selects no feature bits.
    pub open spec fn spec_index(self) -> int {
        match self {
            Action::Isol => 0,
            Action::Fina => 1,
            Action::Fin2 => 2,
            Action::Fin3 => 3,
            Action::Medi => 4,
            Action::Med2 => 5,
            Action::Init => 6,
            Action::NoAction => 7,
            Action::StretchingFixed => 7,
            Action::StretchingRepeating => 7,
        }
    }

    /// Executable mask-array index of this action.
    pub fn index(self) -> (r: usize)
        ensures
            r == self.spec_index(),
            r <= 7,
    {
        match self {
            Action::Isol => 0,
            Action::Fina => 1,
            Action::Fin2 => 2,
            Action::Fin3 => 3,
            Action::Medi => 4,
            Action::Med2 => 5,
            Action::Init => 6,
            Action::NoAction => 7,
            Action::StretchingFixed => 7,
            Action::StretchingRepeating => 7,
        }
    }

    /// Whether this is one of the two stretch tags.
    pub open spec fn spec_is_stch(self) -> bool {
        self == Action::StretchingFixed || self == Action::StretchingRepeating
    }

    /// Whether this is one of the two stretch tags.
    pub fn is_stch(self) -> (r: bool)
        ensures
            r == self.spec_is_stch(),
    {
        match self {
            Action::StretchingFixed => true,
            Action::StretchingRepeating => true,
            _ => false,
        }
    }

    /// Whether this is one of the eight join actions (not a stretch tag).
    pub open spec fn is_join_action(self) -> bool {
        !self.spec_is_stch()
    }
}

} // verus!
