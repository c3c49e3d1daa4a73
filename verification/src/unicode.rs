//! Unicode-facing data: general categories, joining types, the joining-type
//! table interface, and the TR53 modifier combining marks.

use vstd::prelude::*;

verus! {

/// Unicode general category of a codepoint, as supplied by the caller's
/// character tables.
#[derive(Clone, Copy, PartialEq, Eq, Structural, Debug)]
pub enum GeneralCategory {
    ClosePunctuation,
    ConnectorPunctuation,
    Control,
    CurrencySymbol,
    DashPunctuation,
    DecimalNumber,
    EnclosingMark,
    FinalPunctuation,
    Format,
    InitialPunctuation,
    LetterNumber,
    LineSeparator,
    LowercaseLetter,
    MathSymbol,
    ModifierLetter,
    ModifierSymbol,
    NonSpacingMark,
    OpenPunctuation,
    OtherLetter,
    OtherNumber,
    OtherPunctuation,
    OtherSymbol,
    ParagraphSeparator,
    PrivateUse,
    SpaceSeparator,
    SpacingMark,
    Surrogate,
    TitlecaseLetter,
    Unassigned,
    UppercaseLetter,
}

/// Joining type of a codepoint. `X` is the raw table value for codepoints
/// with no assigned joining type; it is resolved to `T` or `U` from the
/// general category and never reaches the state machine.
#[derive(Clone, Copy, PartialEq, Eq, Structural, Debug)]
pub enum JoiningType {
    U,
    L,
    R,
    D,
    GroupAlaph,
    GroupDalathRish,
    T,
    X,
}

/// A Unicode-derived joining-type table, supplied by the caller as plain
/// data: codepoint ranges (inclusive) with their raw joining type.
/// Codepoints covered by no range have the raw type `X`.
pub struct JoiningTable {
    pub ranges: Vec<(u32, u32, JoiningType)>,
}

impl JoiningTable {
    /// Raw joining type the table assigns to `u`: the type of the first
    /// range containing `u`, or `X` if none does.
    pub open spec fn spec_lookup_from(self, u: u32, k: int) -> JoiningType
        decreases self.ranges@.len() - k,
    {
        if k < 0 || k >= self.ranges@.len() {
            JoiningType::X
        } else if self.ranges@[k].0 <= u && u <= self.ranges@[k].1 {
            self.ranges@[k].2
        } else {
            self.spec_lookup_from(u, k + 1)
        }
    }

    /// Raw joining type the table assigns to `u`.
    pub open spec fn spec_lookup(self, u: u32) -> JoiningType {
        self.spec_lookup_from(u, 0)
    }

    /// Look the codepoint up in the table.
    pub fn lookup(&self, u: u32) -> (r: JoiningType)
        ensures
            r == self.spec_lookup(u),
    {
        let n = self.ranges.len();
        for k in 0..n
            invariant
                n == self.ranges@.len(),
                self.spec_lookup(u) == self.spec_lookup_from(u, k as int),
        {
            let (lo, hi, jt) = self.ranges[k];
            if lo <= u && u <= hi {
                return jt;
            }
        }
        JoiningType::X
    }
}

/// Whether a general category resolves an `X` joining type to transparent:
/// non-spacing marks, enclosing marks and format characters are skipped by
/// the joining pass.
pub open spec fn spec_category_is_transparent(gc: GeneralCategory) -> bool {
    gc == GeneralCategory::NonSpacingMark || gc == GeneralCategory::EnclosingMark
        || gc == GeneralCategory::Format
}

/// Resolved joining type of a codepoint: the table value, with `X` resolved
/// to `T` for marks and format characters and to `U` otherwise.
pub open spec fn spec_joining_type(table: JoiningTable, u: u32, gc: GeneralCategory) -> JoiningType {
    let raw = table.spec_lookup(u);
    if raw != JoiningType::X {
        raw
    } else if spec_category_is_transparent(gc) {
        JoiningType::T
    } else {
        JoiningType::U
    }
}

/// Joining type of codepoint `u` with general category `gc`, the table's
/// `X` entries resolved. The result is never `X`.
pub fn get_joining_type(u: u32, gc: GeneralCategory, table: &JoiningTable) -> (r: JoiningType)
    ensures
        r == spec_joining_type(*table, u, gc),
        r != JoiningType::X,
{
    let j_type = table.lookup(u);
    if j_type != JoiningType::X {
        return j_type;
    }

    let transparent = match gc {
        GeneralCategory::NonSpacingMark => true,
        GeneralCategory::EnclosingMark => true,
        GeneralCategory::Format => true,
        _ => false,
    };

    if transparent {
        JoiningType::T
    } else {
        JoiningType::U
    }
}

/// The TR53 set of Arabic modifier combining marks.
pub open spec fn spec_is_modifier_combining_mark(u: u32) -> bool {
    u == 0x0654 || u == 0x0655 || u == 0x0658 || u == 0x06DC || u == 0x06E3 || u == 0x06E7
        || u == 0x06E8 || u == 0x08D3 || u == 0x08F3
}

/// Whether `u` is one of the TR53 Arabic modifier combining marks.
pub fn is_modifier_combining_mark(u: u32) -> (r: bool)
    ensures
        r == spec_is_modifier_combining_mark(u),
{
    match u {
        0x0654 => true,
        0x0655 => true,
        0x0658 => true,
        0x06DC => true,
        0x06E3 => true,
        0x06E7 => true,
        0x06E8 => true,
        0x08D3 => true,
        0x08F3 => true,
        _ => false,
    }
}

/// Renumbered combining class for a reordered group of class 220 marks:
/// below every Arabic class, folded back to 220 by fallback positioning.
pub const CCC22: u8 = 22;

/// Renumbered combining class for a reordered group of class 230 marks:
/// below every Arabic class, folded back to 230 by fallback positioning.
pub const CCC26: u8 = 26;

} // verus!
