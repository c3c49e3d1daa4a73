//! The glyph buffer: parallel info/position arrays, read-only context
//! windows, and the scratch flags shared with the outer shaper.

use vstd::prelude::*;
use crate::action::Action;
use crate::unicode::GeneralCategory;

verus! {

/// Scratch-flag bit owned by this core: set when the stretch recorder has
/// tagged at least one glyph, telling post-processing to run.
pub const ARABIC_HAS_STCH: u32 = 1;

/// One glyph record of the buffer's info array.
#[derive(Clone, Copy, PartialEq, Eq, Structural, Debug)]
pub struct GlyphInfo {
    /// Codepoint before substitution, glyph id after.
    pub codepoint: u32,
    /// Unicode general category of the codepoint.
    pub general_category: GeneralCategory,
    /// Cluster id; monotone over the buffer.
    pub cluster: u32,
    /// OpenType feature-selection mask.
    pub mask: u32,
    /// Index of this glyph within a multiplied ligature decomposition.
    pub lig_comp: u8,
    /// Set by the outer shaper when a substitution multiplied this glyph.
    pub multiplied: bool,
    /// Whether the codepoint is default-ignorable.
    pub default_ignorable: bool,
    /// Modified combining class used for mark ordering.
    pub modified_combining_class: u8,
    /// The shaping action byte owned by this core.
    pub action: Action,
}

impl GlyphInfo {
    /// An all-zero record used to grow the buffer before the cut pass
    /// overwrites every slot.
    pub fn zeroed() -> (r: GlyphInfo)
        ensures
            r == (GlyphInfo {
                codepoint: 0,
                general_category: GeneralCategory::Unassigned,
                cluster: 0,
                mask: 0,
                lig_comp: 0,
                multiplied: false,
                default_ignorable: false,
                modified_combining_class: 0,
                action: Action::NoAction,
            }),
    {
        GlyphInfo {
            codepoint: 0,
            general_category: GeneralCategory::Unassigned,
            cluster: 0,
            mask: 0,
            lig_comp: 0,
            multiplied: false,
            default_ignorable: false,
            modified_combining_class: 0,
            action: Action::NoAction,
        }
    }
}

/// One entry of the buffer's position array.
#[derive(Clone, Copy, PartialEq, Eq, Structural, Debug)]
pub struct GlyphPosition {
    /// Horizontal advance of the glyph.
    pub x_advance: i64,
    /// Horizontal offset of the glyph from its default position.
    pub x_offset: i64,
}

impl GlyphPosition {
    /// An all-zero position.
    pub fn zeroed() -> (r: GlyphPosition)
        ensures
            r == (GlyphPosition { x_advance: 0, x_offset: 0 }),
    {
        GlyphPosition { x_advance: 0, x_offset: 0 }
    }
}

/// The shaping buffer. The info and position arrays always have equal
/// length; the context windows are read-only codepoints (with their general
/// categories) adjacent to the buffer text.
pub struct Buffer {
    /// Glyph records.
    pub info: Vec<GlyphInfo>,
    /// Glyph positions, parallel to `info`.
    pub pos: Vec<GlyphPosition>,
    /// Codepoints before position 0, nearest first.
    pub context_before: Vec<(u32, GeneralCategory)>,
    /// Codepoints after the last position, nearest first.
    pub context_after: Vec<(u32, GeneralCategory)>,
    /// Scratch flags shared with the outer shaper.
    pub scratch_flags: u32,
    /// Half-open ranges recorded as unsafe to break without reshaping.
    pub unsafe_ranges: Vec<(usize, usize)>,
}

impl Buffer {
    /// The buffer's basic well-formedness: parallel arrays of equal length.
    pub open spec fn wf(self) -> bool {
        self.info@.len() == self.pos@.len()
    }

    /// Number of glyphs.
    pub fn len(&self) -> (r: usize)
        ensures
            r == self.info@.len(),
    {
        self.info.len()
    }

    /// Record the half-open range `[start, end)` as unsafe to break.
    pub fn unsafe_to_break(&mut self, start: usize, end: usize)
        ensures
            final(self).unsafe_ranges@ == old(self).unsafe_ranges@.push((start, end)),
            final(self).info == old(self).info,
            final(self).pos == old(self).pos,
            final(self).context_before == old(self).context_before,
            final(self).context_after == old(self).context_after,
            final(self).scratch_flags == old(self).scratch_flags,
    {
        self.unsafe_ranges.push((start, end));
    }
}

/// Smallest cluster id over `s[start..end)`; `end - start` must be positive.
pub open spec fn spec_min_cluster(s: Seq<GlyphInfo>, start: int, end: int) -> int
    decreases end - start,
{
    if end - start <= 1 {
        s[start].cluster as int
    } else {
        let rest = spec_min_cluster(s, start, end - 1);
        if rest <= s[end - 1].cluster {
            rest
        } else {
            s[end - 1].cluster as int
        }
    }
}

impl Buffer {
    /// Merge the clusters of `[start, end)`: every record in the range takes
    /// the smallest cluster id found there. Nothing else changes.
    pub fn merge_clusters(&mut self, start: usize, end: usize)
        requires
            start <= end <= old(self).info@.len(),
        ensures
            final(self).info@.len() == old(self).info@.len(),
            forall|k: int|
                0 <= k < old(self).info@.len() && !(start <= k < end) ==> final(self).info@[k]
                    == old(self).info@[k],
            forall|k: int|
                start <= k < end ==> final(self).info@[k] == (GlyphInfo {
                    cluster: spec_min_cluster(old(self).info@, start as int, end as int) as u32,
                    ..old(self).info@[k]
                }),
            final(self).pos == old(self).pos,
            final(self).context_before == old(self).context_before,
            final(self).context_after == old(self).context_after,
            final(self).scratch_flags == old(self).scratch_flags,
            final(self).unsafe_ranges == old(self).unsafe_ranges,
    {
        if start == end {
            return;
        }
        let mut min: u32 = self.info[start].cluster;
        for k in start + 1..end
            invariant
                start < end <= self.info@.len(),
                *self == *old(self),
                min == spec_min_cluster(self.info@, start as int, k as int),
            decreases end - k,
        {
            if self.info[k].cluster < min {
                min = self.info[k].cluster;
            }
        }
        let ghost orig = self.info@;
        for k in start..end
            invariant
                start < end <= self.info@.len(),
                self.info@.len() == orig.len(),
                orig == old(self).info@,
                self.pos == old(self).pos,
                self.context_before == old(self).context_before,
                self.context_after == old(self).context_after,
                self.scratch_flags == old(self).scratch_flags,
                self.unsafe_ranges == old(self).unsafe_ranges,
                min == spec_min_cluster(orig, start as int, end as int),
                forall|t: int| 0 <= t < orig.len() && !(start <= t < k) ==> self.info@[t] == orig[t],
                forall|t: int|
                    start <= t < k ==> self.info@[t] == (GlyphInfo { cluster: min, ..orig[t] }),
            decreases end - k,
        {
            let updated = GlyphInfo { cluster: min, ..self.info[k] };
            self.info.set(k, updated);
        }
    }
}

} // verus!
