//! The `stch` stretch feature: tag multiplied glyph pieces, then grow the
//! buffer and replicate repeating tiles leftward to fill the measured
//! width.

use vstd::prelude::*;
use vstd::arithmetic::div_mod::{lemma_fundamental_div_mod, lemma_mod_bound};
use crate::action::Action;
use crate::buffer::{Buffer, GlyphInfo, GlyphPosition, ARABIC_HAS_STCH};
use crate::plan::ArabicShapePlan;
use crate::unicode::GeneralCategory;

verus! {

broadcast use vstd::group_vstd_default;

/// The font as this shaper needs it: a glyph-to-advance table. Glyphs not
/// listed take the default advance. Advances are font units below 2^16.
pub struct Font {
    /// Glyph id and advance pairs, first match wins.
    pub entries: Vec<(u32, u32)>,
    /// Advance of any glyph not listed.
    pub default_advance: u32,
}

impl Font {
    /// Advance of `glyph` scanning from entry `k`.
    pub open spec fn spec_advance_from(self, glyph: u32, k: int) -> u32
        decreases self.entries@.len() - k,
    {
        if k < 0 || k >= self.entries@.len() {
            self.default_advance
        } else if self.entries@[k].0 == glyph {
            self.entries@[k].1
        } else {
            self.spec_advance_from(glyph, k + 1)
        }
    }

    /// Horizontal advance of `glyph`.
    pub open spec fn spec_advance(self, glyph: u32) -> u32 {
        self.spec_advance_from(glyph, 0)
    }

    /// Advances fit in font units.
    pub open spec fn wf(self) -> bool {
        &&& self.default_advance < 0x8000_0000
        &&& forall|k: int| 0 <= k < self.entries@.len() ==> (#[trigger] self.entries@[k]).1 < 0x8000_0000
    }

    /// Look up the horizontal advance of a glyph.
    pub fn glyph_h_advance(&self, glyph: u32) -> (r: u32)
        ensures
            r == self.spec_advance(glyph),
            self.wf() ==> r < 0x8000_0000,
    {
        let n = self.entries.len();
        for k in 0..n
            invariant
                n == self.entries@.len(),
                self.spec_advance(glyph) == self.spec_advance_from(glyph, k as int),
        {
            let (g, a) = self.entries[k];
            if g == glyph {
                return a;
            }
        }
        self.default_advance
    }
}

/// Whether a general category belongs to the "word" set that a stretch may
/// extend across.
pub open spec fn spec_is_word_category(gc: GeneralCategory) -> bool {
    ||| gc == GeneralCategory::Unassigned
    ||| gc == GeneralCategory::PrivateUse
    ||| gc == GeneralCategory::ModifierLetter
    ||| gc == GeneralCategory::OtherLetter
    ||| gc == GeneralCategory::SpacingMark
    ||| gc == GeneralCategory::EnclosingMark
    ||| gc == GeneralCategory::NonSpacingMark
    ||| gc == GeneralCategory::DecimalNumber
    ||| gc == GeneralCategory::LetterNumber
    ||| gc == GeneralCategory::OtherNumber
    ||| gc == GeneralCategory::CurrencySymbol
    ||| gc == GeneralCategory::ModifierSymbol
    ||| gc == GeneralCategory::MathSymbol
    ||| gc == GeneralCategory::OtherSymbol
}

/// Whether a general category belongs to the "word" set that a stretch may
/// extend across.
pub fn is_word_category(gc: GeneralCategory) -> (r: bool)
    ensures
        r == spec_is_word_category(gc),
{
    match gc {
        GeneralCategory::Unassigned => true,
        GeneralCategory::PrivateUse => true,
        GeneralCategory::ModifierLetter => true,
        GeneralCategory::OtherLetter => true,
        GeneralCategory::SpacingMark => true,
        GeneralCategory::EnclosingMark => true,
        GeneralCategory::NonSpacingMark => true,
        GeneralCategory::DecimalNumber => true,
        GeneralCategory::LetterNumber => true,
        GeneralCategory::OtherNumber => true,
        GeneralCategory::CurrencySymbol => true,
        GeneralCategory::ModifierSymbol => true,
        GeneralCategory::MathSymbol => true,
        GeneralCategory::OtherSymbol => true,
        _ => false,
    }
}

/// The stretch tag a glyph record receives from the recorder: a multiplied
/// piece at an odd ligature-component index repeats, one at an even index
/// is drawn once; anything else keeps its action.
pub open spec fn spec_stch_tag(g: GlyphInfo) -> Action {
    if g.multiplied {
        if g.lig_comp % 2 == 1 {
            Action::StretchingRepeating
        } else {
            Action::StretchingFixed
        }
    } else {
        g.action
    }
}

/// After `stch` has applied, tag every multiplied glyph as a fixed or
/// repeating stretch piece and raise the stretch scratch flag if any was
/// found. A plan without `stch` leaves the buffer untouched.
pub fn record_stch(plan: &ArabicShapePlan, buffer: &mut Buffer)
    ensures
        !plan.has_stch ==> *final(buffer) == *old(buffer),
        plan.has_stch ==> final(buffer).info@.len() == old(buffer).info@.len(),
        plan.has_stch ==> forall|k: int|
            0 <= k < old(buffer).info@.len() ==> #[trigger] final(buffer).info@[k] == (GlyphInfo {
                action: spec_stch_tag(old(buffer).info@[k]),
                ..old(buffer).info@[k]
            }),
        plan.has_stch ==> final(buffer).scratch_flags == (if (exists|k: int|
            0 <= k < old(buffer).info@.len() && (#[trigger] old(buffer).info@[k]).multiplied) {
            old(buffer).scratch_flags | ARABIC_HAS_STCH
        } else {
            old(buffer).scratch_flags
        }),
        final(buffer).pos == old(buffer).pos,
        final(buffer).context_before == old(buffer).context_before,
        final(buffer).context_after == old(buffer).context_after,
        final(buffer).unsafe_ranges == old(buffer).unsafe_ranges,
{
    if !plan.has_stch {
        return;
    }
    let ghost orig = *old(buffer);
    let len = buffer.len();
    let mut has_stch = false;
    let mut i: usize = 0;
    while i < len
        invariant
            i <= len,
            len == orig.info@.len(),
            buffer.info@.len() == len,
            buffer.pos == orig.pos,
            buffer.context_before == orig.context_before,
            buffer.context_after == orig.context_after,
            buffer.scratch_flags == orig.scratch_flags,
            buffer.unsafe_ranges == orig.unsafe_ranges,
            forall|k: int|
                0 <= k < i ==> #[trigger] buffer.info@[k] == (GlyphInfo {
                    action: spec_stch_tag(orig.info@[k]),
                    ..orig.info@[k]
                }),
            forall|k: int| i <= k < len ==> #[trigger] buffer.info@[k] == orig.info@[k],
            has_stch == (exists|k: int|
                0 <= k < i && (#[trigger] orig.info@[k]).multiplied),
        decreases len - i,
    {
        if buffer.info[i].multiplied {
            let comp = if buffer.info[i].lig_comp % 2 != 0 {
                Action::StretchingRepeating
            } else {
                Action::StretchingFixed
            };
            let tagged = GlyphInfo { action: comp, ..buffer.info[i] };
            buffer.info.set(i, tagged);
            has_stch = true;
        }
        i = i + 1;
    }

    if has_stch {
        buffer.scratch_flags = buffer.scratch_flags | ARABIC_HAS_STCH;
    }
}

/// The tile counts of one stretch run, exactly as the realizer computes
/// them: `n_copies` additional replications per repeating tile, and the
/// inward overlap applied to all but the first copy of each tile.
pub open spec fn spec_stretch_counts(w_total: int, w_fixed: int, w_repeating: int, n_repeating: int) -> (
    int,
    int,
) {
    let w_remaining = w_total - w_fixed;
    let base = if w_remaining > w_repeating && w_repeating > 0 {
        w_remaining / w_repeating - 1
    } else {
        0
    };
    let shortfall = w_remaining - w_repeating * (base + 1);
    if shortfall > 0 && n_repeating > 0 {
        let n_copies = base + 1;
        let excess = (n_copies + 1) * w_repeating - w_remaining;
        if excess > 0 {
            (n_copies, excess / (n_copies * n_repeating))
        } else {
            (n_copies, 0)
        }
    } else {
        (base, 0)
    }
}

/// Compute a run's replication count and overlap from its measured widths.
pub fn stretch_counts(w_total: i64, w_fixed: i64, w_repeating: i64, n_repeating: i64) -> (r: (
    i64,
    i64,
))
    requires
        -0x8_0000_0000_0000 <= w_total <= 0x8_0000_0000_0000,
        0 <= w_fixed <= 0x8_0000_0000_0000,
        0 <= w_repeating <= 0x8_0000_0000_0000,
        0 <= n_repeating <= 0x8_0000_0000_0000,
    ensures
        (r.0 as int, r.1 as int) == spec_stretch_counts(
            w_total as int,
            w_fixed as int,
            w_repeating as int,
            n_repeating as int,
        ),
        0 <= r.0,
        r.0 <= (if w_total - w_fixed > 0 {
            w_total - w_fixed
        } else {
            0
        }),
        0 <= r.1,
        r.1 * (r.0 * n_repeating) <= w_repeating,
        r.0 > 0 && w_repeating > 0 ==> (r.0 + 1) * w_repeating <= (w_total - w_fixed)
            + w_repeating,
{
    let w_remaining = w_total - w_fixed;
    let mut n_copies: i64 = 0;
    if w_remaining > w_repeating && w_repeating > 0 {
        let q = w_remaining as u64 / w_repeating as u64;
        proof {
            lemma_fundamental_div_mod(w_remaining as int, w_repeating as int);
            lemma_mod_bound(w_remaining as int, w_repeating as int);
            assert(q == w_remaining as int / w_repeating as int);
            assert((w_repeating as int) * (q as int) <= w_remaining as int);
            assert(q >= 1) by (nonlinear_arith)
                requires
                    w_remaining as int == (w_repeating as int) * (q as int) + ((
                    w_remaining as int) % (w_repeating as int)),
                    0 <= (w_remaining as int) % (w_repeating as int),
                    ((w_remaining as int) % (w_repeating as int)) < (w_repeating as int),
                    w_remaining > w_repeating,
                    w_repeating > 0,
            ;
            assert(q as int <= (w_repeating as int) * (q as int)) by (nonlinear_arith)
                requires
                    q >= 1,
                    w_repeating >= 1,
            ;
        }
        n_copies = (q - 1) as i64;
        proof {
            assert(n_copies as int == q as int - 1);
            assert((w_repeating as int) * ((n_copies as int) + 1) <= w_remaining as int);
        }
    }

    let mut extra_repeat_overlap: i64 = 0;
    proof {
        assert(n_copies == 0 ==> (w_repeating as int) * ((n_copies as int) + 1)
            == w_repeating as int) by (nonlinear_arith);
    }
    let shortfall = w_remaining - w_repeating * (n_copies + 1);
    if shortfall > 0 && n_repeating > 0 {
        proof {
            assert((w_repeating as int) * ((n_copies as int) + 2) == (w_repeating as int) * ((
            n_copies as int) + 1) + w_repeating as int) by (nonlinear_arith);
        }
        n_copies = n_copies + 1;
        proof {
            assert((n_copies as int + 1) * (w_repeating as int) == (w_repeating as int) * (
            n_copies as int + 1)) by (nonlinear_arith);
            assert((w_repeating as int) * (n_copies as int + 1) <= (w_remaining as int)
                + w_repeating as int);
        }
        let excess = (n_copies + 1) * w_repeating - w_remaining;
        proof {
            assert(excess as int <= w_repeating as int);
        }
        if excess > 0 {
            proof {
                assert((n_copies as int) * (n_repeating as int) >= 1) by (nonlinear_arith)
                    requires
                        n_copies >= 1,
                        n_repeating >= 1,
                ;
                assert((n_copies as int) * (n_repeating as int) <= 0x8_0000_0000_0000
                    * 0x8_0000_0000_0000int) by (nonlinear_arith)
                    requires
                        1 <= n_copies,
                        n_copies <= 0x8_0000_0000_0000,
                        1 <= n_repeating,
                        n_repeating <= 0x8_0000_0000_0000,
                ;
            }
            let denom = n_copies as u128 * n_repeating as u128;
            let overlap = excess as u128 / denom;
            proof {
                lemma_fundamental_div_mod(excess as int, denom as int);
                lemma_mod_bound(excess as int, denom as int);
                assert(overlap == excess as int / denom as int);
                assert((denom as int) * (overlap as int) <= excess as int);
                assert(overlap as int <= excess as int) by (nonlinear_arith)
                    requires
                        (denom as int) * (overlap as int) <= excess as int,
                        denom as int >= 1,
                        overlap as int >= 0,
                ;
            }
            extra_repeat_overlap = overlap as i64;
            proof {
                assert((extra_repeat_overlap as int) * ((n_copies as int) * (n_repeating as int))
                    <= w_repeating as int) by (nonlinear_arith)
                    requires
                        (denom as int) * (extra_repeat_overlap as int) <= excess as int,
                        denom as int == (n_copies as int) * (n_repeating as int),
                        excess as int <= w_repeating as int,
                ;
            }
        }
    }

    proof {
        assert(extra_repeat_overlap == 0 ==> (extra_repeat_overlap as int) * ((n_copies as int) * (
        n_repeating as int)) == 0) by (nonlinear_arith);
        assert((extra_repeat_overlap as int) * ((n_copies as int) * (n_repeating as int))
            <= w_repeating as int);
        assert((n_copies as int + 1) * (w_repeating as int) == (w_repeating as int) * (
        n_copies as int + 1)) by (nonlinear_arith);
    }
    (n_copies, extra_repeat_overlap)
}

/// Whether the record at `k` carries a stretch tag.
pub open spec fn spec_stch_at(infos: Seq<GlyphInfo>, k: int) -> bool {
    infos[k].action.spec_is_stch()
}

/// Start of the maximal stretch run ending at `e`: the smallest index such
/// that everything in `[start, e)` is stretch-tagged.
pub open spec fn spec_run_start(infos: Seq<GlyphInfo>, e: int) -> int
    decreases e,
{
    if e > 0 && spec_stch_at(infos, e - 1) {
        spec_run_start(infos, e - 1)
    } else {
        e
    }
}

/// Whether the record at `k` may serve as stretch context: not itself
/// stretch-tagged, and default-ignorable or of a word category.
pub open spec fn spec_is_context(infos: Seq<GlyphInfo>, k: int) -> bool {
    !spec_stch_at(infos, k) && (infos[k].default_ignorable || spec_is_word_category(
        infos[k].general_category,
    ))
}

/// Start of the context window extending leftward from `s`.
pub open spec fn spec_ctx_start(infos: Seq<GlyphInfo>, s: int) -> int
    decreases s,
{
    if s > 0 && spec_is_context(infos, s - 1) {
        spec_ctx_start(infos, s - 1)
    } else {
        s
    }
}

/// Advance of the glyph record under the font.
pub open spec fn spec_adv(font: Font, g: GlyphInfo) -> int {
    font.spec_advance(g.codepoint) as int
}

/// Sum of advances of the fixed tiles in `[s, e)`.
pub open spec fn spec_run_fixed(infos: Seq<GlyphInfo>, font: Font, s: int, e: int) -> int
    decreases e - s,
{
    if e <= s {
        0
    } else {
        (if infos[s].action == Action::StretchingFixed {
            spec_adv(font, infos[s])
        } else {
            0
        }) + spec_run_fixed(infos, font, s + 1, e)
    }
}

/// Sum of advances of the repeating tiles in `[s, e)`.
pub open spec fn spec_run_rep(infos: Seq<GlyphInfo>, font: Font, s: int, e: int) -> int
    decreases e - s,
{
    if e <= s {
        0
    } else {
        (if infos[s].action == Action::StretchingRepeating {
            spec_adv(font, infos[s])
        } else {
            0
        }) + spec_run_rep(infos, font, s + 1, e)
    }
}

/// Number of repeating tiles in `[s, e)`.
pub open spec fn spec_rep_count(infos: Seq<GlyphInfo>, s: int, e: int) -> int
    decreases e - s,
{
    if e <= s {
        0
    } else {
        (if infos[s].action == Action::StretchingRepeating {
            1int
        } else {
            0int
        }) + spec_rep_count(infos, s + 1, e)
    }
}

/// Total advance of the context window `[c, s)`.
pub open spec fn spec_ctx_total(poss: Seq<GlyphPosition>, c: int, s: int) -> int
    decreases s - c,
{
    if s <= c {
        0
    } else {
        poss[c].x_advance + spec_ctx_total(poss, c + 1, s)
    }
}

/// Extra replicated glyphs that realizing the run ending at `e` emits.
pub open spec fn spec_run_extra(
    infos: Seq<GlyphInfo>,
    poss: Seq<GlyphPosition>,
    font: Font,
    e: int,
) -> int {
    let s = spec_run_start(infos, e);
    let c = spec_ctx_start(infos, s);
    spec_stretch_counts(
        spec_ctx_total(poss, c, s),
        spec_run_fixed(infos, font, s, e),
        spec_run_rep(infos, font, s, e),
        spec_rep_count(infos, s, e),
    ).0 * spec_rep_count(infos, s, e)
}

/// Total extra glyph slots the realizer needs for the prefix `[0, e)`.
pub open spec fn spec_extra(
    infos: Seq<GlyphInfo>,
    poss: Seq<GlyphPosition>,
    font: Font,
    e: int,
) -> int
    decreases e,
{
    if e <= 0 {
        0
    } else if !spec_stch_at(infos, e - 1) {
        spec_extra(infos, poss, font, e - 1)
    } else {
        let s = spec_run_start(infos, e);
        if 0 <= s < e {
            spec_extra(infos, poss, font, s) + spec_run_extra(infos, poss, font, e)
        } else {
            0
        }
    }
}

/// A buffer the realizer accepts: parallel arrays, a bounded glyph count,
/// and advances within font units.
pub open spec fn stretch_input_ok(b: Buffer) -> bool {
    &&& b.info@.len() == b.pos@.len()
    &&& b.info@.len() <= 0x100000
    &&& forall|k: int|
        0 <= k < b.pos@.len() ==> -0x8000_0000 < (#[trigger] b.pos@[k]).x_advance < 0x8000_0000
}

/// The unsafe-to-break ranges the realizer records for the prefix
/// `[0, e)`: one `(context, end)` pair per maximal stretch run, topmost
/// run first.
pub open spec fn spec_break_ranges(infos: Seq<GlyphInfo>, e: int) -> Seq<(usize, usize)>
    decreases e,
{
    if e <= 0 {
        Seq::empty()
    } else if !spec_stch_at(infos, e - 1) {
        spec_break_ranges(infos, e - 1)
    } else {
        let s = spec_run_start(infos, e);
        if 0 <= s < e {
            seq![(spec_ctx_start(infos, s) as usize, e as usize)] + spec_break_ranges(infos, s)
        } else {
            Seq::empty()
        }
    }
}

/// Whether the output arrays hold the copy of the source glyph at `t` at
/// its final slot: its old position shifted right by the extra slots the
/// runs below it need.
pub open spec fn spec_placed(
    info: Seq<GlyphInfo>,
    pos: Seq<GlyphPosition>,
    b0: Buffer,
    font: Font,
    t: int,
) -> bool {
    let slot = t + spec_extra(b0.info@, b0.pos@, font, t);
    &&& slot < info.len()
    &&& info[slot] == b0.info@[t]
    &&& pos[slot] == b0.pos@[t]
}

/// Everything between a run's start and its end is stretch-tagged.
proof fn lemma_run_range_stch(infos: Seq<GlyphInfo>, e: int)
    requires
        0 <= e,
    ensures
        forall|t: int| spec_run_start(infos, e) <= t < e ==> spec_stch_at(infos, t),
    decreases e,
{
    if e > 0 && spec_stch_at(infos, e - 1) {
        lemma_run_range_stch(infos, e - 1);
    }
}

/// A run start lies within the prefix it closes.
proof fn lemma_run_start_bounds(infos: Seq<GlyphInfo>, e: int)
    requires
        0 <= e,
    ensures
        0 <= spec_run_start(infos, e) <= e,
        e > 0 && spec_stch_at(infos, e - 1) ==> spec_run_start(infos, e) <= e - 1,
    decreases e,
{
    if e > 0 && spec_stch_at(infos, e - 1) {
        lemma_run_start_bounds(infos, e - 1);
    }
}

/// A context start lies within the prefix it closes.
proof fn lemma_ctx_start_bounds(infos: Seq<GlyphInfo>, s: int)
    requires
        0 <= s,
    ensures
        0 <= spec_ctx_start(infos, s) <= s,
    decreases s,
{
    if s > 0 && spec_is_context(infos, s - 1) {
        lemma_ctx_start_bounds(infos, s - 1);
    }
}

/// The run sums are non-negative and bounded by the run length times the
/// largest font unit; the repeat count is at most the run length.
proof fn lemma_run_sum_bounds(infos: Seq<GlyphInfo>, font: Font, s: int, e: int)
    requires
        font.wf(),
        0 <= s,
    ensures
        0 <= spec_run_fixed(infos, font, s, e) <= (if e >= s {
            (e - s) * 0x7FFF_FFFF
        } else {
            0
        }),
        0 <= spec_run_rep(infos, font, s, e) <= (if e >= s {
            (e - s) * 0x7FFF_FFFF
        } else {
            0
        }),
        0 <= spec_rep_count(infos, s, e) <= (if e >= s {
            e - s
        } else {
            0
        }),
    decreases e - s,
{
    if e > s {
        lemma_run_sum_bounds(infos, font, s + 1, e);
        lemma_advance_bound(font, infos[s].codepoint);
    }
}

/// Every advance of a well-formed font is below 2^16.
proof fn lemma_advance_bound(font: Font, glyph: u32)
    requires
        font.wf(),
    ensures
        0 <= font.spec_advance(glyph) < 0x8000_0000,
{
    lemma_advance_bound_from(font, glyph, 0);
}

proof fn lemma_advance_bound_from(font: Font, glyph: u32, k: int)
    requires
        font.wf(),
    ensures
        0 <= font.spec_advance_from(glyph, k) < 0x8000_0000,
    decreases font.entries@.len() - k,
{
    if 0 <= k < font.entries@.len() && font.entries@[k].0 != glyph {
        lemma_advance_bound_from(font, glyph, k + 1);
    }
}

/// The context total is bounded by the window length times the largest
/// advance.
proof fn lemma_ctx_total_bounds(poss: Seq<GlyphPosition>, c: int, s: int)
    requires
        0 <= c,
        s <= poss.len(),
        forall|k: int| 0 <= k < poss.len() ==> -0x8000_0000 < (#[trigger] poss[k]).x_advance < 0x8000_0000,
    ensures
        s >= c ==> -((s - c) * 0x8000_0000) <= spec_ctx_total(poss, c, s) <= (s - c) * 0x8000_0000,
        s < c ==> spec_ctx_total(poss, c, s) == 0,
    decreases s - c,
{
    if s > c {
        lemma_ctx_total_bounds(poss, c + 1, s);
    }
}

/// The extra-slot total is non-negative and bounded.
proof fn lemma_extra_bounds(infos: Seq<GlyphInfo>, poss: Seq<GlyphPosition>, font: Font, e: int)
    requires
        font.wf(),
        0 <= e <= infos.len(),
        infos.len() == poss.len(),
        infos.len() <= 0x100000,
        forall|k: int| 0 <= k < poss.len() ==> -0x8000_0000 < (#[trigger] poss[k]).x_advance < 0x8000_0000,
    ensures
        0 <= spec_extra(infos, poss, font, e) <= e * 0x8_0000_0000_0000,
    decreases e,
{
    if e > 0 {
        if !spec_stch_at(infos, e - 1) {
            lemma_extra_bounds(infos, poss, font, e - 1);
        } else {
            lemma_run_start_bounds(infos, e);
            let s = spec_run_start(infos, e);
            lemma_extra_bounds(infos, poss, font, s);
            lemma_ctx_start_bounds(infos, s);
            let c = spec_ctx_start(infos, s);
            lemma_run_sum_bounds(infos, font, s, e);
            lemma_ctx_total_bounds(poss, c, s);
            let wt = spec_ctx_total(poss, c, s);
            let wf_ = spec_run_fixed(infos, font, s, e);
            let wr = spec_run_rep(infos, font, s, e);
            let nr = spec_rep_count(infos, s, e);
            lemma_counts_bounds(wt, wf_, wr, nr);
            let n_copies = spec_stretch_counts(wt, wf_, wr, nr).0;
            assert((s - c) * 0x8000_0000 <= 0x100000 * 0x8000_0000int) by (nonlinear_arith)
                requires
                    0 <= s - c <= 0x100000,
            ;
            assert((e - s) * 0x7FFF_FFFF <= 0x100000 * 0x7FFF_FFFFint) by (nonlinear_arith)
                requires
                    0 <= e - s <= 0x100000,
            ;
            assert(n_copies * nr <= (e - s) * 0x8_0000_0000_0000) by (nonlinear_arith)
                requires
                    0 <= n_copies <= 0x8_0000_0000_0000,
                    0 <= nr,
                    nr <= e - s,
            ;
            assert(n_copies * nr >= 0) by (nonlinear_arith)
                requires
                    0 <= n_copies,
                    0 <= nr,
            ;
        }
    }
}

/// Bounds on the tile counts that follow from bounded inputs: the count is
/// non-negative and at most the remaining width.
proof fn lemma_counts_bounds(wt: int, wf_: int, wr: int, nr: int)
    requires
        -0x8_0000_0000_0000 <= wt <= 0x8_0000_0000_0000,
        0 <= wf_,
        0 <= wr,
        0 <= nr,
    ensures
        0 <= spec_stretch_counts(wt, wf_, wr, nr).0 <= (if wt - wf_ > 0 {
            wt - wf_
        } else {
            1
        }),
        0 <= spec_stretch_counts(wt, wf_, wr, nr).1,
{
    let w_remaining = wt - wf_;
    if w_remaining > wr && wr > 0 {
        lemma_fundamental_div_mod(w_remaining, wr);
        lemma_mod_bound(w_remaining, wr);
        let q = w_remaining / wr;
        assert(q >= 1) by (nonlinear_arith)
            requires
                w_remaining == wr * q + (w_remaining % wr),
                0 <= (w_remaining % wr),
                (w_remaining % wr) < wr,
                w_remaining > wr,
                wr > 0,
        ;
        assert(q <= wr * q) by (nonlinear_arith)
            requires
                q >= 1,
                wr >= 1,
        ;
        assert(wr * (q + 1) == wr * q + wr) by (nonlinear_arith);
    }
    let n1: int = if w_remaining > wr && wr > 0 {
        w_remaining / wr - 1
    } else {
        0
    };
    assert(n1 >= 0) by {
        if w_remaining > wr && wr > 0 {
            assert(w_remaining / wr >= 1);
        }
    }
    let shortfall = w_remaining - wr * (n1 + 1);
    if shortfall > 0 && nr > 0 {
        let n = n1 + 1;
        let excess = (n + 1) * wr - w_remaining;
        if excess > 0 {
            assert(n * nr >= 1) by (nonlinear_arith)
                requires
                    n >= 1,
                    nr >= 1,
            ;
            let denom = n * nr;
            lemma_fundamental_div_mod(excess, denom);
            lemma_mod_bound(excess, denom);
            assert(excess / denom >= 0) by (nonlinear_arith)
                requires
                    excess == denom * (excess / denom) + excess % denom,
                    0 <= excess % denom,
                    excess > 0,
                    denom >= 1,
            ;
        }
        assert(w_remaining >= 1);
    }
}

/// The stretch measurements read only the glyph records and advances of
/// the prefix they cover: two buffers that agree there measure alike.
proof fn lemma_extra_congruent(
    i1: Seq<GlyphInfo>,
    p1: Seq<GlyphPosition>,
    i2: Seq<GlyphInfo>,
    p2: Seq<GlyphPosition>,
    font: Font,
    e: int,
)
    requires
        0 <= e,
        e <= i1.len(),
        e <= i2.len(),
        e <= p1.len(),
        e <= p2.len(),
        forall|k: int| 0 <= k < e ==> #[trigger] i1[k] == i2[k],
        forall|k: int| 0 <= k < e ==> (#[trigger] p1[k]).x_advance == p2[k].x_advance,
    ensures
        spec_extra(i1, p1, font, e) == spec_extra(i2, p2, font, e),
        spec_run_start(i1, e) == spec_run_start(i2, e),
        spec_ctx_start(i1, e) == spec_ctx_start(i2, e),
    decreases e,
{
    lemma_prefix_fns_congruent(i1, p1, i2, p2, font, e);
    if e > 0 {
        lemma_extra_congruent(i1, p1, i2, p2, font, e - 1);
        if spec_stch_at(i1, e - 1) {
            lemma_run_start_bounds(i1, e);
            let s = spec_run_start(i1, e);
            lemma_extra_congruent(i1, p1, i2, p2, font, s);
            lemma_prefix_fns_congruent(i1, p1, i2, p2, font, s);
            lemma_ctx_start_bounds(i1, s);
            let c = spec_ctx_start(i1, s);
            lemma_run_pair_congruent(i1, p1, i2, p2, font, c, s);
        }
    }
}

/// Congruence for the run scans and sums with indices below `e`.
proof fn lemma_prefix_fns_congruent(
    i1: Seq<GlyphInfo>,
    p1: Seq<GlyphPosition>,
    i2: Seq<GlyphInfo>,
    p2: Seq<GlyphPosition>,
    font: Font,
    e: int,
)
    requires
        0 <= e,
        e <= i1.len(),
        e <= i2.len(),
        e <= p1.len(),
        e <= p2.len(),
        forall|k: int| 0 <= k < e ==> #[trigger] i1[k] == i2[k],
        forall|k: int| 0 <= k < e ==> (#[trigger] p1[k]).x_advance == p2[k].x_advance,
    ensures
        spec_run_start(i1, e) == spec_run_start(i2, e),
        spec_ctx_start(i1, e) == spec_ctx_start(i2, e),
        forall|s: int|
            0 <= s <= e ==> #[trigger] spec_run_fixed(i1, font, s, e) == spec_run_fixed(
                i2,
                font,
                s,
                e,
            ) && spec_run_rep(i1, font, s, e) == spec_run_rep(i2, font, s, e) && spec_rep_count(
                i1,
                s,
                e,
            ) == spec_rep_count(i2, s, e) && spec_ctx_total(p1, s, e) == spec_ctx_total(p2, s, e),
    decreases e,
{
    if e > 0 {
        lemma_prefix_fns_congruent(i1, p1, i2, p2, font, e - 1);
        assert forall|s: int| 0 <= s <= e implies #[trigger] spec_run_fixed(i1, font, s, e)
            == spec_run_fixed(i2, font, s, e) && spec_run_rep(i1, font, s, e) == spec_run_rep(
            i2,
            font,
            s,
            e,
        ) && spec_rep_count(i1, s, e) == spec_rep_count(i2, s, e) && spec_ctx_total(p1, s, e)
            == spec_ctx_total(p2, s, e) by {
            lemma_run_pair_congruent(i1, p1, i2, p2, font, s, e);
        }
    }
}

/// Congruence for one `[s, e)` window of the run sums.
proof fn lemma_run_pair_congruent(
    i1: Seq<GlyphInfo>,
    p1: Seq<GlyphPosition>,
    i2: Seq<GlyphInfo>,
    p2: Seq<GlyphPosition>,
    font: Font,
    s: int,
    e: int,
)
    requires
        e <= i1.len(),
        e <= i2.len(),
        e <= p1.len(),
        e <= p2.len(),
        0 <= s,
        forall|k: int| 0 <= k < e ==> #[trigger] i1[k] == i2[k],
        forall|k: int| 0 <= k < e ==> (#[trigger] p1[k]).x_advance == p2[k].x_advance,
    ensures
        spec_run_fixed(i1, font, s, e) == spec_run_fixed(i2, font, s, e),
        spec_run_rep(i1, font, s, e) == spec_run_rep(i2, font, s, e),
        spec_rep_count(i1, s, e) == spec_rep_count(i2, s, e),
        spec_ctx_total(p1, s, e) == spec_ctx_total(p2, s, e),
    decreases e - s,
{
    if e > s {
        lemma_run_pair_congruent(i1, p1, i2, p2, font, s + 1, e);
    }
}

/// The repeat count over a window splits at any interior point.
proof fn lemma_rep_count_split(infos: Seq<GlyphInfo>, s: int, k: int, e: int)
    requires
        s <= k <= e,
    ensures
        spec_rep_count(infos, s, e) == spec_rep_count(infos, s, k) + spec_rep_count(infos, k, e),
    decreases k - s,
{
    if k > s {
        lemma_rep_count_split(infos, s + 1, k, e);
    }
}

/// The repeat count of a window is non-negative and bounded by its length.
proof fn lemma_rep_count_bounds(infos: Seq<GlyphInfo>, s: int, e: int)
    ensures
        e >= s ==> 0 <= spec_rep_count(infos, s, e) <= e - s,
        e < s ==> spec_rep_count(infos, s, e) == 0,
    decreases e - s,
{
    if e > s {
        lemma_rep_count_bounds(infos, s + 1, e);
    }
}

/// Scan one maximal stretch run ending at `end` and its context window,
/// returning the run start, the context start, the context's total
/// advance, the fixed and repeating tile widths, and the repeating count.
fn measure_run(buffer: &Buffer, font: &Font, end: usize) -> (r: (usize, usize, i64, i64, i64, i64))
    requires
        font.wf(),
        0 < end <= buffer.info@.len(),
        end <= buffer.pos@.len(),
        end <= 0x100000,
        forall|k: int|
            0 <= k < end ==> -0x8000_0000 < (#[trigger] buffer.pos@[k]).x_advance < 0x8000_0000,
        spec_stch_at(buffer.info@, end as int - 1),
    ensures
        r.0 == spec_run_start(buffer.info@, end as int),
        r.1 == spec_ctx_start(buffer.info@, r.0 as int),
        r.2 == spec_ctx_total(buffer.pos@, r.1 as int, r.0 as int),
        r.3 == spec_run_fixed(buffer.info@, *font, r.0 as int, end as int),
        r.4 == spec_run_rep(buffer.info@, *font, r.0 as int, end as int),
        r.5 == spec_rep_count(buffer.info@, r.0 as int, end as int),
        r.1 <= r.0 && r.0 < end,
        -0x8_0000_0000_0000 <= r.2 <= 0x8_0000_0000_0000,
        0 <= r.3 <= 0x8_0000_0000_0000,
        0 <= r.4 <= 0x8_0000_0000_0000,
        0 <= r.5 <= end - r.0,
{
    let ghost infos = buffer.info@;
    let ghost poss = buffer.pos@;

    let mut s = end;
    let mut w_fixed: i64 = 0;
    let mut w_repeating: i64 = 0;
    let mut n_repeating: i64 = 0;
    while s > 0 && buffer.info[s - 1].action.is_stch()
        invariant
            0 <= s <= end <= buffer.info@.len(),
            end <= 0x100000,
            font.wf(),
            infos == buffer.info@,
            poss == buffer.pos@,
            spec_run_start(infos, end as int) == spec_run_start(infos, s as int),
            w_fixed == spec_run_fixed(infos, *font, s as int, end as int),
            w_repeating == spec_run_rep(infos, *font, s as int, end as int),
            n_repeating == spec_rep_count(infos, s as int, end as int),
            0 <= w_fixed <= (end - s) * 0x7FFF_FFFF,
            0 <= w_repeating <= (end - s) * 0x7FFF_FFFF,
            0 <= n_repeating <= end - s,
        decreases s,
    {
        s = s - 1;
        let width = font.glyph_h_advance(buffer.info[s].codepoint) as i64;
        if buffer.info[s].action == Action::StretchingFixed {
            w_fixed = w_fixed + width;
        } else {
            w_repeating = w_repeating + width;
            n_repeating = n_repeating + 1;
        }
    }

    proof {
        lemma_run_start_bounds(infos, end as int);
        assert((end - s) * 0x7FFF_FFFF <= 0x100000 * 0x7FFF_FFFFint) by (nonlinear_arith)
            requires
                0 <= end - s <= 0x100000,
        ;
    }

    let mut c = s;
    let mut w_total: i64 = 0;
    while c > 0 && !buffer.info[c - 1].action.is_stch() && (buffer.info[c - 1].default_ignorable
        || is_word_category(buffer.info[c - 1].general_category))
        invariant
            0 <= c <= s <= buffer.info@.len(),
            s <= 0x100000,
            s <= buffer.pos@.len(),
            infos == buffer.info@,
            poss == buffer.pos@,
            forall|k: int|
                0 <= k < s ==> -0x8000_0000 < (#[trigger] buffer.pos@[k]).x_advance < 0x8000_0000,
            spec_ctx_start(infos, s as int) == spec_ctx_start(infos, c as int),
            w_total == spec_ctx_total(poss, c as int, s as int),
            -((s - c) * 0x8000_0000) <= w_total <= (s - c) * 0x8000_0000,
        decreases c,
    {
        c = c - 1;
        w_total = w_total + buffer.pos[c].x_advance;
    }

    proof {
        assert((s - c) * 0x8000_0000 <= 0x100000 * 0x8000_0000int) by (nonlinear_arith)
            requires
                0 <= s - c <= 0x100000,
        ;
    }

    (s, c, w_total, w_fixed, w_repeating, n_repeating)
}

/// Walk the buffer once and total the extra glyph slots every stretch run
/// will need.
fn measure_extra(buffer: &Buffer, font: &Font) -> (r: usize)
    requires
        font.wf(),
        stretch_input_ok(*buffer),
        spec_extra(buffer.info@, buffer.pos@, *font, buffer.info@.len() as int) < 0x8000_0000,
    ensures
        r == spec_extra(buffer.info@, buffer.pos@, *font, buffer.info@.len() as int),
{
    let ghost infos = buffer.info@;
    let ghost poss = buffer.pos@;
    let len = buffer.len();
    proof {
        lemma_extra_bounds(infos, poss, *font, len as int);
    }
    let mut extra: usize = 0;
    let mut i = len;
    while i != 0
        invariant
            0 <= i <= len,
            len == buffer.info@.len(),
            font.wf(),
            stretch_input_ok(*buffer),
            infos == buffer.info@,
            poss == buffer.pos@,
            extra as int == spec_extra(infos, poss, *font, len as int) - spec_extra(
                infos,
                poss,
                *font,
                i as int,
            ),
            spec_extra(infos, poss, *font, len as int) < 0x8000_0000,
            0 <= spec_extra(infos, poss, *font, i as int) <= spec_extra(
                infos,
                poss,
                *font,
                len as int,
            ),
        decreases i,
    {
        proof {
            lemma_extra_bounds(infos, poss, *font, i as int);
        }
        if !buffer.info[i - 1].action.is_stch() {
            proof {
                assert(!spec_stch_at(infos, i as int - 1));
                assert(spec_extra(infos, poss, *font, i as int) == spec_extra(
                    infos,
                    poss,
                    *font,
                    i as int - 1,
                ));
                lemma_extra_bounds(infos, poss, *font, i as int - 1);
            }
            i = i - 1;
        } else {
            let (start, _context, w_total, w_fixed, w_repeating, n_repeating) = measure_run(
                buffer,
                font,
                i,
            );
            let counts = stretch_counts(w_total, w_fixed, w_repeating, n_repeating);
            proof {
                lemma_run_start_bounds(infos, i as int);
                lemma_extra_bounds(infos, poss, *font, i as int);
                lemma_extra_bounds(infos, poss, *font, start as int);
                assert(counts.0 * n_repeating <= (i - start) * 0x8_0000_0000_0000) by (nonlinear_arith)
                    requires
                        0 <= counts.0 <= 0x8_0000_0000_0000,
                        0 <= n_repeating,
                        n_repeating <= i - start,
                ;
                assert(counts.0 * n_repeating >= 0) by (nonlinear_arith)
                    requires
                        0 <= counts.0,
                        0 <= n_repeating,
                ;
            }
            proof {
                assert(spec_run_extra(infos, poss, *font, i as int) == (counts.0 as int) * (
                n_repeating as int));
                assert(spec_extra(infos, poss, *font, i as int) == spec_extra(
                    infos,
                    poss,
                    *font,
                    start as int,
                ) + spec_run_extra(infos, poss, *font, i as int));
                lemma_extra_bounds(infos, poss, *font, start as int);
            }
            let run_extra = (counts.0 * n_repeating) as usize;
            extra = extra + run_extra;
            i = start;
        }
    }
    extra
}

/// Realize the recorded stretches: measure the extra slots every run
/// needs, grow the buffer, then walk it backwards, copying plain glyphs
/// and replicating repeating tiles with their computed offsets. A buffer
/// whose stretch flag is clear is left untouched. Otherwise the buffer
/// grows by exactly the measured total, every non-stretch glyph moves to
/// its old position shifted by the extra slots below it, every stretch
/// tile is emitted verbatim once (fixed) or one-plus-the-run's-copy-count
/// times adjacently (repeating) at its computed slots, and one
/// unsafe-to-break range per run is recorded, topmost first.
pub fn apply_stch(font: &Font, buffer: &mut Buffer)
    requires
        font.wf(),
        stretch_input_ok(*old(buffer)),
        old(buffer).info@.len() + spec_extra(
            old(buffer).info@,
            old(buffer).pos@,
            *font,
            old(buffer).info@.len() as int,
        ) < 0x8000_0000,
    ensures
        old(buffer).scratch_flags & ARABIC_HAS_STCH == 0 ==> *final(buffer) == *old(buffer),
        final(buffer).info@.len() == old(buffer).info@.len() + (if old(buffer).scratch_flags
            & ARABIC_HAS_STCH == 0 {
            0int
        } else {
            spec_extra(
                old(buffer).info@,
                old(buffer).pos@,
                *font,
                old(buffer).info@.len() as int,
            )
        }),
        final(buffer).pos@.len() == final(buffer).info@.len(),
        forall|k: int|
            0 <= k < old(buffer).info@.len() && !spec_stch_at(old(buffer).info@, k) && old(
                buffer,
            ).scratch_flags & ARABIC_HAS_STCH != 0 ==> #[trigger] spec_placed(
                final(buffer).info@,
                final(buffer).pos@,
                *old(buffer),
                *font,
                k,
            ),
        forall|t: int, n: int|
            0 <= t < old(buffer).info@.len() && spec_stch_at(old(buffer).info@, t) && 0 <= n
                < spec_copies(*old(buffer), *font, t) && old(buffer).scratch_flags
                & ARABIC_HAS_STCH != 0 ==> 0 <= #[trigger] spec_copy_slot(
                *old(buffer),
                *font,
                t,
                n,
            ) && spec_copy_placed(
                final(buffer).info@,
                final(buffer).pos@,
                *old(buffer),
                *font,
                t,
                n,
            ),
        final(buffer).scratch_flags == old(buffer).scratch_flags,
        final(buffer).context_before == old(buffer).context_before,
        final(buffer).context_after == old(buffer).context_after,
        final(buffer).unsafe_ranges@ == old(buffer).unsafe_ranges@ + (if old(
            buffer,
        ).scratch_flags & ARABIC_HAS_STCH == 0 {
            Seq::empty()
        } else {
            spec_break_ranges(old(buffer).info@, old(buffer).info@.len() as int)
        }),
{
    if buffer.scratch_flags & ARABIC_HAS_STCH == 0 {
        proof {
            assert(buffer.unsafe_ranges@ =~= buffer.unsafe_ranges@ + Seq::<(usize, usize)>::empty());
        }
        return;
    }
    let ghost orig = *old(buffer);
    let ghost infos = orig.info@;
    let ghost poss = orig.pos@;

    let len = buffer.len();
    let extra = measure_extra(buffer, font);
    proof {
        lemma_extra_bounds(infos, poss, *font, len as int);
        assert((len as int) * 0x8_0000_0000_0000 <= 0x100000 * 0x8_0000_0000_0000int) by (nonlinear_arith)
            requires
                0 <= len as int <= 0x100000,
        ;
    }
    let new_len = len + extra;

    while buffer.info.len() < new_len
        invariant
            len <= buffer.info@.len() <= new_len,
            buffer.pos@.len() == buffer.info@.len(),
            forall|k: int| 0 <= k < len ==> #[trigger] buffer.info@[k] == orig.info@[k],
            forall|k: int| 0 <= k < len ==> #[trigger] buffer.pos@[k] == orig.pos@[k],
            buffer.scratch_flags == orig.scratch_flags,
            buffer.context_before == orig.context_before,
            buffer.context_after == orig.context_after,
            buffer.unsafe_ranges == orig.unsafe_ranges,
        decreases new_len - buffer.info@.len(),
    {
        buffer.info.push(GlyphInfo::zeroed());
        buffer.pos.push(GlyphPosition::zeroed());
    }

    proof {
        assert(buffer.unsafe_ranges@ + spec_break_ranges(infos, len as int) =~= orig.unsafe_ranges@
            + spec_break_ranges(infos, len as int));
    }
    let mut i = len;
    let mut j = new_len;
    while i != 0
        invariant
            0 <= i <= len,
            orig == *old(buffer),
            infos == orig.info@,
            poss == orig.pos@,
            len == orig.info@.len(),
            len == orig.pos@.len(),
            len <= 0x100000,
            font.wf(),
            forall|k: int|
                0 <= k < len ==> -0x8000_0000 < (#[trigger] orig.pos@[k]).x_advance < 0x8000_0000,
            buffer.info@.len() == new_len,
            buffer.pos@.len() == new_len,
            new_len == len + spec_extra(infos, poss, *font, len as int),
            new_len < 0x8000_0000,
            j as int == i + spec_extra(infos, poss, *font, i as int),
            spec_extra(infos, poss, *font, i as int) <= spec_extra(infos, poss, *font, len as int),
            forall|k: int| 0 <= k < i ==> #[trigger] buffer.info@[k] == orig.info@[k],
            forall|k: int|
                0 <= k < i ==> (#[trigger] buffer.pos@[k]).x_advance == orig.pos@[k].x_advance,
            forall|k: int|
                0 <= k < i && !spec_stch_at(infos, k) ==> #[trigger] buffer.pos@[k]
                    == orig.pos@[k],
            forall|k: int|
                i <= k < len && !spec_stch_at(infos, k) ==> j <= k + #[trigger] spec_extra(
                    infos,
                    poss,
                    *font,
                    k,
                ) && spec_placed(buffer.info@, buffer.pos@, orig, *font, k),
            forall|t: int, n: int|
                i <= t < len && spec_stch_at(infos, t) && 0 <= n < spec_copies(orig, *font, t)
                    ==> j <= #[trigger] spec_copy_slot(orig, *font, t, n) && spec_copy_placed(
                    buffer.info@,
                    buffer.pos@,
                    orig,
                    *font,
                    t,
                    n,
                ),
            i == len || i == 0 || !spec_stch_at(infos, i as int) || !spec_stch_at(
                infos,
                i as int - 1,
            ),
            buffer.scratch_flags == orig.scratch_flags,
            buffer.context_before == orig.context_before,
            buffer.context_after == orig.context_after,
            buffer.unsafe_ranges@ + spec_break_ranges(infos, i as int) == orig.unsafe_ranges@
                + spec_break_ranges(infos, len as int),
        decreases i,
    {
        proof {
            lemma_extra_bounds(infos, poss, *font, i as int);
        }
        if !buffer.info[i - 1].action.is_stch() {
            proof {
                assert(!spec_stch_at(infos, i as int - 1));
                assert(spec_extra(infos, poss, *font, i as int) == spec_extra(
                    infos,
                    poss,
                    *font,
                    i as int - 1,
                ));
                assert(spec_break_ranges(infos, i as int) == spec_break_ranges(
                    infos,
                    i as int - 1,
                ));
            }
            let ghost j_old = j as int;
            let ghost pre = *buffer;
            j = j - 1;
            let gi = buffer.info[i - 1];
            let gp = buffer.pos[i - 1];
            buffer.info.set(j, gi);
            buffer.pos.set(j, gp);
            proof {
                assert forall|t: int|
                    i - 1 <= t < len && !spec_stch_at(infos, t) implies j <= t
                    + #[trigger] spec_extra(infos, poss, *font, t) && spec_placed(
                    buffer.info@,
                    buffer.pos@,
                    orig,
                    *font,
                    t,
                ) by {
                    if t == i - 1 {
                        assert(t + spec_extra(infos, poss, *font, t) == j);
                    } else {
                        assert(spec_placed(pre.info@, pre.pos@, orig, *font, t));
                        assert(t + spec_extra(infos, poss, *font, t) >= j_old);
                    }
                }
                assert forall|t: int, n: int|
                    i - 1 <= t < len && spec_stch_at(infos, t) && 0 <= n < spec_copies(
                        orig,
                        *font,
                        t,
                    ) implies j <= #[trigger] spec_copy_slot(orig, *font, t, n)
                    && spec_copy_placed(buffer.info@, buffer.pos@, orig, *font, t, n) by {
                    assert(t >= i);
                    assert(spec_copy_placed(pre.info@, pre.pos@, orig, *font, t, n));
                    assert(spec_copy_slot(orig, *font, t, n) >= j_old);
                }
            }
            i = i - 1;
        } else {
            let end_run = i;
            let ghost at_entry = *buffer;
            proof {
                lemma_extra_congruent(buffer.info@, buffer.pos@, infos, poss, *font, i as int);
                lemma_prefix_fns_congruent(buffer.info@, buffer.pos@, infos, poss, *font, i as int);
            }
            let (start, context, w_total, w_fixed, w_repeating, n_repeating) = measure_run(
                buffer,
                font,
                end_run,
            );
            proof {
                lemma_run_start_bounds(infos, end_run as int);
                lemma_prefix_fns_congruent(
                    buffer.info@,
                    buffer.pos@,
                    infos,
                    poss,
                    *font,
                    start as int,
                );
                lemma_ctx_start_bounds(infos, start as int);
                lemma_run_pair_congruent(
                    buffer.info@,
                    buffer.pos@,
                    infos,
                    poss,
                    *font,
                    context as int,
                    start as int,
                );
                lemma_extra_bounds(infos, poss, *font, start as int);
            }
            let ghost pre_break = buffer.unsafe_ranges@;
            buffer.unsafe_to_break(context, end_run);
            proof {
                assert forall|t: int|
                    end_run <= t < len && !spec_stch_at(infos, t) implies j <= t
                    + #[trigger] spec_extra(infos, poss, *font, t) && spec_placed(
                    buffer.info@,
                    buffer.pos@,
                    orig,
                    *font,
                    t,
                ) by {
                    assert(spec_placed(at_entry.info@, at_entry.pos@, orig, *font, t));
                    assert(buffer.info@ == at_entry.info@);
                    assert(buffer.pos@ == at_entry.pos@);
                }
                assert forall|t: int, n2: int|
                    end_run <= t < len && spec_stch_at(infos, t) && 0 <= n2 < spec_copies(
                        orig,
                        *font,
                        t,
                    ) implies j <= #[trigger] spec_copy_slot(orig, *font, t, n2)
                    && spec_copy_placed(buffer.info@, buffer.pos@, orig, *font, t, n2) by {
                    assert(spec_copy_placed(at_entry.info@, at_entry.pos@, orig, *font, t, n2));
                    assert(buffer.info@ == at_entry.info@);
                    assert(buffer.pos@ == at_entry.pos@);
                }
                assert(spec_break_ranges(infos, end_run as int) == seq![
                    (context, end_run),
                ] + spec_break_ranges(infos, start as int));
                assert(buffer.unsafe_ranges@ + spec_break_ranges(infos, start as int)
                    =~= pre_break + spec_break_ranges(infos, end_run as int));
            }
            let counts = stretch_counts(w_total, w_fixed, w_repeating, n_repeating);
            let n_copies = counts.0;
            let extra_repeat_overlap = counts.1;
            let ghost run_rc = spec_rep_count(infos, start as int, end_run as int);

            proof {
                assert(spec_run_extra(infos, poss, *font, end_run as int) == (n_copies as int)
                    * run_rc);
                assert(spec_extra(infos, poss, *font, end_run as int) == spec_extra(
                    infos,
                    poss,
                    *font,
                    start as int,
                ) + spec_run_extra(infos, poss, *font, end_run as int));
                assert((n_copies as int) * run_rc >= 0) by (nonlinear_arith)
                    requires
                        0 <= n_copies as int,
                        0 <= run_rc,
                ;
                lemma_rep_count_split(infos, start as int, end_run as int, end_run as int);
                lemma_run_range_stch(infos, end_run as int);
                lemma_run_start_stops(infos, end_run as int);
                assert forall|t: int| start <= t < end_run implies #[trigger] spec_run_end(
                    infos,
                    t,
                ) == end_run by {
                    lemma_run_end_of(infos, start as int, end_run as int, t);
                }
                assert forall|t: int| start <= t < end_run implies #[trigger] spec_run_ncopies(
                    orig,
                    *font,
                    t,
                ) == n_copies as int by {
                    assert(spec_run_end(infos, t) == end_run);
                }
                assert forall|t: int| start <= t < end_run implies #[trigger] spec_run_overlap(
                    orig,
                    *font,
                    t,
                ) == extra_repeat_overlap as int by {
                    assert(spec_run_end(infos, t) == end_run);
                }
                assert((extra_repeat_overlap as int) * 0 == 0) by (nonlinear_arith);
            }

            let ghost j_entry = j as int;
            let mut x_offset: i64 = 0;
            let ghost mut adds: int = 0;
            let ghost mut subs: int = 0;
            let mut k = end_run;
            while k > start
                invariant
                    start <= k <= end_run,
                    end_run <= len,
                    orig == *old(buffer),
                    infos == orig.info@,
                    poss == orig.pos@,
                    len == orig.info@.len(),
                    len == orig.pos@.len(),
                    len <= 0x100000,
                    font.wf(),
                    forall|t: int|
                        0 <= t < len ==> -0x8000_0000 < (#[trigger] orig.pos@[t]).x_advance < 0x8000_0000,
                    buffer.info@.len() == new_len,
                    buffer.pos@.len() == new_len,
                    new_len == len + spec_extra(infos, poss, *font, len as int),
                    forall|t: int| 0 <= t < k ==> #[trigger] buffer.info@[t] == orig.info@[t],
                    forall|t: int|
                        0 <= t < k ==> (#[trigger] buffer.pos@[t]).x_advance
                            == orig.pos@[t].x_advance,
                    forall|t: int|
                        0 <= t < k && !spec_stch_at(infos, t) ==> #[trigger] buffer.pos@[t]
                            == orig.pos@[t],
                    forall|t: int|
                        end_run <= t < len && !spec_stch_at(infos, t) ==> j <= t
                            + #[trigger] spec_extra(infos, poss, *font, t) && spec_placed(
                            buffer.info@,
                            buffer.pos@,
                            orig,
                            *font,
                            t,
                        ),
                    forall|t: int, n2: int|
                        end_run <= t < len && spec_stch_at(infos, t) && 0 <= n2 < spec_copies(
                            orig,
                            *font,
                            t,
                        ) ==> j <= #[trigger] spec_copy_slot(orig, *font, t, n2)
                            && spec_copy_placed(buffer.info@, buffer.pos@, orig, *font, t, n2),
                    forall|t: int, n2: int|
                        k <= t < end_run && 0 <= n2 < spec_copies(orig, *font, t) ==> j
                            <= #[trigger] spec_copy_slot(orig, *font, t, n2) && spec_copy_placed(
                            buffer.info@,
                            buffer.pos@,
                            orig,
                            *font,
                            t,
                            n2,
                        ),
                    forall|t: int| start <= t < end_run ==> spec_stch_at(infos, t),
                    forall|t: int|
                        start <= t < end_run ==> #[trigger] spec_run_end(infos, t) == end_run,
                    forall|t: int|
                        start <= t < end_run ==> #[trigger] spec_run_ncopies(orig, *font, t)
                            == n_copies as int,
                    buffer.scratch_flags == orig.scratch_flags,
                    buffer.context_before == orig.context_before,
                    buffer.context_after == orig.context_after,
                    buffer.unsafe_ranges@ + spec_break_ranges(infos, start as int)
                        == orig.unsafe_ranges@ + spec_break_ranges(infos, len as int),
                    len <= new_len,
                    new_len < 0x8000_0000,
                    run_rc == spec_rep_count(infos, start as int, end_run as int),
                    0 <= run_rc,
                    start as int == spec_run_start(infos, end_run as int),
                    0 <= n_copies <= 0x8_0000_0000_0000,
                    0 <= extra_repeat_overlap,
                    0 <= w_repeating <= 0x8_0000_0000_0000,
                    (extra_repeat_overlap as int) * ((n_copies as int) * run_rc)
                        <= w_repeating as int,
                    spec_extra(infos, poss, *font, end_run as int) == spec_extra(
                        infos,
                        poss,
                        *font,
                        start as int,
                    ) + (n_copies as int) * run_rc,
                    spec_extra(infos, poss, *font, end_run as int) <= spec_extra(
                        infos,
                        poss,
                        *font,
                        len as int,
                    ),
                    0 <= spec_extra(infos, poss, *font, start as int),
                    j_entry == end_run + spec_extra(infos, poss, *font, end_run as int),
                    j as int == k + spec_extra(infos, poss, *font, start as int) + (
                    n_copies as int) * spec_rep_count(infos, start as int, k as int),
                    j as int <= j_entry,
                    j_entry <= new_len,
                    forall|t: int|
                        start <= t < end_run ==> #[trigger] spec_run_overlap(orig, *font, t)
                            == extra_repeat_overlap as int,
                    adds == (n_copies as int) * spec_rep_count(infos, k as int, end_run as int),
                    subs == spec_emit_width(infos, *font, k as int, end_run as int, n_copies as int),
                    x_offset as int == (extra_repeat_overlap as int) * adds - subs,
                    x_offset as int <= (extra_repeat_overlap as int) * adds,
                    x_offset as int >= -((j_entry - j as int) * 0x8000_0000),
                decreases k,
            {
                let width = font.glyph_h_advance(buffer.info[k - 1].codepoint) as i64;
                let is_rep = buffer.info[k - 1].action == Action::StretchingRepeating;
                let repeat: i64 = if is_rep {
                    1 + n_copies
                } else {
                    1
                };
                let ghost rc_below = spec_rep_count(infos, start as int, k as int - 1);
                let ghost rc_above = spec_rep_count(infos, k as int, end_run as int);
                proof {
                    lemma_rep_count_split(infos, start as int, k as int - 1, k as int);
                    lemma_rep_count_split(infos, start as int, k as int, end_run as int);
                    lemma_rep_count_bounds(infos, start as int, k as int - 1);
                    lemma_rep_count_bounds(infos, k as int, end_run as int);
                    lemma_rep_count_bounds(infos, start as int, k as int);
                    let d: int = if is_rep {
                        1
                    } else {
                        0
                    };
                    assert(spec_rep_count(infos, k as int, k as int) == 0);
                    assert(spec_rep_count(infos, k as int - 1, k as int) == d);
                    assert(spec_rep_count(infos, start as int, k as int) == rc_below + d);
                    assert((n_copies as int) * (rc_below + d) == (n_copies as int) * rc_below + (
                    n_copies as int) * d) by (nonlinear_arith);
                    assert((n_copies as int) * (rc_above + d) == (n_copies as int) * rc_above + (
                    n_copies as int) * d) by (nonlinear_arith);
                    assert((n_copies as int) * rc_below >= 0) by (nonlinear_arith)
                        requires
                            0 <= n_copies as int,
                            0 <= rc_below,
                    ;
                    assert((n_copies as int) * rc_below + (n_copies as int) >= n_copies as int);
                    assert(spec_run_ncopies(orig, *font, k - 1) == n_copies as int);
                    assert(spec_copies(orig, *font, k - 1) == repeat as int);
                }
                let mut n: i64 = 0;
                while n < repeat
                    invariant
                        0 <= n <= repeat,
                        repeat == (if is_rep {
                            1 + n_copies as int
                        } else {
                            1int
                        }),
                        start < k <= end_run,
                        end_run <= len,
                        orig == *old(buffer),
                        infos == orig.info@,
                        poss == orig.pos@,
                        len == orig.info@.len(),
                        len == orig.pos@.len(),
                        len <= 0x100000,
                        font.wf(),
                        forall|t: int|
                            0 <= t < len ==> -0x8000_0000 < (#[trigger] orig.pos@[t]).x_advance
                                < 0x8000_0000,
                        buffer.info@.len() == new_len,
                        buffer.pos@.len() == new_len,
                        forall|t: int| 0 <= t < k ==> #[trigger] buffer.info@[t] == orig.info@[t],
                        forall|t: int|
                            0 <= t < k ==> (#[trigger] buffer.pos@[t]).x_advance
                                == orig.pos@[t].x_advance,
                        forall|t: int|
                            0 <= t < k && !spec_stch_at(infos, t) ==> #[trigger] buffer.pos@[t]
                                == orig.pos@[t],
                        forall|t: int|
                            end_run <= t < len && !spec_stch_at(infos, t) ==> j <= t
                                + #[trigger] spec_extra(infos, poss, *font, t) && spec_placed(
                                buffer.info@,
                                buffer.pos@,
                                orig,
                                *font,
                                t,
                            ),
                        forall|t: int, n2: int|
                            end_run <= t < len && spec_stch_at(infos, t) && 0 <= n2 < spec_copies(
                                orig,
                                *font,
                                t,
                            ) ==> j <= #[trigger] spec_copy_slot(orig, *font, t, n2)
                                && spec_copy_placed(buffer.info@, buffer.pos@, orig, *font, t, n2),
                        forall|t: int, n2: int|
                            k <= t < end_run && 0 <= n2 < spec_copies(orig, *font, t) ==> j
                                <= #[trigger] spec_copy_slot(orig, *font, t, n2)
                                && spec_copy_placed(buffer.info@, buffer.pos@, orig, *font, t, n2),
                        forall|n2: int|
                            0 <= n2 < n ==> j <= #[trigger] spec_copy_slot(orig, *font, k - 1, n2)
                                && spec_copy_placed(buffer.info@, buffer.pos@, orig, *font, k - 1, n2),
                        spec_copies(orig, *font, k - 1) == repeat as int,
                        start as int == spec_run_start(infos, end_run as int),
                        forall|t: int| start <= t < end_run ==> spec_stch_at(infos, t),
                        forall|t: int|
                            start <= t < end_run ==> #[trigger] spec_run_end(infos, t) == end_run,
                        forall|t: int|
                            start <= t < end_run ==> #[trigger] spec_run_ncopies(orig, *font, t)
                                == n_copies as int,
                        buffer.scratch_flags == orig.scratch_flags,
                        buffer.context_before == orig.context_before,
                        buffer.context_after == orig.context_after,
                        buffer.unsafe_ranges@ + spec_break_ranges(infos, start as int)
                            == orig.unsafe_ranges@ + spec_break_ranges(infos, len as int),
                        run_rc == spec_rep_count(infos, start as int, end_run as int),
                        len <= new_len,
                        new_len < 0x8000_0000,
                        rc_below == spec_rep_count(infos, start as int, k as int - 1),
                        0 <= rc_below,
                        rc_above == spec_rep_count(infos, k as int, end_run as int),
                        0 <= rc_above,
                        run_rc == spec_rep_count(infos, start as int, k as int) + rc_above,
                        spec_rep_count(infos, start as int, k as int) == rc_below + (if is_rep {
                            1int
                        } else {
                            0int
                        }),
                        is_rep == (orig.info@[k - 1].action == Action::StretchingRepeating),
                        0 <= n_copies <= 0x8_0000_0000_0000,
                        0 <= extra_repeat_overlap,
                        0 <= width < 0x8000_0000,
                        0 <= w_repeating <= 0x8_0000_0000_0000,
                        (extra_repeat_overlap as int) * ((n_copies as int) * run_rc)
                            <= w_repeating as int,
                        0 <= spec_extra(infos, poss, *font, start as int),
                        j_entry <= new_len,
                        j as int == k + spec_extra(infos, poss, *font, start as int) + (
                        n_copies as int) * spec_rep_count(infos, start as int, k as int)
                            - n as int,
                        j as int <= j_entry,
                        forall|t: int|
                            start <= t < end_run ==> #[trigger] spec_run_overlap(orig, *font, t)
                                == extra_repeat_overlap as int,
                        adds == (n_copies as int) * rc_above + (if is_rep && n > 0 {
                            n as int - 1
                        } else {
                            0int
                        }),
                        subs == spec_emit_width(
                            infos,
                            *font,
                            k as int,
                            end_run as int,
                            n_copies as int,
                        ) + (n as int) * (width as int),
                        width as int == spec_adv(*font, infos[k - 1]),
                        x_offset as int == (extra_repeat_overlap as int) * adds - subs,
                        x_offset as int <= (extra_repeat_overlap as int) * adds,
                        x_offset as int >= -((j_entry - j as int) * 0x8000_0000),
                    decreases repeat - n,
                {
                    proof {
                        assert((n_copies as int) * (rc_below + (if is_rep {
                            1int
                        } else {
                            0int
                        })) >= (if is_rep {
                            n_copies as int
                        } else {
                            0int
                        })) by (nonlinear_arith)
                            requires
                                0 <= n_copies as int,
                                0 <= rc_below,
                        ;
                    }
                    x_offset = x_offset - width;
                    proof {
                        subs = subs + width as int;
                        assert((n as int + 1) * (width as int) == (n as int) * (width as int)
                            + width as int) by (nonlinear_arith);
                    }
                    if n > 0 {
                        proof {
                            assert(rc_above + 1 <= run_rc);
                            assert(adds + 1 <= (n_copies as int) * run_rc) by (nonlinear_arith)
                                requires
                                    adds == (n_copies as int) * rc_above + n as int - 1,
                                    n as int <= n_copies as int,
                                    rc_above + 1 <= run_rc,
                                    0 <= n_copies as int,
                                    0 <= rc_above,
                            ;
                            assert((extra_repeat_overlap as int) * (adds + 1)
                                <= (extra_repeat_overlap as int) * ((n_copies as int) * run_rc))
                                by (nonlinear_arith)
                                requires
                                    adds + 1 <= (n_copies as int) * run_rc,
                                    0 <= extra_repeat_overlap as int,
                            ;
                            assert((extra_repeat_overlap as int) * (adds + 1)
                                == (extra_repeat_overlap as int) * adds + (
                            extra_repeat_overlap as int)) by (nonlinear_arith);
                        }
                        x_offset = x_offset + extra_repeat_overlap;
                        proof {
                            adds = adds + 1;
                        }
                    }
                    let ghost j_old = j as int;
                    let ghost pre = *buffer;
                    let moved = GlyphPosition { x_offset: x_offset, ..buffer.pos[k - 1] };
                    buffer.pos.set(k - 1, moved);
                    j = j - 1;
                    let gi = buffer.info[k - 1];
                    let gp = buffer.pos[k - 1];
                    buffer.info.set(j, gi);
                    buffer.pos.set(j, gp);
                    proof {
                        assert forall|t: int|
                            end_run <= t < len && !spec_stch_at(infos, t) implies j <= t
                            + #[trigger] spec_extra(infos, poss, *font, t) && spec_placed(
                            buffer.info@,
                            buffer.pos@,
                            orig,
                            *font,
                            t,
                        ) by {
                            assert(spec_placed(pre.info@, pre.pos@, orig, *font, t));
                            assert(t + spec_extra(infos, poss, *font, t) >= j_old);
                            assert(t + spec_extra(infos, poss, *font, t) != k - 1);
                        }
                        assert forall|t: int, n2: int|
                            end_run <= t < len && spec_stch_at(infos, t) && 0 <= n2 < spec_copies(
                                orig,
                                *font,
                                t,
                            ) implies j <= #[trigger] spec_copy_slot(orig, *font, t, n2)
                            && spec_copy_placed(buffer.info@, buffer.pos@, orig, *font, t, n2) by {
                            assert(spec_copy_placed(pre.info@, pre.pos@, orig, *font, t, n2));
                            assert(spec_copy_slot(orig, *font, t, n2) >= j_old);
                            assert(spec_copy_slot(orig, *font, t, n2) != k - 1);
                        }
                        assert forall|t: int, n2: int|
                            k <= t < end_run && 0 <= n2 < spec_copies(orig, *font, t) implies j
                            <= #[trigger] spec_copy_slot(orig, *font, t, n2) && spec_copy_placed(
                            buffer.info@,
                            buffer.pos@,
                            orig,
                            *font,
                            t,
                            n2,
                        ) by {
                            assert(spec_copy_placed(pre.info@, pre.pos@, orig, *font, t, n2));
                            assert(spec_copy_slot(orig, *font, t, n2) >= j_old);
                            assert(spec_copy_slot(orig, *font, t, n2) != k - 1);
                        }
                        // This emission is copy `n` of the tile at `k - 1`.
                        assert(spec_run_end(infos, k - 1) == end_run);
                        assert(spec_run_ncopies(orig, *font, k - 1) == n_copies as int);
                        assert(spec_run_overlap(orig, *font, k - 1) == extra_repeat_overlap as int);
                        assert(spec_copy_slot(orig, *font, k - 1, n as int) == j as int);
                        assert(spec_copy_offset(orig, *font, k - 1, n as int) == x_offset as int);
                        assert(buffer.pos@[j as int].x_offset == x_offset as int);
                        assert(buffer.info@[j as int] == orig.info@[k - 1]);
                        assert(buffer.pos@[j as int].x_advance == orig.pos@[k - 1].x_advance);
                        assert forall|n2: int|
                            0 <= n2 < n + 1 implies j <= #[trigger] spec_copy_slot(
                            orig,
                            *font,
                            k - 1,
                            n2,
                        ) && spec_copy_placed(buffer.info@, buffer.pos@, orig, *font, k - 1, n2) by {
                            if n2 < n {
                                assert(spec_copy_placed(pre.info@, pre.pos@, orig, *font, k - 1, n2));
                                assert(spec_copy_slot(orig, *font, k - 1, n2) >= j_old);
                                assert(spec_copy_slot(orig, *font, k - 1, n2) != k - 1);
                            }
                        }
                    }
                    n = n + 1;
                }
                proof {
                    lemma_rep_count_split(infos, k as int - 1, k as int, end_run as int);
                    assert(spec_emit_width(infos, *font, k as int - 1, end_run as int, n_copies as int)
                        == spec_adv(*font, infos[k - 1]) * (if infos[k - 1].action
                        == Action::StretchingRepeating {
                        1 + n_copies as int
                    } else {
                        1int
                    }) + spec_emit_width(infos, *font, k as int, end_run as int, n_copies as int));
                    assert((repeat as int) * (width as int) == spec_adv(*font, infos[k - 1]) * (if infos[k
                        - 1].action == Action::StretchingRepeating {
                        1 + n_copies as int
                    } else {
                        1int
                    })) by (nonlinear_arith)
                        requires
                            width as int == spec_adv(*font, infos[k - 1]),
                            repeat as int == (if infos[k - 1].action == Action::StretchingRepeating {
                                1 + n_copies as int
                            } else {
                                1int
                            }),
                    ;
                }
                k = k - 1;
            }
            proof {
                assert(spec_rep_count(infos, start as int, start as int) == 0);
                assert((n_copies as int) * 0 == 0) by (nonlinear_arith);
                assert forall|t: int|
                    start <= t < len && !spec_stch_at(infos, t) implies j <= t
                    + #[trigger] spec_extra(infos, poss, *font, t) && spec_placed(
                    buffer.info@,
                    buffer.pos@,
                    orig,
                    *font,
                    t,
                ) by {
                    assert(end_run <= t);
                }
                assert forall|t: int, n2: int|
                    start <= t < len && spec_stch_at(infos, t) && 0 <= n2 < spec_copies(
                        orig,
                        *font,
                        t,
                    ) implies j <= #[trigger] spec_copy_slot(orig, *font, t, n2)
                    && spec_copy_placed(buffer.info@, buffer.pos@, orig, *font, t, n2) by {}
            }
            i = start;
        }
    }
    proof {
        assert(j == 0);
    }
}

/// Post-processing entry: realize the stretches recorded for this buffer.
pub fn postprocess_glyphs(font: &Font, buffer: &mut Buffer)
    requires
        font.wf(),
        stretch_input_ok(*old(buffer)),
        old(buffer).info@.len() + spec_extra(
            old(buffer).info@,
            old(buffer).pos@,
            *font,
            old(buffer).info@.len() as int,
        ) < 0x8000_0000,
    ensures
        old(buffer).scratch_flags & ARABIC_HAS_STCH == 0 ==> *final(buffer) == *old(buffer),
        final(buffer).info@.len() == old(buffer).info@.len() + (if old(buffer).scratch_flags
            & ARABIC_HAS_STCH == 0 {
            0int
        } else {
            spec_extra(
                old(buffer).info@,
                old(buffer).pos@,
                *font,
                old(buffer).info@.len() as int,
            )
        }),
        final(buffer).pos@.len() == final(buffer).info@.len(),
        forall|k: int|
            0 <= k < old(buffer).info@.len() && !spec_stch_at(old(buffer).info@, k) && old(
                buffer,
            ).scratch_flags & ARABIC_HAS_STCH != 0 ==> #[trigger] spec_placed(
                final(buffer).info@,
                final(buffer).pos@,
                *old(buffer),
                *font,
                k,
            ),
        forall|t: int, n: int|
            0 <= t < old(buffer).info@.len() && spec_stch_at(old(buffer).info@, t) && 0 <= n
                < spec_copies(*old(buffer), *font, t) && old(buffer).scratch_flags
                & ARABIC_HAS_STCH != 0 ==> 0 <= #[trigger] spec_copy_slot(
                *old(buffer),
                *font,
                t,
                n,
            ) && spec_copy_placed(
                final(buffer).info@,
                final(buffer).pos@,
                *old(buffer),
                *font,
                t,
                n,
            ),
        final(buffer).scratch_flags == old(buffer).scratch_flags,
        final(buffer).context_before == old(buffer).context_before,
        final(buffer).context_after == old(buffer).context_after,
        final(buffer).unsafe_ranges@ == old(buffer).unsafe_ranges@ + (if old(
            buffer,
        ).scratch_flags & ARABIC_HAS_STCH == 0 {
            Seq::empty()
        } else {
            spec_break_ranges(old(buffer).info@, old(buffer).info@.len() as int)
        }),
{
    apply_stch(font, buffer)
}

/// End of the maximal stretch run containing position `t` (one past its
/// last stretch-tagged member).
pub open spec fn spec_run_end(infos: Seq<GlyphInfo>, t: int) -> int
    decreases infos.len() - t,
{
    if 0 <= t && t + 1 < infos.len() && spec_stch_at(infos, t + 1) {
        spec_run_end(infos, t + 1)
    } else {
        t + 1
    }
}

/// The additional replications per repeating tile of the run containing
/// `t`, measured as the realizer measures them.
pub open spec fn spec_run_ncopies(b0: Buffer, font: Font, t: int) -> int {
    let e = spec_run_end(b0.info@, t);
    let s = spec_run_start(b0.info@, e);
    let c = spec_ctx_start(b0.info@, s);
    spec_stretch_counts(
        spec_ctx_total(b0.pos@, c, s),
        spec_run_fixed(b0.info@, font, s, e),
        spec_run_rep(b0.info@, font, s, e),
        spec_rep_count(b0.info@, s, e),
    ).0
}

/// How many adjacent copies of the stretch tile at `t` the realizer
/// emits: one for a fixed tile, one plus the run's replication count for
/// a repeating tile.
pub open spec fn spec_copies(b0: Buffer, font: Font, t: int) -> int {
    if b0.info@[t].action == Action::StretchingRepeating {
        1 + spec_run_ncopies(b0, font, t)
    } else {
        1
    }
}

/// Output slot of copy `n` of the stretch tile at `t`: the copies sit
/// adjacently, descending in `n` from the tile's base slot.
pub open spec fn spec_copy_slot(b0: Buffer, font: Font, t: int, n: int) -> int {
    let e = spec_run_end(b0.info@, t);
    let s = spec_run_start(b0.info@, e);
    t + spec_extra(b0.info@, b0.pos@, font, s) + spec_run_ncopies(b0, font, t) * spec_rep_count(
        b0.info@,
        s,
        t + 1,
    ) - n
}

/// Whether the output arrays hold copy `n` of the stretch tile at `t`:
/// its glyph record verbatim, with its advance, at the copy's slot.
pub open spec fn spec_copy_placed(
    info: Seq<GlyphInfo>,
    pos: Seq<GlyphPosition>,
    b0: Buffer,
    font: Font,
    t: int,
    n: int,
) -> bool {
    let slot = spec_copy_slot(b0, font, t, n);
    &&& 0 <= slot < info.len()
    &&& slot < pos.len()
    &&& info[slot] == b0.info@[t]
    &&& pos[slot].x_advance == b0.pos@[t].x_advance
    &&& pos[slot].x_offset == spec_copy_offset(b0, font, t, n)
}

/// Inside a maximal run closed on the right, every member's run end is
/// that right boundary.
proof fn lemma_run_end_of(infos: Seq<GlyphInfo>, start: int, end: int, t: int)
    requires
        0 <= start <= t < end <= infos.len(),
        forall|m: int| start <= m < end ==> spec_stch_at(infos, m),
        end == infos.len() || !spec_stch_at(infos, end),
    ensures
        spec_run_end(infos, t) == end,
    decreases end - t,
{
    if t + 1 < end {
        lemma_run_end_of(infos, start, end, t + 1);
    }
}

/// The scan for a run start stops below a non-stretch record or at zero.
proof fn lemma_run_start_stops(infos: Seq<GlyphInfo>, e: int)
    requires
        0 <= e,
    ensures
        spec_run_start(infos, e) == 0 || !spec_stch_at(infos, spec_run_start(infos, e) - 1),
    decreases e,
{
    if e > 0 && spec_stch_at(infos, e - 1) {
        lemma_run_start_stops(infos, e - 1);
    }
}

/// Total width the realizer emits for the tiles in `[t, e)` of a run with
/// `c` additional copies per repeating tile.
pub open spec fn spec_emit_width(infos: Seq<GlyphInfo>, font: Font, t: int, e: int, c: int) -> int
    decreases e - t,
{
    if t >= e {
        0
    } else {
        spec_adv(font, infos[t]) * (if infos[t].action == Action::StretchingRepeating {
            1 + c
        } else {
            1
        }) + spec_emit_width(infos, font, t + 1, e, c)
    }
}

/// The inward overlap of the run containing `t`, measured as the realizer
/// measures it.
pub open spec fn spec_run_overlap(b0: Buffer, font: Font, t: int) -> int {
    let e = spec_run_end(b0.info@, t);
    let s = spec_run_start(b0.info@, e);
    let c = spec_ctx_start(b0.info@, s);
    spec_stretch_counts(
        spec_ctx_total(b0.pos@, c, s),
        spec_run_fixed(b0.info@, font, s, e),
        spec_run_rep(b0.info@, font, s, e),
        spec_rep_count(b0.info@, s, e),
    ).1
}

/// The x-offset the realizer gives copy `n` of the stretch tile at `t`:
/// the running offset after emitting everything to the tile's right and
/// `n + 1` widths of the tile itself, pushed back in by the overlap once
/// per copy after the first of each repeating tile.
pub open spec fn spec_copy_offset(b0: Buffer, font: Font, t: int, n: int) -> int {
    let e = spec_run_end(b0.info@, t);
    let c = spec_run_ncopies(b0, font, t);
    -spec_emit_width(b0.info@, font, t + 1, e, c) - (n + 1) * spec_adv(font, b0.info@[t])
        + spec_run_overlap(b0, font, t) * (c * spec_rep_count(b0.info@, t + 1, e) + (if b0.info@[t].action
        == Action::StretchingRepeating {
        n
    } else {
        0
    }))
}

} // verus!
