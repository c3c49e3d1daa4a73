//! The feature plan: the ordered OpenType feature declarations handed to
//! the outer shaper, and the per-plan mask data read back from it.

use vstd::prelude::*;

verus! {

broadcast use vstd::group_vstd_default;

/// An OpenType feature tag, packed big-endian into four bytes.
pub type Tag = u32;

/// `stch`, stretching glyph decomposition.
pub const STRETCHING_GLYPH_DECOMPOSITION: Tag = 0x73746368;

/// `ccmp`, glyph composition/decomposition.
pub const GLYPH_COMPOSITION_DECOMPOSITION: Tag = 0x63636D70;

/// `locl`, localized forms.
pub const LOCALIZED_FORMS: Tag = 0x6C6F636C;

/// `isol`, isolated forms.
pub const ISOLATED_FORMS: Tag = 0x69736F6C;

/// `fina`, terminal forms.
pub const TERMINAL_FORMS_1: Tag = 0x66696E61;

/// `fin2`, Syriac terminal forms after Alaph.
pub const TERMINAL_FORMS_2: Tag = 0x66696E32;

/// `fin3`, Syriac terminal forms after Dalath/Rish.
pub const TERMINAL_FORMS_3: Tag = 0x66696E33;

/// `medi`, medial forms.
pub const MEDIAL_FORMS_1: Tag = 0x6D656469;

/// `med2`, Syriac medial forms after Alaph.
pub const MEDIAL_FORMS_2: Tag = 0x6D656432;

/// `init`, initial forms.
pub const INITIAL_FORMS: Tag = 0x696E6974;

/// `rlig`, required ligatures.
pub const REQUIRED_LIGATURES: Tag = 0x726C6967;

/// `rclt`, required contextual alternates.
pub const REQUIRED_CONTEXTUAL_ALTERNATES: Tag = 0x72636C74;

/// `calt`, contextual alternates.
pub const CONTEXTUAL_ALTERNATES: Tag = 0x63616C74;

/// `mset`, mark positioning via substitution.
pub const MARK_POSITIONING_VIA_SUBSTITUTION: Tag = 0x6D736574;

/// No feature flags.
pub const FLAG_NONE: u32 = 0;

/// The feature has a non-OpenType fallback the shaper may synthesize.
pub const FLAG_HAS_FALLBACK: u32 = 1;

/// Zero-width joiners are handled by this shaper, not the generic path.
pub const FLAG_MANUAL_ZWJ: u32 = 2;

/// Whether the tag names one of the Syriac-only contextual forms: its
/// fourth byte is an ASCII `2` or `3`.
pub open spec fn spec_feature_is_syriac(tag: Tag) -> bool {
    tag % 256 == 50 || tag % 256 == 51
}

/// Whether the tag names one of the Syriac-only contextual forms.
pub fn feature_is_syriac(tag: Tag) -> (r: bool)
    ensures
        r == spec_feature_is_syriac(tag),
{
    let b3 = tag % 256;
    b3 == 50 || b3 == 51
}

/// Script of the text run being shaped, as far as this shaper cares.
#[derive(Clone, Copy, PartialEq, Eq, Structural, Debug)]
pub enum Script {
    Arabic,
    Syriac,
    Mongolian,
    Other,
}

/// Callback slot attached to a substitution pause.
#[derive(Clone, Copy, PartialEq, Eq, Structural, Debug)]
pub enum PauseCallback {
    /// Tag multiplied stretch pieces right after `stch` applies.
    RecordStch,
    /// No-op slot kept for historical ordering compatibility.
    FallbackShape,
    /// A bare pause.
    NoCallback,
}

/// One declaration handed to the outer shaper's feature map.
#[derive(Clone, Copy, PartialEq, Eq, Structural, Debug)]
pub enum PlanOp {
    /// Enable a feature globally: tag, flags, value.
    EnableFeature(Tag, u32, u32),
    /// Add a feature that the mask applier arms per glyph: tag, flags, value.
    AddFeature(Tag, u32, u32),
    /// Insert a substitution pause with its callback slot.
    GsubPause(PauseCallback),
}

/// The outer shaper's feature planner, seen as the ordered list of
/// declarations made against it.
pub struct FeaturePlanner {
    /// Script of the run this plan is built for.
    pub script: Script,
    /// Declarations recorded so far, in order.
    pub ops: Vec<PlanOp>,
}

impl FeaturePlanner {
    /// Record a global feature enable.
    pub fn enable_feature(&mut self, tag: Tag, flags: u32, value: u32)
        ensures
            final(self).ops@ == old(self).ops@.push(PlanOp::EnableFeature(tag, flags, value)),
            final(self).script == old(self).script,
    {
        self.ops.push(PlanOp::EnableFeature(tag, flags, value));
    }

    /// Record a per-glyph feature addition.
    pub fn add_feature(&mut self, tag: Tag, flags: u32, value: u32)
        ensures
            final(self).ops@ == old(self).ops@.push(PlanOp::AddFeature(tag, flags, value)),
            final(self).script == old(self).script,
    {
        self.ops.push(PlanOp::AddFeature(tag, flags, value));
    }

    /// Record a substitution pause.
    pub fn add_gsub_pause(&mut self, callback: PauseCallback)
        ensures
            final(self).ops@ == old(self).ops@.push(PlanOp::GsubPause(callback)),
            final(self).script == old(self).script,
    {
        self.ops.push(PlanOp::GsubPause(callback));
    }
}

/// Flags for one of the seven contextual-form features: Arabic (not Syriac)
/// forms get a fallback, the Syriac-only tags do not.
pub open spec fn spec_form_flags(script: Script, tag: Tag) -> u32 {
    if script == Script::Arabic && !spec_feature_is_syriac(tag) {
        FLAG_HAS_FALLBACK
    } else {
        FLAG_NONE
    }
}

/// The complete sequence of declarations this shaper makes for a run of
/// the given script, in order.
pub open spec fn spec_collected_ops(script: Script) -> Seq<PlanOp> {
    seq![
        PlanOp::EnableFeature(STRETCHING_GLYPH_DECOMPOSITION, FLAG_NONE, 1),
        PlanOp::GsubPause(PauseCallback::RecordStch),
        PlanOp::EnableFeature(GLYPH_COMPOSITION_DECOMPOSITION, FLAG_NONE, 1),
        PlanOp::EnableFeature(LOCALIZED_FORMS, FLAG_NONE, 1),
        PlanOp::GsubPause(PauseCallback::NoCallback),
        PlanOp::AddFeature(ISOLATED_FORMS, spec_form_flags(script, ISOLATED_FORMS), 1),
        PlanOp::GsubPause(PauseCallback::NoCallback),
        PlanOp::AddFeature(TERMINAL_FORMS_2, spec_form_flags(script, TERMINAL_FORMS_2), 1),
        PlanOp::GsubPause(PauseCallback::NoCallback),
        PlanOp::AddFeature(TERMINAL_FORMS_3, spec_form_flags(script, TERMINAL_FORMS_3), 1),
        PlanOp::GsubPause(PauseCallback::NoCallback),
        PlanOp::AddFeature(TERMINAL_FORMS_1, spec_form_flags(script, TERMINAL_FORMS_1), 1),
        PlanOp::GsubPause(PauseCallback::NoCallback),
        PlanOp::AddFeature(MEDIAL_FORMS_1, spec_form_flags(script, MEDIAL_FORMS_1), 1),
        PlanOp::GsubPause(PauseCallback::NoCallback),
        PlanOp::AddFeature(MEDIAL_FORMS_2, spec_form_flags(script, MEDIAL_FORMS_2), 1),
        PlanOp::GsubPause(PauseCallback::NoCallback),
        PlanOp::AddFeature(INITIAL_FORMS, spec_form_flags(script, INITIAL_FORMS), 1),
        PlanOp::GsubPause(PauseCallback::NoCallback),
        PlanOp::EnableFeature(REQUIRED_LIGATURES, FLAG_MANUAL_ZWJ | FLAG_HAS_FALLBACK, 1),
    ] + (if script == Script::Arabic {
        seq![PlanOp::GsubPause(PauseCallback::FallbackShape)]
    } else {
        Seq::empty()
    }) + seq![
        PlanOp::EnableFeature(REQUIRED_CONTEXTUAL_ALTERNATES, FLAG_MANUAL_ZWJ, 1),
        PlanOp::EnableFeature(CONTEXTUAL_ALTERNATES, FLAG_MANUAL_ZWJ, 1),
        PlanOp::GsubPause(PauseCallback::NoCallback),
        PlanOp::EnableFeature(MARK_POSITIONING_VIA_SUBSTITUTION, FLAG_NONE, 1),
    ]
}

/// Declare, in order, every feature and pause this shaper needs: `stch`
/// first with the recording pause, then `ccmp` and `locl`, the seven
/// contextual forms each followed by a pause, `rlig` with manual-ZWJ
/// handling, an Arabic-only compatibility pause, `rclt` and `calt`, and
/// finally `mset`.
pub fn collect_features(planner: &mut FeaturePlanner)
    ensures
        final(planner).ops@ == old(planner).ops@ + spec_collected_ops(old(planner).script),
        final(planner).script == old(planner).script,
{
    planner.enable_feature(STRETCHING_GLYPH_DECOMPOSITION, FLAG_NONE, 1);
    planner.add_gsub_pause(PauseCallback::RecordStch);

    planner.enable_feature(GLYPH_COMPOSITION_DECOMPOSITION, FLAG_NONE, 1);
    planner.enable_feature(LOCALIZED_FORMS, FLAG_NONE, 1);

    planner.add_gsub_pause(PauseCallback::NoCallback);

    let is_arabic = match planner.script {
        Script::Arabic => true,
        _ => false,
    };

    let mut f: usize = 0;
    while f < 7
        invariant
            f <= 7,
            is_arabic == (planner.script == Script::Arabic),
            planner.script == old(planner).script,
            planner.ops@.len() == old(planner).ops@.len() + 5 + 2 * f,
            forall|k: int|
                0 <= k < old(planner).ops@.len() + 5 + 2 * f ==> #[trigger] planner.ops@[k] == (
                old(planner).ops@ + spec_collected_ops(old(planner).script))[k],
        decreases 7 - f,
    {
        let tag = arabic_feature(f);
        let syriac = feature_is_syriac(tag);
        let flags = if is_arabic && !syriac {
            FLAG_HAS_FALLBACK
        } else {
            FLAG_NONE
        };
        planner.add_feature(tag, flags, 1);
        planner.add_gsub_pause(PauseCallback::NoCallback);
        f = f + 1;
    }

    planner.enable_feature(REQUIRED_LIGATURES, FLAG_MANUAL_ZWJ | FLAG_HAS_FALLBACK, 1);

    if is_arabic {
        planner.add_gsub_pause(PauseCallback::FallbackShape);
    }

    planner.enable_feature(REQUIRED_CONTEXTUAL_ALTERNATES, FLAG_MANUAL_ZWJ, 1);
    planner.enable_feature(CONTEXTUAL_ALTERNATES, FLAG_MANUAL_ZWJ, 1);
    planner.add_gsub_pause(PauseCallback::NoCallback);

    planner.enable_feature(MARK_POSITIONING_VIA_SUBSTITUTION, FLAG_NONE, 1);

    proof {
        assert(final(planner).ops@ =~= old(planner).ops@ + spec_collected_ops(
            old(planner).script,
        ));
    }
}

/// The contextual-form feature at position `i` of the plan's fixed order.
pub open spec fn spec_arabic_feature(i: int) -> Tag {
    if i == 0 {
        ISOLATED_FORMS
    } else if i == 1 {
        TERMINAL_FORMS_2
    } else if i == 2 {
        TERMINAL_FORMS_3
    } else if i == 3 {
        TERMINAL_FORMS_1
    } else if i == 4 {
        MEDIAL_FORMS_1
    } else if i == 5 {
        MEDIAL_FORMS_2
    } else {
        INITIAL_FORMS
    }
}

/// The contextual-form feature at position `i` of the plan's fixed order.
pub fn arabic_feature(i: usize) -> (r: Tag)
    requires
        i < 7,
    ensures
        r == spec_arabic_feature(i as int),
{
    if i == 0 {
        ISOLATED_FORMS
    } else if i == 1 {
        TERMINAL_FORMS_2
    } else if i == 2 {
        TERMINAL_FORMS_3
    } else if i == 3 {
        TERMINAL_FORMS_1
    } else if i == 4 {
        MEDIAL_FORMS_1
    } else if i == 5 {
        MEDIAL_FORMS_2
    } else {
        INITIAL_FORMS
    }
}

/// The outer feature map after planning: each tag's aggregated mask. A tag
/// not present resolves to the zero mask.
pub struct FeatureMap {
    /// Tag and mask pairs, first match wins.
    pub entries: Vec<(Tag, u32)>,
}

impl FeatureMap {
    /// Mask of `tag` scanning from entry `k`: first match, or zero.
    pub open spec fn spec_mask_from(self, tag: Tag, k: int) -> u32
        decreases self.entries@.len() - k,
    {
        if k < 0 || k >= self.entries@.len() {
            0u32
        } else if self.entries@[k].0 == tag {
            self.entries@[k].1
        } else {
            self.spec_mask_from(tag, k + 1)
        }
    }

    /// Aggregated mask of `tag`, or zero if the map does not know it.
    pub open spec fn spec_mask(self, tag: Tag) -> u32 {
        self.spec_mask_from(tag, 0)
    }

    /// Look up the aggregated mask of a single feature.
    pub fn get_1_mask(&self, tag: Tag) -> (r: u32)
        ensures
            r == self.spec_mask(tag),
    {
        let n = self.entries.len();
        for k in 0..n
            invariant
                n == self.entries@.len(),
                self.spec_mask(tag) == self.spec_mask_from(tag, k as int),
        {
            let (t, m) = self.entries[k];
            if t == tag {
                return m;
            }
        }
        0
    }
}

/// Per-plan data of this shaper: the mask to arm for each join action, and
/// whether the stretch feature is active. The entry at the `NoAction` index
/// is zero by construction, so a glyph with no contextual form receives no
/// feature bits.
pub struct ArabicShapePlan {
    /// Feature-selection mask per join action index; entry 7 is zero.
    pub mask_array: [u32; 8],
    /// True iff `stch` resolved to a non-zero mask.
    pub has_stch: bool,
}

impl ArabicShapePlan {
    /// The plan's invariant: the `NoAction` entry selects nothing.
    pub open spec fn wf(self) -> bool {
        self.mask_array@[7] == 0
    }
}

/// The contextual-form feature whose mask lives at action index `j` of the
/// plan's mask array.
pub open spec fn spec_action_feature(j: int) -> Tag {
    if j == 0 {
        ISOLATED_FORMS
    } else if j == 1 {
        TERMINAL_FORMS_1
    } else if j == 2 {
        TERMINAL_FORMS_2
    } else if j == 3 {
        TERMINAL_FORMS_3
    } else if j == 4 {
        MEDIAL_FORMS_1
    } else if j == 5 {
        MEDIAL_FORMS_2
    } else {
        INITIAL_FORMS
    }
}

/// Build the per-plan data by reading each contextual-form feature's mask
/// back from the outer map, stored at that form's action index.
pub fn data_create(map: &FeatureMap) -> (r: ArabicShapePlan)
    ensures
        r.wf(),
        r.has_stch == (map.spec_mask(STRETCHING_GLYPH_DECOMPOSITION) != 0),
        forall|j: int| 0 <= j < 7 ==> #[trigger] r.mask_array@[j] == map.spec_mask(
            spec_action_feature(j),
        ),
{
    let m0 = map.get_1_mask(ISOLATED_FORMS);
    let m1 = map.get_1_mask(TERMINAL_FORMS_1);
    let m2 = map.get_1_mask(TERMINAL_FORMS_2);
    let m3 = map.get_1_mask(TERMINAL_FORMS_3);
    let m4 = map.get_1_mask(MEDIAL_FORMS_1);
    let m5 = map.get_1_mask(MEDIAL_FORMS_2);
    let m6 = map.get_1_mask(INITIAL_FORMS);
    let has_stch = map.get_1_mask(STRETCHING_GLYPH_DECOMPOSITION) != 0;
    ArabicShapePlan { mask_array: [m0, m1, m2, m3, m4, m5, m6, 0], has_stch }
}

} // verus!
