use arabic_shaper::plan::{
    collect_features, data_create, feature_is_syriac, ArabicShapePlan, FeatureMap, FeaturePlanner,
    PauseCallback, PlanOp, Script, CONTEXTUAL_ALTERNATES, FLAG_HAS_FALLBACK, FLAG_MANUAL_ZWJ,
    FLAG_NONE, GLYPH_COMPOSITION_DECOMPOSITION, INITIAL_FORMS, ISOLATED_FORMS, LOCALIZED_FORMS,
    MARK_POSITIONING_VIA_SUBSTITUTION, MEDIAL_FORMS_1, MEDIAL_FORMS_2,
    REQUIRED_CONTEXTUAL_ALTERNATES, REQUIRED_LIGATURES, STRETCHING_GLYPH_DECOMPOSITION,
    TERMINAL_FORMS_1, TERMINAL_FORMS_2, TERMINAL_FORMS_3,
};

#[test]
fn syriac_feature_tags() {
    assert!(feature_is_syriac(TERMINAL_FORMS_2));
    assert!(feature_is_syriac(TERMINAL_FORMS_3));
    assert!(feature_is_syriac(MEDIAL_FORMS_2));
    assert!(!feature_is_syriac(ISOLATED_FORMS));
    assert!(!feature_is_syriac(TERMINAL_FORMS_1));
    assert!(!feature_is_syriac(MEDIAL_FORMS_1));
    assert!(!feature_is_syriac(INITIAL_FORMS));
}

#[test]
fn collected_features_for_arabic() {
    let mut planner = FeaturePlanner { script: Script::Arabic, ops: Vec::new() };
    collect_features(&mut planner);
    let ops = &planner.ops;

    assert_eq!(
        ops[0],
        PlanOp::EnableFeature(STRETCHING_GLYPH_DECOMPOSITION, FLAG_NONE, 1)
    );
    assert_eq!(ops[1], PlanOp::GsubPause(PauseCallback::RecordStch));
    assert_eq!(
        ops[2],
        PlanOp::EnableFeature(GLYPH_COMPOSITION_DECOMPOSITION, FLAG_NONE, 1)
    );
    assert_eq!(ops[3], PlanOp::EnableFeature(LOCALIZED_FORMS, FLAG_NONE, 1));
    assert_eq!(ops[4], PlanOp::GsubPause(PauseCallback::NoCallback));

    // The seven contextual forms in plan order, each with its pause; the
    // Arabic (non-Syriac) forms carry the fallback flag.
    let forms = [
        (ISOLATED_FORMS, FLAG_HAS_FALLBACK),
        (TERMINAL_FORMS_2, FLAG_NONE),
        (TERMINAL_FORMS_3, FLAG_NONE),
        (TERMINAL_FORMS_1, FLAG_HAS_FALLBACK),
        (MEDIAL_FORMS_1, FLAG_HAS_FALLBACK),
        (MEDIAL_FORMS_2, FLAG_NONE),
        (INITIAL_FORMS, FLAG_HAS_FALLBACK),
    ];
    for (f, (tag, flags)) in forms.iter().enumerate() {
        assert_eq!(ops[5 + 2 * f], PlanOp::AddFeature(*tag, *flags, 1));
        assert_eq!(ops[6 + 2 * f], PlanOp::GsubPause(PauseCallback::NoCallback));
    }

    assert_eq!(
        ops[19],
        PlanOp::EnableFeature(REQUIRED_LIGATURES, FLAG_MANUAL_ZWJ | FLAG_HAS_FALLBACK, 1)
    );
    // Arabic keeps a compatibility pause before the contextual alternates.
    assert_eq!(ops[20], PlanOp::GsubPause(PauseCallback::FallbackShape));
    assert_eq!(
        ops[21],
        PlanOp::EnableFeature(REQUIRED_CONTEXTUAL_ALTERNATES, FLAG_MANUAL_ZWJ, 1)
    );
    assert_eq!(
        ops[22],
        PlanOp::EnableFeature(CONTEXTUAL_ALTERNATES, FLAG_MANUAL_ZWJ, 1)
    );
    assert_eq!(ops[23], PlanOp::GsubPause(PauseCallback::NoCallback));
    assert_eq!(
        ops[24],
        PlanOp::EnableFeature(MARK_POSITIONING_VIA_SUBSTITUTION, FLAG_NONE, 1)
    );
    assert_eq!(ops.len(), 25);
}

#[test]
fn collected_features_for_syriac() {
    let mut planner = FeaturePlanner { script: Script::Syriac, ops: Vec::new() };
    collect_features(&mut planner);
    // No fallback flags outside Arabic, and no compatibility pause.
    assert_eq!(planner.ops[5], PlanOp::AddFeature(ISOLATED_FORMS, FLAG_NONE, 1));
    assert_eq!(
        planner.ops[20],
        PlanOp::EnableFeature(REQUIRED_CONTEXTUAL_ALTERNATES, FLAG_MANUAL_ZWJ, 1)
    );
    assert_eq!(planner.ops.len(), 24);
}

#[test]
fn data_create_reads_masks_by_action() {
    let map = FeatureMap {
        entries: vec![
            (ISOLATED_FORMS, 0x01),
            (TERMINAL_FORMS_1, 0x02),
            (TERMINAL_FORMS_2, 0x04),
            (TERMINAL_FORMS_3, 0x08),
            (MEDIAL_FORMS_1, 0x10),
            (MEDIAL_FORMS_2, 0x20),
            (INITIAL_FORMS, 0x40),
            (STRETCHING_GLYPH_DECOMPOSITION, 0x80),
        ],
    };
    let plan: ArabicShapePlan = data_create(&map);
    assert_eq!(plan.mask_array, [0x01, 0x02, 0x04, 0x08, 0x10, 0x20, 0x40, 0]);
    assert!(plan.has_stch);
}

#[test]
fn data_create_without_stch() {
    let map = FeatureMap { entries: vec![(ISOLATED_FORMS, 0x01)] };
    let plan = data_create(&map);
    assert_eq!(plan.mask_array[0], 0x01);
    // Features the map does not know resolve to the zero mask, and the
    // entry backing `NoAction` is always zero.
    assert_eq!(plan.mask_array[1], 0);
    assert_eq!(plan.mask_array[7], 0);
    assert!(!plan.has_stch);
}
