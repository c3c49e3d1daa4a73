use arabic_shaper::action::Action;
use arabic_shaper::buffer::{Buffer, GlyphInfo, GlyphPosition, ARABIC_HAS_STCH};
use arabic_shaper::plan::ArabicShapePlan;
use arabic_shaper::stretch::{
    apply_stch, is_word_category, postprocess_glyphs, record_stch, stretch_counts, Font,
};
use arabic_shaper::unicode::GeneralCategory;

fn glyph(cp: u32, gc: GeneralCategory, action: Action) -> GlyphInfo {
    GlyphInfo {
        codepoint: cp,
        general_category: gc,
        cluster: 0,
        mask: 0,
        lig_comp: 0,
        multiplied: false,
        default_ignorable: false,
        modified_combining_class: 0,
        action,
    }
}

#[test]
fn stretch_counts_fill() {
    // Context of total advance 1000, one fixed tile of width 200, one
    // repeating tile of width 150: four extra copies by division, a fifth
    // from the shortfall, and an overlap of 20 to absorb the excess.
    let (n_copies, overlap) = stretch_counts(1000, 200, 150, 1);
    assert_eq!(n_copies, 5);
    assert_eq!(overlap, 20);
}

#[test]
fn stretch_counts_with_large_advances() {
    // Advances above 16 bits are accepted: a 70000-unit repeating tile
    // filling 300000 units gets three copies by division, a fourth from
    // the shortfall, and an overlap of 12500.
    let (n_copies, overlap) = stretch_counts(300000, 0, 70000, 1);
    assert_eq!(n_copies, 4);
    assert_eq!(overlap, 12500);
}

#[test]
fn stretch_counts_zero_repeating_width() {
    // A repeating width of zero never divides; the shortfall path adds one
    // copy and the excess stays non-positive.
    let (n_copies, overlap) = stretch_counts(100, 0, 0, 2);
    assert_eq!(n_copies, 1);
    assert_eq!(overlap, 0);
}

#[test]
fn stretch_counts_fixed_wider_than_total() {
    let (n_copies, overlap) = stretch_counts(100, 400, 0, 0);
    assert_eq!(n_copies, 0);
    assert_eq!(overlap, 0);
}

#[test]
fn stretch_fill() {
    let mut info = vec![
        glyph(0x0640, GeneralCategory::OtherLetter, Action::NoAction),
        glyph(0x1001, GeneralCategory::OtherLetter, Action::StretchingFixed),
        glyph(0x1002, GeneralCategory::OtherLetter, Action::StretchingRepeating),
    ];
    info[1].multiplied = true;
    info[2].multiplied = true;
    let pos = vec![
        GlyphPosition { x_advance: 1000, x_offset: 0 },
        GlyphPosition { x_advance: 200, x_offset: 0 },
        GlyphPosition { x_advance: 150, x_offset: 0 },
    ];
    let mut buffer = Buffer {
        info,
        pos,
        context_before: Vec::new(),
        context_after: Vec::new(),
        scratch_flags: ARABIC_HAS_STCH,
        unsafe_ranges: Vec::new(),
    };
    let font = Font { entries: vec![(0x1001, 200), (0x1002, 150)], default_advance: 0 };

    apply_stch(&font, &mut buffer);

    assert_eq!(buffer.info.len(), 8);
    assert_eq!(buffer.pos.len(), 8);
    assert_eq!(buffer.info[0].codepoint, 0x0640);
    assert_eq!(buffer.info[1].codepoint, 0x1001);
    for k in 2..8 {
        assert_eq!(buffer.info[k].codepoint, 0x1002);
    }
    assert_eq!(buffer.pos[1].x_offset, -1000);
    assert_eq!(buffer.pos[2].x_offset, -800);
    assert_eq!(buffer.pos[3].x_offset, -670);
    assert_eq!(buffer.pos[4].x_offset, -540);
    assert_eq!(buffer.pos[5].x_offset, -410);
    assert_eq!(buffer.pos[6].x_offset, -280);
    assert_eq!(buffer.pos[7].x_offset, -150);
    assert!(buffer.unsafe_ranges.contains(&(0, 3)));
}

#[test]
fn apply_stch_without_flag_is_untouched() {
    let mut buffer = Buffer {
        info: vec![glyph(0x1002, GeneralCategory::OtherLetter, Action::StretchingRepeating)],
        pos: vec![GlyphPosition { x_advance: 100, x_offset: 0 }],
        context_before: Vec::new(),
        context_after: Vec::new(),
        scratch_flags: 0,
        unsafe_ranges: Vec::new(),
    };
    let font = Font { entries: Vec::new(), default_advance: 100 };
    postprocess_glyphs(&font, &mut buffer);
    assert_eq!(buffer.info.len(), 1);
    assert_eq!(buffer.pos[0].x_offset, 0);
}

#[test]
fn record_stch_tags_multiplied_pieces() {
    let mut even = glyph(0x1001, GeneralCategory::OtherLetter, Action::Fina);
    even.multiplied = true;
    even.lig_comp = 2;
    let mut odd = glyph(0x1002, GeneralCategory::OtherLetter, Action::Fina);
    odd.multiplied = true;
    odd.lig_comp = 3;
    let plain = glyph(0x1003, GeneralCategory::OtherLetter, Action::Isol);
    let mut buffer = Buffer {
        info: vec![even, odd, plain],
        pos: vec![
            GlyphPosition { x_advance: 0, x_offset: 0 },
            GlyphPosition { x_advance: 0, x_offset: 0 },
            GlyphPosition { x_advance: 0, x_offset: 0 },
        ],
        context_before: Vec::new(),
        context_after: Vec::new(),
        scratch_flags: 0,
        unsafe_ranges: Vec::new(),
    };
    let plan = ArabicShapePlan { mask_array: [0; 8], has_stch: true };
    record_stch(&plan, &mut buffer);
    assert_eq!(buffer.info[0].action, Action::StretchingFixed);
    assert_eq!(buffer.info[1].action, Action::StretchingRepeating);
    assert_eq!(buffer.info[2].action, Action::Isol);
    assert_eq!(buffer.scratch_flags & ARABIC_HAS_STCH, ARABIC_HAS_STCH);
}

#[test]
fn record_stch_without_stch_feature_does_nothing() {
    let mut piece = glyph(0x1001, GeneralCategory::OtherLetter, Action::Fina);
    piece.multiplied = true;
    let mut buffer = Buffer {
        info: vec![piece],
        pos: vec![GlyphPosition { x_advance: 0, x_offset: 0 }],
        context_before: Vec::new(),
        context_after: Vec::new(),
        scratch_flags: 0,
        unsafe_ranges: Vec::new(),
    };
    let plan = ArabicShapePlan { mask_array: [0; 8], has_stch: false };
    record_stch(&plan, &mut buffer);
    assert_eq!(buffer.info[0].action, Action::Fina);
    assert_eq!(buffer.scratch_flags, 0);
}

#[test]
fn word_categories() {
    assert!(is_word_category(GeneralCategory::OtherLetter));
    assert!(is_word_category(GeneralCategory::NonSpacingMark));
    assert!(is_word_category(GeneralCategory::MathSymbol));
    assert!(is_word_category(GeneralCategory::Unassigned));
    assert!(!is_word_category(GeneralCategory::OtherPunctuation));
    assert!(!is_word_category(GeneralCategory::SpaceSeparator));
    assert!(!is_word_category(GeneralCategory::UppercaseLetter));
}

#[test]
fn font_advance_lookup() {
    let font = Font { entries: vec![(7, 120), (9, 80)], default_advance: 55 };
    assert_eq!(font.glyph_h_advance(7), 120);
    assert_eq!(font.glyph_h_advance(9), 80);
    assert_eq!(font.glyph_h_advance(1000), 55);
}
