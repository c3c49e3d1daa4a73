use arabic_shaper::action::Action;
use arabic_shaper::buffer::{Buffer, GlyphInfo, GlyphPosition};
use arabic_shaper::joining::{arabic_joining, mongolian_variation_selectors, setup_masks};
use arabic_shaper::plan::{ArabicShapePlan, Script};
use arabic_shaper::unicode::{get_joining_type, GeneralCategory, JoiningTable, JoiningType};

fn glyph(cp: u32, gc: GeneralCategory) -> GlyphInfo {
    GlyphInfo {
        codepoint: cp,
        general_category: gc,
        cluster: 0,
        mask: 0,
        lig_comp: 0,
        multiplied: false,
        default_ignorable: false,
        modified_combining_class: 0,
        action: Action::NoAction,
    }
}

fn buffer_of(glyphs: Vec<GlyphInfo>) -> Buffer {
    let n = glyphs.len();
    let mut pos = Vec::new();
    for _ in 0..n {
        pos.push(GlyphPosition { x_advance: 0, x_offset: 0 });
    }
    Buffer {
        info: glyphs,
        pos,
        context_before: Vec::new(),
        context_after: Vec::new(),
        scratch_flags: 0,
        unsafe_ranges: Vec::new(),
    }
}

fn table() -> JoiningTable {
    JoiningTable {
        ranges: vec![
            (0x0627, 0x0627, JoiningType::R),
            (0x0644, 0x0644, JoiningType::D),
            (0x0710, 0x0710, JoiningType::GroupAlaph),
            (0x0715, 0x0716, JoiningType::GroupDalathRish),
            (0x0720, 0x0720, JoiningType::D),
        ],
    }
}

fn plan() -> ArabicShapePlan {
    ArabicShapePlan { mask_array: [1, 2, 4, 8, 16, 32, 64, 0], has_stch: false }
}

#[test]
fn isolated_alef() {
    let mut buffer = buffer_of(vec![glyph(0x0627, GeneralCategory::OtherLetter)]);
    setup_masks(&plan(), Script::Arabic, &mut buffer, &table());
    assert_eq!(buffer.info[0].action, Action::Isol);
    assert_eq!(buffer.info[0].mask, 1);
}

#[test]
fn lam_alef_ligature_inputs() {
    let mut buffer = buffer_of(vec![
        glyph(0x0644, GeneralCategory::OtherLetter),
        glyph(0x0627, GeneralCategory::OtherLetter),
    ]);
    setup_masks(&plan(), Script::Arabic, &mut buffer, &table());
    assert_eq!(buffer.info[0].action, Action::Init);
    assert_eq!(buffer.info[1].action, Action::Fina);
    assert_eq!(buffer.info[0].mask, 64);
    assert_eq!(buffer.info[1].mask, 2);
    assert!(buffer.unsafe_ranges.contains(&(0, 2)));
}

#[test]
fn alaph_tie_break() {
    // Syriac Alaph, a dual-joining letter, Alaph again: the middle letter is
    // rewritten to Init when the final Alaph joins it, and that Alaph takes
    // the after-joining form of the transition table.
    let mut buffer = buffer_of(vec![
        glyph(0x0710, GeneralCategory::OtherLetter),
        glyph(0x0720, GeneralCategory::OtherLetter),
        glyph(0x0710, GeneralCategory::OtherLetter),
    ]);
    setup_masks(&plan(), Script::Syriac, &mut buffer, &table());
    assert_eq!(buffer.info[0].action, Action::Isol);
    assert_eq!(buffer.info[1].action, Action::Init);
    assert_eq!(buffer.info[2].action, Action::Fina);
}

#[test]
fn alaph_after_dalath_rish_takes_fin3() {
    let mut buffer = buffer_of(vec![
        glyph(0x0715, GeneralCategory::OtherLetter),
        glyph(0x0710, GeneralCategory::OtherLetter),
    ]);
    setup_masks(&plan(), Script::Syriac, &mut buffer, &table());
    assert_eq!(buffer.info[0].action, Action::Isol);
    assert_eq!(buffer.info[1].action, Action::Fin3);
    assert_eq!(buffer.info[1].mask, 8);
}

#[test]
fn transparent_fatha() {
    let mut buffer = buffer_of(vec![
        glyph(0x0644, GeneralCategory::OtherLetter),
        glyph(0x064E, GeneralCategory::NonSpacingMark),
        glyph(0x0627, GeneralCategory::OtherLetter),
    ]);
    setup_masks(&plan(), Script::Arabic, &mut buffer, &table());
    assert_eq!(buffer.info[0].action, Action::Init);
    assert_eq!(buffer.info[1].action, Action::NoAction);
    assert_eq!(buffer.info[2].action, Action::Fina);
    // The mark selects no contextual-form feature.
    assert_eq!(buffer.info[1].mask, 0);
}

#[test]
fn transparent_interleaving_matches_plain_sequence() {
    let mut with_mark = buffer_of(vec![
        glyph(0x0644, GeneralCategory::OtherLetter),
        glyph(0x064E, GeneralCategory::NonSpacingMark),
        glyph(0x0627, GeneralCategory::OtherLetter),
    ]);
    let mut plain = buffer_of(vec![
        glyph(0x0644, GeneralCategory::OtherLetter),
        glyph(0x0627, GeneralCategory::OtherLetter),
    ]);
    arabic_joining(&mut with_mark, &table());
    arabic_joining(&mut plain, &table());
    assert_eq!(with_mark.info[0].action, plain.info[0].action);
    assert_eq!(with_mark.info[2].action, plain.info[1].action);
    assert_eq!(with_mark.info[1].action, Action::NoAction);
}

#[test]
fn every_position_gets_a_join_action() {
    let mut buffer = buffer_of(vec![
        glyph(0x0021, GeneralCategory::OtherPunctuation),
        glyph(0x0644, GeneralCategory::OtherLetter),
        glyph(0x064E, GeneralCategory::NonSpacingMark),
        glyph(0x0627, GeneralCategory::OtherLetter),
        glyph(0x0710, GeneralCategory::OtherLetter),
    ]);
    setup_masks(&plan(), Script::Arabic, &mut buffer, &table());
    for info in &buffer.info {
        let join_action = matches!(
            info.action,
            Action::Isol
                | Action::Fina
                | Action::Fin2
                | Action::Fin3
                | Action::Medi
                | Action::Med2
                | Action::Init
                | Action::NoAction
        );
        assert!(join_action);
    }
}

#[test]
fn unjoining_character_adds_no_mask_bits() {
    let mut buffer = buffer_of(vec![glyph(0x0021, GeneralCategory::OtherPunctuation)]);
    buffer.info[0].mask = 0x100;
    setup_masks(&plan(), Script::Arabic, &mut buffer, &table());
    assert_eq!(buffer.info[0].action, Action::NoAction);
    assert_eq!(buffer.info[0].mask, 0x100);
}

#[test]
fn setup_masks_twice_gives_identical_actions() {
    let glyphs = vec![
        glyph(0x0644, GeneralCategory::OtherLetter),
        glyph(0x064E, GeneralCategory::NonSpacingMark),
        glyph(0x0627, GeneralCategory::OtherLetter),
        glyph(0x0710, GeneralCategory::OtherLetter),
    ];
    let mut buffer = buffer_of(glyphs);
    setup_masks(&plan(), Script::Arabic, &mut buffer, &table());
    let first: Vec<Action> = buffer.info.iter().map(|g| g.action).collect();
    for info in &mut buffer.info {
        info.mask = 0;
    }
    setup_masks(&plan(), Script::Arabic, &mut buffer, &table());
    let second: Vec<Action> = buffer.info.iter().map(|g| g.action).collect();
    assert_eq!(first, second);
}

#[test]
fn pre_context_steers_initial_state() {
    // A dual-joining letter just before the buffer makes a leading alef
    // final instead of isolated.
    let mut buffer = buffer_of(vec![glyph(0x0627, GeneralCategory::OtherLetter)]);
    buffer.context_before = vec![(0x0644, GeneralCategory::OtherLetter)];
    arabic_joining(&mut buffer, &table());
    assert_eq!(buffer.info[0].action, Action::Fina);
}

#[test]
fn post_context_rewrites_last_action() {
    // A dual-joining letter just after the buffer turns a trailing lam into
    // an initial form.
    let mut buffer = buffer_of(vec![glyph(0x0644, GeneralCategory::OtherLetter)]);
    buffer.context_after = vec![(0x0627, GeneralCategory::OtherLetter)];
    arabic_joining(&mut buffer, &table());
    assert_eq!(buffer.info[0].action, Action::Init);
}

#[test]
fn empty_buffer_is_fine() {
    let mut buffer = buffer_of(Vec::new());
    setup_masks(&plan(), Script::Arabic, &mut buffer, &table());
    assert_eq!(buffer.info.len(), 0);
}

#[test]
fn mongolian_selector_copies_base_action() {
    let mut buffer = buffer_of(vec![
        glyph(0x1820, GeneralCategory::OtherLetter),
        glyph(0x180B, GeneralCategory::NonSpacingMark),
    ]);
    buffer.info[0].action = Action::Init;
    buffer.info[1].action = Action::NoAction;
    mongolian_variation_selectors(&mut buffer);
    assert_eq!(buffer.info[1].action, Action::Init);
}

#[test]
fn joining_type_resolution() {
    let t = table();
    assert_eq!(
        get_joining_type(0x0627, GeneralCategory::OtherLetter, &t),
        JoiningType::R
    );
    // Unlisted codepoints resolve by general category: marks and format
    // characters are transparent, everything else does not join.
    assert_eq!(
        get_joining_type(0x064E, GeneralCategory::NonSpacingMark, &t),
        JoiningType::T
    );
    assert_eq!(
        get_joining_type(0x200D, GeneralCategory::Format, &t),
        JoiningType::T
    );
    assert_eq!(
        get_joining_type(0x0021, GeneralCategory::OtherPunctuation, &t),
        JoiningType::U
    );
}
