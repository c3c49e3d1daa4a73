use arabic_shaper::action::Action;
use arabic_shaper::buffer::{Buffer, GlyphInfo, GlyphPosition};
use arabic_shaper::reorder::reorder_marks;
use arabic_shaper::unicode::{is_modifier_combining_mark, GeneralCategory};

fn mark(cp: u32, ccc: u8, cluster: u32) -> GlyphInfo {
    GlyphInfo {
        codepoint: cp,
        general_category: GeneralCategory::NonSpacingMark,
        cluster,
        mask: 0,
        lig_comp: 0,
        multiplied: false,
        default_ignorable: false,
        modified_combining_class: ccc,
        action: Action::NoAction,
    }
}

fn buffer_of(glyphs: Vec<GlyphInfo>) -> Buffer {
    let n = glyphs.len();
    let mut pos = Vec::new();
    for _ in 0..n {
        pos.push(GlyphPosition { x_advance: 0, x_offset: 0 });
    }
    Buffer {
        info: glyphs,
        pos,
        context_before: Vec::new(),
        context_after: Vec::new(),
        scratch_flags: 0,
        unsafe_ranges: Vec::new(),
    }
}

#[test]
fn tr53_reorder() {
    // BASE, superscript alef (class 35), hamza above (class 230): the hamza
    // moves in front of the superscript alef and is renumbered to 26.
    let mut buffer = buffer_of(vec![
        mark(0x0628, 0, 0),
        mark(0x0670, 35, 1),
        mark(0x0654, 230, 2),
    ]);
    reorder_marks(1, 3, &mut buffer);
    assert_eq!(buffer.info[0].codepoint, 0x0628);
    assert_eq!(buffer.info[1].codepoint, 0x0654);
    assert_eq!(buffer.info[1].modified_combining_class, 26);
    assert_eq!(buffer.info[2].codepoint, 0x0670);
    assert_eq!(buffer.info[2].modified_combining_class, 35);
    // Moving a mark merges the clusters it crossed.
    assert_eq!(buffer.info[1].cluster, buffer.info[2].cluster);
}

#[test]
fn reorder_keeps_codepoint_multiset_and_order() {
    let mut buffer = buffer_of(vec![
        mark(0x0655, 220, 0),
        mark(0x0670, 35, 1),
        mark(0x0654, 230, 2),
    ]);
    // The range starts below class 220 marks, so both target classes act.
    reorder_marks(0, 3, &mut buffer);
    let mut codepoints: Vec<u32> = buffer.info.iter().map(|g| g.codepoint).collect();
    codepoints.sort();
    assert_eq!(codepoints, vec![0x0654, 0x0655, 0x0670]);
    // Classes stay non-decreasing after renumbering.
    for k in 1..3 {
        assert!(
            buffer.info[k - 1].modified_combining_class
                <= buffer.info[k].modified_combining_class
        );
    }
}

#[test]
fn reorder_is_idempotent_after_folding() {
    let mut buffer = buffer_of(vec![
        mark(0x0628, 30, 0),
        mark(0x0654, 230, 1),
        mark(0x0670, 35, 2),
    ]);
    reorder_marks(0, 3, &mut buffer);
    let after_first: Vec<(u32, u8)> = buffer
        .info
        .iter()
        .map(|g| (g.codepoint, g.modified_combining_class))
        .collect();
    reorder_marks(0, 3, &mut buffer);
    let after_second: Vec<(u32, u8)> = buffer
        .info
        .iter()
        .map(|g| (g.codepoint, g.modified_combining_class))
        .collect();
    assert_eq!(after_first, after_second);
}

#[test]
fn reorder_second_run_can_fold_a_skipped_group() {
    // A class-220 modifier behind a class-230 modifier is out of the first
    // run's reach: the 220 pass stops at the higher class in front of it.
    // After the 230 group folds to 26, a second run reaches and folds it.
    let mut buffer = buffer_of(vec![mark(0x0654, 230, 0), mark(0x0655, 220, 1)]);
    reorder_marks(0, 2, &mut buffer);
    assert_eq!(buffer.info[0].codepoint, 0x0654);
    assert_eq!(buffer.info[0].modified_combining_class, 26);
    assert_eq!(buffer.info[1].codepoint, 0x0655);
    assert_eq!(buffer.info[1].modified_combining_class, 220);
    reorder_marks(0, 2, &mut buffer);
    assert_eq!(buffer.info[0].codepoint, 0x0655);
    assert_eq!(buffer.info[0].modified_combining_class, 22);
    assert_eq!(buffer.info[1].codepoint, 0x0654);
    assert_eq!(buffer.info[1].modified_combining_class, 26);
}

#[test]
fn reorder_without_modifier_marks_is_untouched() {
    let mut buffer = buffer_of(vec![mark(0x0300, 230, 0), mark(0x0301, 230, 1)]);
    reorder_marks(0, 2, &mut buffer);
    assert_eq!(buffer.info[0].codepoint, 0x0300);
    assert_eq!(buffer.info[1].codepoint, 0x0301);
    assert_eq!(buffer.info[0].modified_combining_class, 230);
}

#[test]
fn reorder_empty_range() {
    let mut buffer = buffer_of(vec![mark(0x0654, 230, 0)]);
    reorder_marks(1, 1, &mut buffer);
    assert_eq!(buffer.info[0].codepoint, 0x0654);
    assert_eq!(buffer.info[0].modified_combining_class, 230);
}

#[test]
fn reorder_leaves_outside_range_alone() {
    let mut buffer = buffer_of(vec![
        mark(0x0670, 35, 0),
        mark(0x0654, 230, 1),
        mark(0x0655, 220, 2),
    ]);
    // Only the first two positions are in range; the trailing class-220
    // modifier stays where it is.
    reorder_marks(0, 2, &mut buffer);
    assert_eq!(buffer.info[2].codepoint, 0x0655);
    assert_eq!(buffer.info[2].modified_combining_class, 220);
}

#[test]
fn modifier_mark_set() {
    for cp in [0x0654u32, 0x0655, 0x0658, 0x06DC, 0x06E3, 0x06E7, 0x06E8, 0x08D3, 0x08F3] {
        assert!(is_modifier_combining_mark(cp));
    }
    assert!(!is_modifier_combining_mark(0x0670));
    assert!(!is_modifier_combining_mark(0x0300));
}
